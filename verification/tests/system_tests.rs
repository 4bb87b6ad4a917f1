use atomic_disk::atomic_register::{AtomicRegister, AtomicRegisterState, RegisterAction};
use atomic_disk::{
    ClientCommandHeader, ClientRegisterCommand, ClientRegisterCommandContent, OperationReturn,
    OperationSuccess, ReadReturn, SectorVec, SystemRegisterCommand,
};
use std::collections::VecDeque;

const N: u8 = 3;

fn sector(fill: u8) -> SectorVec {
    SectorVec(vec![fill; 4096])
}

struct Cluster {
    regs: Vec<AtomicRegisterState>,
    queue: VecDeque<(u8, SystemRegisterCommand)>,
    completed: Vec<(u8, OperationSuccess)>,
}

impl Cluster {
    fn new() -> Cluster {
        let regs = (1..=N).map(|p| AtomicRegisterState::new(p, 0, N, 0, 0, sector(0)).0).collect();
        Cluster { regs, queue: VecDeque::new(), completed: Vec::new() }
    }

    fn perform(&mut self, p: u8, actions: Vec<RegisterAction>) {
        for action in actions {
            match action {
                RegisterAction::Send(s) => self.queue.push_back((s.target, (*s.cmd).clone())),
                RegisterAction::Broadcast(b) => {
                    for d in 1..=N {
                        self.queue.push_back((d, (*b.cmd).clone()));
                    }
                }
                RegisterAction::StoreSector { .. } => {}
                RegisterAction::Complete(success) => self.completed.push((p, success)),
            }
        }
    }

    fn client(&mut self, p: u8, rid: u64, content: ClientRegisterCommandContent) {
        let cmd = ClientRegisterCommand {
            header: ClientCommandHeader { request_identifier: rid, sector_idx: 0 },
            content,
        };
        let actions = self.regs[(p - 1) as usize].client_command(cmd);
        self.perform(p, actions);
    }

    /// Delivers messages until none is left; messages to `down` are lost.
    fn run(&mut self, down: &[u8]) {
        while let Some((dest, cmd)) = self.queue.pop_front() {
            if down.contains(&dest) {
                continue;
            }
            let reg = &mut self.regs[(dest - 1) as usize];
            assert!(reg.accepts_command(&cmd));
            let actions = reg.system_command(cmd);
            self.perform(dest, actions);
        }
    }
}

#[test]
fn read_after_completed_write_returns_it() {
    let mut cluster = Cluster::new();
    cluster.client(1, 10, ClientRegisterCommandContent::Write { data: sector(7) });
    cluster.run(&[]);
    assert_eq!(
        cluster.completed,
        vec![(1, OperationSuccess { request_identifier: 10, op_return: OperationReturn::Write })]
    );
    cluster.client(2, 11, ClientRegisterCommandContent::Read);
    cluster.run(&[]);
    assert_eq!(
        cluster.completed[1],
        (
            2,
            OperationSuccess {
                request_identifier: 11,
                op_return: OperationReturn::Read(ReadReturn { read_data: sector(7) }),
            }
        )
    );
}

#[test]
fn read_at_a_process_that_missed_the_write_returns_it() {
    let mut cluster = Cluster::new();
    cluster.client(1, 20, ClientRegisterCommandContent::Write { data: sector(9) });
    // Process 3 hears nothing of the write: processes 1 and 2 are a majority.
    cluster.run(&[3]);
    assert_eq!(cluster.completed.len(), 1);
    cluster.client(3, 21, ClientRegisterCommandContent::Read);
    // Now process 1 is cut off; 2 and 3 are a majority and 2 holds the write.
    cluster.run(&[1]);
    assert_eq!(
        cluster.completed[1],
        (
            3,
            OperationSuccess {
                request_identifier: 21,
                op_return: OperationReturn::Read(ReadReturn { read_data: sector(9) }),
            }
        )
    );
}

#[test]
fn later_write_wins_over_earlier_one() {
    let mut cluster = Cluster::new();
    cluster.client(3, 30, ClientRegisterCommandContent::Write { data: sector(1) });
    cluster.run(&[]);
    cluster.client(1, 31, ClientRegisterCommandContent::Write { data: sector(2) });
    cluster.run(&[2]);
    cluster.client(2, 32, ClientRegisterCommandContent::Read);
    cluster.run(&[3]);
    assert_eq!(cluster.completed.len(), 3);
    assert_eq!(
        cluster.completed[2].1.op_return,
        OperationReturn::Read(ReadReturn { read_data: sector(2) })
    );
}

#[test]
fn each_operation_completes_once_despite_duplicate_messages() {
    let mut cluster = Cluster::new();
    cluster.client(1, 40, ClientRegisterCommandContent::Write { data: sector(4) });
    // Every message is delivered twice.
    let mut seen = 0;
    while let Some((dest, cmd)) = cluster.queue.pop_front() {
        for _ in 0..2 {
            let reg = &mut cluster.regs[(dest - 1) as usize];
            assert!(reg.accepts_command(&cmd));
            let actions = reg.system_command(cmd.clone());
            cluster.perform(dest, actions);
        }
        seen += 1;
        assert!(seen < 1000);
    }
    assert_eq!(
        cluster.completed,
        vec![(1, OperationSuccess { request_identifier: 40, op_return: OperationReturn::Write })]
    );
}

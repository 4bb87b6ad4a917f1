use atomic_disk::atomic_register::{AtomicRegister, AtomicRegisterState, RegisterAction};
use atomic_disk::register_client::{Broadcast, Send};
use atomic_disk::{
    ClientCommandHeader, ClientRegisterCommand, ClientRegisterCommandContent, OperationReturn,
    OperationSuccess, ReadReturn, SectorVec, SystemCommandHeader, SystemRegisterCommand,
    SystemRegisterCommandContent,
};
use std::sync::Arc;

fn sector(fill: u8) -> SectorVec {
    SectorVec(vec![fill; 4096])
}

fn header(pid: u8, id: u128, sidx: u64) -> SystemCommandHeader {
    SystemCommandHeader { process_identifier: pid, msg_ident: id, sector_idx: sidx }
}

fn sys(pid: u8, id: u128, content: SystemRegisterCommandContent) -> SystemRegisterCommand {
    SystemRegisterCommand { header: header(pid, id, 0), content }
}

fn value(pid: u8, id: u128, ts: u64, wr: u8, fill: u8) -> SystemRegisterCommand {
    sys(pid, id, SystemRegisterCommandContent::Value { timestamp: ts, write_rank: wr, sector_data: sector(fill) })
}

fn broadcast(cmd: SystemRegisterCommand) -> RegisterAction {
    RegisterAction::Broadcast(Broadcast { cmd: Arc::new(cmd) })
}

fn send(cmd: SystemRegisterCommand, target: u8) -> RegisterAction {
    RegisterAction::Send(Send { cmd: Arc::new(cmd), target })
}

fn started(reg: &mut AtomicRegisterState, content: ClientRegisterCommandContent, rid: u64) -> u128 {
    let actions = reg.client_command(ClientRegisterCommand {
        header: ClientCommandHeader { request_identifier: rid, sector_idx: 0 },
        content,
    });
    assert_eq!(actions.len(), 1);
    match &actions[0] {
        RegisterAction::Broadcast(b) => {
            assert_eq!(b.cmd.header.process_identifier, 1);
            assert_eq!(b.cmd.header.sector_idx, 0);
            assert_eq!(b.cmd.content, SystemRegisterCommandContent::ReadProc);
            b.cmd.header.msg_ident
        }
        _ => panic!("a client command broadcasts READ_PROC"),
    }
}

#[test]
fn new_register_stores_its_recovered_sector() {
    let (_reg, actions) = AtomicRegisterState::new(1, 0, 3, 5, 2, sector(8));
    assert_eq!(
        actions,
        vec![RegisterAction::StoreSector { data: sector(8), timestamp: 5, write_rank: 2 }]
    );
}

#[test]
fn write_completes_after_majorities() {
    let (mut reg, _) = AtomicRegisterState::new(1, 0, 3, 0, 0, sector(0));
    let id = started(&mut reg, ClientRegisterCommandContent::Write { data: sector(7) }, 99);
    assert!(reg.system_command(value(2, id, 0, 0, 0)).is_empty());
    let actions = reg.system_command(value(3, id, 4, 2, 3));
    let write = sys(1, id, SystemRegisterCommandContent::WriteProc {
        timestamp: 5,
        write_rank: 1,
        data_to_write: sector(7),
    });
    assert_eq!(
        actions,
        vec![
            RegisterAction::StoreSector { data: sector(7), timestamp: 5, write_rank: 1 },
            broadcast(write),
        ]
    );
    assert!(reg.system_command(sys(2, id, SystemRegisterCommandContent::Ack)).is_empty());
    let done = reg.system_command(sys(3, id, SystemRegisterCommandContent::Ack));
    assert_eq!(
        done,
        vec![RegisterAction::Complete(OperationSuccess {
            request_identifier: 99,
            op_return: OperationReturn::Write,
        })]
    );
    // Later acknowledgements of the finished operation change nothing.
    assert!(reg.system_command(sys(2, id, SystemRegisterCommandContent::Ack)).is_empty());
}

#[test]
fn read_returns_highest_value() {
    let (mut reg, _) = AtomicRegisterState::new(1, 0, 3, 1, 1, sector(1));
    let id = started(&mut reg, ClientRegisterCommandContent::Read, 5);
    assert!(reg.system_command(value(2, id, 3, 1, 30)).is_empty());
    let actions = reg.system_command(value(3, id, 3, 2, 32));
    let write_back = sys(1, id, SystemRegisterCommandContent::WriteProc {
        timestamp: 3,
        write_rank: 2,
        data_to_write: sector(32),
    });
    assert_eq!(actions, vec![broadcast(write_back)]);
    assert!(reg.system_command(sys(3, id, SystemRegisterCommandContent::Ack)).is_empty());
    let done = reg.system_command(sys(1, id, SystemRegisterCommandContent::Ack));
    assert_eq!(
        done,
        vec![RegisterAction::Complete(OperationSuccess {
            request_identifier: 5,
            op_return: OperationReturn::Read(ReadReturn { read_data: sector(32) }),
        })]
    );
}

#[test]
fn stale_values_are_ignored() {
    let (mut reg, _) = AtomicRegisterState::new(1, 0, 3, 0, 0, sector(0));
    let id = started(&mut reg, ClientRegisterCommandContent::Read, 5);
    assert!(reg.system_command(value(2, id.wrapping_add(1), 3, 1, 30)).is_empty());
    assert!(reg.system_command(value(3, id.wrapping_add(1), 3, 1, 30)).is_empty());
    assert!(reg.system_command(value(2, id, 0, 0, 0)).is_empty());
}

#[test]
fn read_proc_is_answered_with_value() {
    let (mut reg, _) = AtomicRegisterState::new(2, 0, 3, 8, 3, sector(4));
    let actions = reg.system_command(sys(3, 77, SystemRegisterCommandContent::ReadProc));
    assert_eq!(actions, vec![send(value(2, 77, 8, 3, 4), 3)]);
}

#[test]
fn write_proc_adopts_newer_values_only() {
    let (mut reg, _) = AtomicRegisterState::new(2, 0, 3, 8, 3, sector(4));
    let older = reg.system_command(sys(1, 6, SystemRegisterCommandContent::WriteProc {
        timestamp: 8,
        write_rank: 2,
        data_to_write: sector(9),
    }));
    assert_eq!(older, vec![send(sys(2, 6, SystemRegisterCommandContent::Ack), 1)]);
    let newer = reg.system_command(sys(1, 6, SystemRegisterCommandContent::WriteProc {
        timestamp: 8,
        write_rank: 4,
        data_to_write: sector(9),
    }));
    assert_eq!(
        newer,
        vec![
            RegisterAction::StoreSector { data: sector(9), timestamp: 8, write_rank: 4 },
            send(sys(2, 6, SystemRegisterCommandContent::Ack), 1),
        ]
    );
    let answer = reg.system_command(sys(3, 1, SystemRegisterCommandContent::ReadProc));
    assert_eq!(answer, vec![send(value(2, 1, 8, 4, 9), 3)]);
}

#[test]
fn explicit_operation_identifier() {
    let (mut reg, _) = AtomicRegisterState::new(1, 4, 1, 0, 0, sector(0));
    let actions = reg.client_command_with_id(
        ClientRegisterCommand {
            header: ClientCommandHeader { request_identifier: 1, sector_idx: 4 },
            content: ClientRegisterCommandContent::Read,
        },
        1234,
    );
    assert_eq!(
        actions,
        vec![broadcast(SystemRegisterCommand {
            header: header(1, 1234, 4),
            content: SystemRegisterCommandContent::ReadProc,
        })]
    );
}

#[test]
fn late_messages_before_any_operation_are_ignored() {
    let (mut reg, _) = AtomicRegisterState::new(1, 0, 3, 2, 2, sector(2));
    let v = value(2, 55, 9, 9, 9);
    assert!(reg.accepts_command(&v));
    assert!(reg.system_command(v).is_empty());
    let a = sys(3, 55, SystemRegisterCommandContent::Ack);
    assert!(reg.accepts_command(&a));
    assert!(reg.system_command(a).is_empty());
    let answer = reg.system_command(sys(3, 1, SystemRegisterCommandContent::ReadProc));
    assert_eq!(answer, vec![send(value(1, 1, 2, 2, 2), 3)]);
}

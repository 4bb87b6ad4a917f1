//! The (N,N)-AtomicRegister algorithm for one sector, as a state machine:
//! each client or system command takes the register to its next state and
//! yields the actions (messages to send, sector to store, operation to
//! complete) that the caller performs in order.
use crate::domain::{
    ClientRegisterCommand, ClientRegisterCommandContent, ClientCommandView, ClientContentView,
    OperationReturn, OperationReturnView, OperationSuccess, OperationSuccessView, ReadReturn,
    SectorIdx, SectorVec, SystemCommandHeader, SystemCommandView, SystemContentView,
    SystemRegisterCommand, SystemRegisterCommandContent, SECTOR_SIZE,
};
use crate::primitives::new_operation_id;
use crate::register_client::{Broadcast, Send};
use std::collections::{HashMap, HashSet};
use std::sync::Arc;
use vstd::prelude::*;

verus! {

broadcast use vstd::std_specs::hash::group_hash_axioms;

/// Entry of the read list: timestamp, write rank and value that a process
/// reported.
pub type ReadEntry = (u64, u8, Seq<u8>);

/// View of an entry of the read list.
pub open spec fn entry_view(e: (u64, u8, SectorVec)) -> ReadEntry {
    (e.0, e.1, e.2@)
}

/// View of the read list.
pub open spec fn readlist_view(m: Map<u8, (u64, u8, SectorVec)>) -> Map<u8, ReadEntry> {
    Map::new(|k: u8| m.dom().contains(k), |k: u8| entry_view(m[k]))
}

/// Mathematical view of a register.
#[verifier::ext_equal]
pub struct RegisterView {
    pub self_ident: u8,
    pub sector_idx: SectorIdx,
    pub processes_count: u8,
    pub ts: u64,
    pub wr: u8,
    pub val: Seq<u8>,
    pub readlist: Map<u8, ReadEntry>,
    pub acklist: Set<u8>,
    pub reading: bool,
    pub writing: bool,
    pub writeval: Seq<u8>,
    pub readval: Seq<u8>,
    pub write_phase: bool,
    pub rid: Option<u64>,
    pub op_id: Option<u128>,
}

/// What the caller of a register does after a step, in order.
#[derive(Debug, PartialEq, Eq)]
pub enum RegisterAction {
    /// Send a system message to one process.
    Send(Send),
    /// Send a system message to every process.
    Broadcast(Broadcast),
    /// Store the register's value, timestamp and write rank in its sector.
    StoreSector { data: SectorVec, timestamp: u64, write_rank: u8 },
    /// Hand the result of the client operation to its callback.
    Complete(OperationSuccess),
}

/// View of an action.
#[verifier::ext_equal]
pub enum RegisterActionView {
    Send { cmd: SystemCommandView, target: u8 },
    Broadcast { cmd: SystemCommandView },
    StoreSector { data: Seq<u8>, timestamp: u64, write_rank: u8 },
    Complete { success: OperationSuccessView },
}

impl View for RegisterAction {
    type V = RegisterActionView;

    open spec fn view(&self) -> RegisterActionView {
        match self {
            RegisterAction::Send(s) => RegisterActionView::Send { cmd: s@.0, target: s@.1 },
            RegisterAction::Broadcast(b) => RegisterActionView::Broadcast { cmd: b@ },
            RegisterAction::StoreSector { data, timestamp, write_rank } =>
                RegisterActionView::StoreSector {
                data: data@,
                timestamp: *timestamp,
                write_rank: *write_rank,
            },
            RegisterAction::Complete(s) => RegisterActionView::Complete { success: s@ },
        }
    }
}

/// Views of a sequence of actions.
pub open spec fn actions_view(actions: Seq<RegisterAction>) -> Seq<RegisterActionView> {
    actions.map_values(|a: RegisterAction| a@)
}

/// The state of the register of one sector.
pub struct AtomicRegisterState {
    self_ident: u8,
    sector_idx: SectorIdx,
    processes_count: u8,
    ts: u64,
    wr: u8,
    val: SectorVec,
    readlist: HashMap<u8, (u64, u8, SectorVec)>,
    acklist: HashSet<u8>,
    reading: bool,
    writing: bool,
    writeval: SectorVec,
    readval: SectorVec,
    write_phase: bool,
    rid: Option<u64>,
    op_id: Option<u128>,
    /// The low 64 bits of the identifier of the next operation; every
    /// identifier used so far has lower low bits.
    next_op: u128,
    /// The identifiers of all operations the register has started.
    used_ops: Ghost<Set<u128>>,
}

/// 2^64: identifiers are numbered in their low 64 bits.
pub open spec fn low_span() -> int {
    0x1_0000_0000_0000_0000
}

impl AtomicRegisterState {
    /// The identifiers of all operations that the register has started.
    pub closed spec fn used_operations(&self) -> Set<u128> {
        self.used_ops@
    }

    /// How many identifiers the register can still number: it gives fresh
    /// identifiers while this is below 2^64.
    pub closed spec fn operations_numbered(&self) -> u128 {
        self.next_op
    }

    /// Every identifier used so far is numbered below the next one.
    pub closed spec fn ids_fresh(&self) -> bool {
        &&& self.next_op <= low_span()
        &&& forall|id: u128| #[trigger] self.used_ops@.contains(id) ==> id % (low_span() as u128) < self.next_op
    }
}

impl View for AtomicRegisterState {
    type V = RegisterView;

    closed spec fn view(&self) -> RegisterView {
        RegisterView {
            self_ident: self.self_ident,
            sector_idx: self.sector_idx,
            processes_count: self.processes_count,
            ts: self.ts,
            wr: self.wr,
            val: self.val@,
            readlist: readlist_view(self.readlist@),
            acklist: self.acklist@,
            reading: self.reading,
            writing: self.writing,
            writeval: self.writeval@,
            readval: self.readval@,
            write_phase: self.write_phase,
            rid: self.rid,
            op_id: self.op_id,
        }
    }
}

/// Whether `(t1, r1)` comes after `(t2, r2)` in lexicographic order.
pub open spec fn newer(t1: u64, r1: u8, t2: u64, r2: u8) -> bool {
    t1 > t2 || (t1 == t2 && r1 > r2)
}

/// Whether the entry of `a` comes no later than the entry of `b`, ordered
/// by timestamp, then write rank, then process.
pub open spec fn entry_le(m: Map<u8, ReadEntry>, a: u8, b: u8) -> bool {
    let ea = m[a];
    let eb = m[b];
    ea.0 < eb.0 || (ea.0 == eb.0 && (ea.1 < eb.1 || (ea.1 == eb.1 && a <= b)))
}

/// Whether `k` holds the highest entry of the read list.
pub open spec fn is_highest_key(m: Map<u8, ReadEntry>, k: u8) -> bool {
    &&& m.dom().contains(k)
    &&& forall|j: u8| #[trigger] m.dom().contains(j) ==> entry_le(m, j, k)
}

/// The entry with the largest timestamp and, among those, the largest
/// write rank (ties broken by process).
pub open spec fn highest(m: Map<u8, ReadEntry>) -> ReadEntry {
    m[choose|k: u8| is_highest_key(m, k)]
}

/// The read list, once complete, with this register's own entry.
pub open spec fn full_readlist(s: RegisterView, q: u8, e: ReadEntry) -> Map<u8, ReadEntry> {
    s.readlist.insert(q, e).insert(s.self_ident, (s.ts, s.wr, s.val))
}

/// Header of a message that this register sends.
pub open spec fn own_header(s: RegisterView, msg_ident: u128, sector_idx: SectorIdx) -> SystemCommandHeader {
    SystemCommandHeader { process_identifier: s.self_ident, msg_ident, sector_idx }
}

/// The step taken on a client command, with `op_id` as the identifier of
/// the new operation: the register starts a read or a write and asks every
/// process for its value.
pub open spec fn spec_client_step(s: RegisterView, cmd: ClientCommandView, op_id: u128) -> (
    RegisterView,
    Seq<RegisterActionView>,
) {
    let s1 = match cmd.content {
        ClientContentView::Read => RegisterView {
            readlist: Map::empty(),
            acklist: Set::empty(),
            reading: true,
            ..s
        },
        ClientContentView::Write { data } => RegisterView {
            writeval: data,
            readlist: Map::empty(),
            acklist: Set::empty(),
            writing: true,
            ..s
        },
    };
    let s2 = RegisterView { op_id: Some(op_id), rid: Some(cmd.request_identifier), ..s1 };
    let msg = SystemCommandView {
        header: own_header(s, op_id, cmd.sector_idx),
        content: SystemContentView::ReadProc,
    };
    (s2, seq![RegisterActionView::Broadcast { cmd: msg }])
}

/// Whether a `Value` message from `q` completes the read phase.
pub open spec fn completes_read_phase(s: RegisterView, q: u8, e: ReadEntry) -> bool {
    s.readlist.insert(q, e).len() > s.processes_count / 2 && (s.reading || s.writing)
}

/// The step taken on a `Value` message.
pub open spec fn spec_value_step(s: RegisterView, h: SystemCommandHeader, e: ReadEntry) -> (
    RegisterView,
    Seq<RegisterActionView>,
) {
    if s.op_id == Some(h.msg_ident) && !s.write_phase {
        let q = h.process_identifier;
        if completes_read_phase(s, q, e) {
            let best = highest(full_readlist(s, q, e));
            let header = own_header(s, h.msg_ident, h.sector_idx);
            let base = RegisterView {
                readval: best.2,
                readlist: Map::empty(),
                acklist: Set::empty(),
                write_phase: true,
                ..s
            };
            if s.reading {
                let msg = SystemCommandView {
                    header,
                    content: SystemContentView::WriteProc {
                        timestamp: best.0,
                        write_rank: best.1,
                        data_to_write: best.2,
                    },
                };
                (base, seq![RegisterActionView::Broadcast { cmd: msg }])
            } else {
                let t = (best.0 + 1) as u64;
                let msg = SystemCommandView {
                    header,
                    content: SystemContentView::WriteProc {
                        timestamp: t,
                        write_rank: s.self_ident,
                        data_to_write: s.writeval,
                    },
                };
                (
                    RegisterView { ts: t, wr: s.self_ident, val: s.writeval, ..base },
                    seq![
                        RegisterActionView::StoreSector {
                            data: s.writeval,
                            timestamp: t,
                            write_rank: s.self_ident,
                        },
                        RegisterActionView::Broadcast { cmd: msg },
                    ],
                )
            }
        } else {
            (RegisterView { readlist: s.readlist.insert(q, e), ..s }, Seq::empty())
        }
    } else {
        (s, Seq::empty())
    }
}

/// The step taken on a `WriteProc` message: adopt the value if it is newer,
/// then acknowledge.
pub open spec fn spec_write_proc_step(
    s: RegisterView,
    h: SystemCommandHeader,
    timestamp: u64,
    write_rank: u8,
    data: Seq<u8>,
) -> (RegisterView, Seq<RegisterActionView>) {
    let ack = RegisterActionView::Send {
        cmd: SystemCommandView {
            header: own_header(s, h.msg_ident, h.sector_idx),
            content: SystemContentView::Ack,
        },
        target: h.process_identifier,
    };
    if newer(timestamp, write_rank, s.ts, s.wr) {
        (
            RegisterView { ts: timestamp, wr: write_rank, val: data, ..s },
            seq![RegisterActionView::StoreSector { data, timestamp, write_rank }, ack],
        )
    } else {
        (s, seq![ack])
    }
}

/// The step taken on an `Ack` message: once a majority acknowledged, the
/// operation completes.
pub open spec fn spec_ack_step(s: RegisterView, h: SystemCommandHeader) -> (
    RegisterView,
    Seq<RegisterActionView>,
) {
    if s.op_id == Some(h.msg_ident) && s.write_phase {
        let acks = s.acklist.insert(h.process_identifier);
        if acks.len() > s.processes_count / 2 && (s.reading || s.writing) {
            let base = RegisterView { acklist: Set::empty(), write_phase: false, ..s };
            if s.reading {
                let success = OperationSuccessView {
                    request_identifier: s.rid.unwrap(),
                    op_return: OperationReturnView::Read { read_data: s.readval },
                };
                (
                    RegisterView { reading: false, ..base },
                    seq![RegisterActionView::Complete { success }],
                )
            } else {
                let success = OperationSuccessView {
                    request_identifier: s.rid.unwrap(),
                    op_return: OperationReturnView::Write,
                };
                (
                    RegisterView { writing: false, ..base },
                    seq![RegisterActionView::Complete { success }],
                )
            }
        } else {
            (RegisterView { acklist: acks, ..s }, Seq::empty())
        }
    } else {
        (s, Seq::empty())
    }
}

/// The step taken on a system command.
pub open spec fn spec_system_step(s: RegisterView, cmd: SystemCommandView) -> (
    RegisterView,
    Seq<RegisterActionView>,
) {
    let h = cmd.header;
    match cmd.content {
        SystemContentView::ReadProc => {
            let msg = SystemCommandView {
                header: own_header(s, h.msg_ident, h.sector_idx),
                content: SystemContentView::Value {
                    timestamp: s.ts,
                    write_rank: s.wr,
                    sector_data: s.val,
                },
            };
            (s, seq![RegisterActionView::Send { cmd: msg, target: h.process_identifier }])
        },
        SystemContentView::Value { timestamp, write_rank, sector_data } => spec_value_step(
            s,
            h,
            (timestamp, write_rank, sector_data),
        ),
        SystemContentView::WriteProc { timestamp, write_rank, data_to_write } =>
            spec_write_proc_step(s, h, timestamp, write_rank, data_to_write),
        SystemContentView::Ack => spec_ack_step(s, h),
    }
}

/// Whether a register can take a system command: a `Value` that completes
/// the read phase of a write needs a highest timestamp that can still be
/// increased.
pub open spec fn accepts_system_command(s: RegisterView, cmd: SystemCommandView) -> bool {
    match cmd.content {
        SystemContentView::Value { timestamp, write_rank, sector_data } => {
            let q = cmd.header.process_identifier;
            let e = (timestamp, write_rank, sector_data);
            (s.op_id == Some(cmd.header.msg_ident) && !s.write_phase && completes_read_phase(
                s,
                q,
                e,
            ) && !s.reading) ==> highest(full_readlist(s, q, e)).0 < u64::MAX
        },
        _ => true,
    }
}

/// The invariant of a register: an operation in progress has a request
/// identifier and an operation identifier.
pub open spec fn register_well_formed(s: RegisterView) -> bool {
    (s.reading || s.writing) ==> (s.rid is Some && s.op_id is Some)
}


proof fn lemma_readlist_view_insert(m: Map<u8, (u64, u8, SectorVec)>, k: u8, e: (u64, u8, SectorVec))
    ensures
        readlist_view(m.insert(k, e)) == readlist_view(m).insert(k, entry_view(e)),
        readlist_view(m).dom() == m.dom(),
{
    assert(readlist_view(m.insert(k, e)) =~= readlist_view(m).insert(k, entry_view(e)));
    assert(readlist_view(m).dom() =~= m.dom());
}

proof fn lemma_readlist_view_empty()
    ensures
        readlist_view(Map::<u8, (u64, u8, SectorVec)>::empty()) == Map::<u8, ReadEntry>::empty(),
{
    assert(readlist_view(Map::<u8, (u64, u8, SectorVec)>::empty()) =~= Map::<u8, ReadEntry>::empty());
}

proof fn lemma_highest_unique(m: Map<u8, ReadEntry>, k: u8)
    requires
        is_highest_key(m, k),
    ensures
        highest(m) == m[k],
{
    let c = choose|j: u8| is_highest_key(m, j);
    assert(is_highest_key(m, c));
    assert(entry_le(m, c, k));
    assert(entry_le(m, k, c));
}

/// The process whose entry in the read list is the highest.
fn highest_key(m: &HashMap<u8, (u64, u8, SectorVec)>, start: u8) -> (k: u8)
    requires
        m@.contains_key(start),
    ensures
        is_highest_key(readlist_view(m@), k),
{
    let ghost v = readlist_view(m@);
    proof {
        assert(v.dom() =~= m@.dom());
    }
    let mut best: u8 = start;
    let mut best_ts: u64 = 0;
    let mut best_wr: u8 = 0;
    match m.get(&start) {
        Some(e) => {
            best_ts = e.0;
            best_wr = e.1;
        },
        None => {},
    }
    let mut i: u16 = 0;
    while i < 256
        invariant
            i <= 256,
            v == readlist_view(m@),
            v.dom() == m@.dom(),
            v.dom().contains(best),
            v[best].0 == best_ts,
            v[best].1 == best_wr,
            forall|j: u8| #[trigger] v.dom().contains(j) && (j < i || j == start) ==> entry_le(v, j, best),
        decreases 256 - i,
    {
        let k = i as u8;
        match m.get(&k) {
            Some(e) => {
                if best_ts < e.0 || (best_ts == e.0 && (best_wr < e.1 || (best_wr == e.1 && best <= k))) {
                    best = k;
                    best_ts = e.0;
                    best_wr = e.1;
                }
            },
            None => {},
        }
        i = i + 1;
    }
    best
}

impl AtomicRegisterState {
    /// A register for a sector, recovered with the given timestamp, write
    /// rank and value. It stores them back in its sector first.
    pub fn new(
        self_ident: u8,
        sector_idx: SectorIdx,
        processes_count: u8,
        ts: u64,
        wr: u8,
        val: SectorVec,
    ) -> (r: (AtomicRegisterState, Vec<RegisterAction>))
        ensures
            r.0@ == initial_register(self_ident, sector_idx, processes_count, ts, wr, val@),
            r.0.used_operations() == Set::<u128>::empty(),
            r.0.ids_fresh(),
            actions_view(r.1@) == seq![
                RegisterActionView::StoreSector { data: val@, timestamp: ts, write_rank: wr },
            ],
    {
        let mut actions: Vec<RegisterAction> = Vec::new();
        actions.push(RegisterAction::StoreSector { data: val.clone(), timestamp: ts, write_rank: wr });
        let state = AtomicRegisterState {
            self_ident,
            sector_idx,
            processes_count,
            ts,
            wr,
            val,
            readlist: HashMap::new(),
            acklist: HashSet::new(),
            reading: false,
            writing: false,
            writeval: SectorVec::zeroed(),
            readval: SectorVec::zeroed(),
            write_phase: false,
            rid: None,
            op_id: None,
            next_op: 0,
            used_ops: Ghost(Set::empty()),
        };
        proof {
            lemma_readlist_view_empty();
            assert(actions_view(actions@) =~= seq![
                RegisterActionView::StoreSector { data: val@, timestamp: ts, write_rank: wr },
            ]);
        }
        (state, actions)
    }

    /// Starts the client operation `cmd` under the operation identifier
    /// `op_id`.
    pub fn client_command_with_id(&mut self, cmd: ClientRegisterCommand, op_id: u128) -> (actions:
        Vec<RegisterAction>)
        ensures
            final(self)@ == spec_client_step(old(self)@, cmd@, op_id).0,
            actions_view(actions@) == spec_client_step(old(self)@, cmd@, op_id).1,
            final(self).used_operations() == old(self).used_operations().insert(op_id),
            old(self).ids_fresh() ==> final(self).ids_fresh(),
            final(self).operations_numbered() >= old(self).operations_numbered(),
    {
        let low: u128 = op_id % 0x1_0000_0000_0000_0000;
        if self.next_op <= low {
            self.next_op = low + 1;
        }
        proof {
            self.used_ops@ = self.used_ops@.insert(op_id);
        }
        self.op_id = Some(op_id);
        self.rid = Some(cmd.header.request_identifier);
        match cmd.content {
            ClientRegisterCommandContent::Read => {
                self.readlist.clear();
                self.acklist.clear();
                self.reading = true;
            },
            ClientRegisterCommandContent::Write { data } => {
                self.writeval = data;
                self.acklist.clear();
                self.readlist.clear();
                self.writing = true;
            },
        }
        let header = SystemCommandHeader {
            process_identifier: self.self_ident,
            msg_ident: op_id,
            sector_idx: cmd.header.sector_idx,
        };
        let system_cmd = SystemRegisterCommand { header, content: SystemRegisterCommandContent::ReadProc };
        let mut actions: Vec<RegisterAction> = Vec::new();
        actions.push(RegisterAction::Broadcast(Broadcast { cmd: Arc::new(system_cmd) }));
        proof {
            lemma_readlist_view_empty();
            assert(actions_view(actions@) =~= spec_client_step(old(self)@, cmd@, op_id).1);
        }
        actions
    }
}

impl AtomicRegisterState {
    fn handle_read_proc(&self, header: SystemCommandHeader) -> (actions: Vec<RegisterAction>)
        ensures
            actions_view(actions@) == spec_system_step(
                self@,
                SystemCommandView { header, content: SystemContentView::ReadProc },
            ).1,
    {
        let reply_header = SystemCommandHeader {
            process_identifier: self.self_ident,
            msg_ident: header.msg_ident,
            sector_idx: header.sector_idx,
        };
        let content = SystemRegisterCommandContent::Value {
            timestamp: self.ts,
            write_rank: self.wr,
            sector_data: self.val.clone(),
        };
        let system_cmd = SystemRegisterCommand { header: reply_header, content };
        let mut actions: Vec<RegisterAction> = Vec::new();
        actions.push(
            RegisterAction::Send(Send { cmd: Arc::new(system_cmd), target: header.process_identifier }),
        );
        proof {
            assert(actions_view(actions@) =~= spec_system_step(
                self@,
                SystemCommandView { header, content: SystemContentView::ReadProc },
            ).1);
        }
        actions
    }

    fn handle_write_proc(
        &mut self,
        header: SystemCommandHeader,
        timestamp: u64,
        write_rank: u8,
        data_to_write: SectorVec,
    ) -> (actions: Vec<RegisterAction>)
        ensures
            final(self)@ == spec_write_proc_step(
                old(self)@,
                header,
                timestamp,
                write_rank,
                data_to_write@,
            ).0,
            actions_view(actions@) == spec_write_proc_step(
                old(self)@,
                header,
                timestamp,
                write_rank,
                data_to_write@,
            ).1,
    {
        let mut actions: Vec<RegisterAction> = Vec::new();
        if timestamp > self.ts || (timestamp == self.ts && write_rank > self.wr) {
            self.ts = timestamp;
            self.wr = write_rank;
            self.val = data_to_write;
            actions.push(
                RegisterAction::StoreSector {
                    data: self.val.clone(),
                    timestamp: self.ts,
                    write_rank: self.wr,
                },
            );
        }
        let ack_header = SystemCommandHeader {
            process_identifier: self.self_ident,
            msg_ident: header.msg_ident,
            sector_idx: header.sector_idx,
        };
        let system_cmd = SystemRegisterCommand {
            header: ack_header,
            content: SystemRegisterCommandContent::Ack,
        };
        actions.push(
            RegisterAction::Send(Send { cmd: Arc::new(system_cmd), target: header.process_identifier }),
        );
        proof {
            assert(actions_view(actions@) =~= spec_write_proc_step(
                old(self)@,
                header,
                timestamp,
                write_rank,
                data_to_write@,
            ).1);
        }
        actions
    }

    fn handle_ack(&mut self, header: SystemCommandHeader) -> (actions: Vec<RegisterAction>)
        requires
            register_well_formed(old(self)@),
        ensures
            final(self)@ == spec_ack_step(old(self)@, header).0,
            actions_view(actions@) == spec_ack_step(old(self)@, header).1,
    {
        let mut actions: Vec<RegisterAction> = Vec::new();
        let q = header.process_identifier;
        let id = header.msg_ident;
        if is_current(&self.op_id, id) && self.write_phase {
            self.acklist.insert(q);
            if self.acklist.len() > (self.processes_count as usize) / 2 && (self.reading
                || self.writing) {
                self.acklist.clear();
                self.write_phase = false;
                let rid = self.rid.unwrap();
                if self.reading {
                    self.reading = false;
                    let op_return = OperationReturn::Read(ReadReturn { read_data: self.readval.clone() });
                    actions.push(RegisterAction::Complete(OperationSuccess { request_identifier: rid, op_return }));
                } else {
                    self.writing = false;
                    actions.push(
                        RegisterAction::Complete(
                            OperationSuccess { request_identifier: rid, op_return: OperationReturn::Write },
                        ),
                    );
                }
            }
        }
        proof {
            assert(actions_view(actions@) =~= spec_ack_step(old(self)@, header).1);
        }
        actions
    }

    fn handle_value(
        &mut self,
        header: SystemCommandHeader,
        timestamp: u64,
        write_rank: u8,
        sector_data: SectorVec,
    ) -> (actions: Vec<RegisterAction>)
        requires
            accepts_system_command(
                old(self)@,
                SystemCommandView {
                    header,
                    content: SystemContentView::Value {
                        timestamp,
                        write_rank,
                        sector_data: sector_data@,
                    },
                },
            ),
        ensures
            final(self)@ == spec_value_step(
                old(self)@,
                header,
                (timestamp, write_rank, sector_data@),
            ).0,
            actions_view(actions@) == spec_value_step(
                old(self)@,
                header,
                (timestamp, write_rank, sector_data@),
            ).1,
    {
        let ghost s = self@;
        let ghost e = (timestamp, write_rank, sector_data@);
        let mut actions: Vec<RegisterAction> = Vec::new();
        let q = header.process_identifier;
        let id = header.msg_ident;
        let sidx = header.sector_idx;
        if is_current(&self.op_id, id) && !self.write_phase {
            let ghost m0 = self.readlist@;
            self.readlist.insert(q, (timestamp, write_rank, sector_data));
            proof {
                lemma_readlist_view_insert(m0, q, (timestamp, write_rank, sector_data));
                lemma_readlist_view_insert(self.readlist@, q, (timestamp, write_rank, sector_data));
            }
            if self.readlist.len() > (self.processes_count as usize) / 2 && (self.reading
                || self.writing) {
                let ghost m1 = self.readlist@;
                let own = (self.ts, self.wr, self.val.clone());
                self.readlist.insert(self.self_ident, own);
                proof {
                    lemma_readlist_view_insert(m1, s.self_ident, own);
                    assert(readlist_view(self.readlist@) == full_readlist(s, q, e));
                }
                let k = highest_key(&self.readlist, self.self_ident);
                proof {
                    lemma_highest_unique(full_readlist(s, q, e), k);
                }
                let (maxts, rr, readval) = match self.readlist.get(&k) {
                    Some(entry) => (entry.0, entry.1, entry.2.clone()),
                    None => (0, 0, SectorVec(Vec::new())),
                };
                assert((maxts, rr, readval@) == highest(full_readlist(s, q, e)));
                self.readval = readval.clone();
                self.readlist.clear();
                self.acklist.clear();
                self.write_phase = true;
                proof {
                    lemma_readlist_view_empty();
                }
                let reply_header = SystemCommandHeader {
                    process_identifier: self.self_ident,
                    msg_ident: id,
                    sector_idx: sidx,
                };
                let content;
                if self.reading {
                    content = SystemRegisterCommandContent::WriteProc {
                        timestamp: maxts,
                        write_rank: rr,
                        data_to_write: readval,
                    };
                } else {
                    self.ts = maxts + 1;
                    self.wr = self.self_ident;
                    self.val = self.writeval.clone();
                    actions.push(
                        RegisterAction::StoreSector {
                            data: self.val.clone(),
                            timestamp: self.ts,
                            write_rank: self.wr,
                        },
                    );
                    content = SystemRegisterCommandContent::WriteProc {
                        timestamp: self.ts,
                        write_rank: self.self_ident,
                        data_to_write: self.writeval.clone(),
                    };
                }
                let system_cmd = SystemRegisterCommand { header: reply_header, content };
                actions.push(RegisterAction::Broadcast(Broadcast { cmd: Arc::new(system_cmd) }));
            }
        }
        proof {
            assert(actions_view(actions@) =~= spec_value_step(s, header, e).1);
        }
        actions
    }
}

impl AtomicRegisterState {
    /// Whether the register can take the system command (see
    /// `accepts_system_command`); a caller checks this before
    /// `system_command`.
    pub fn accepts_command(&self, cmd: &SystemRegisterCommand) -> (b: bool)
        ensures
            b == accepts_system_command(self@, cmd@),
    {
        match &cmd.content {
            SystemRegisterCommandContent::Value { timestamp, write_rank, sector_data } => {
                let q = cmd.header.process_identifier;
                let ghost e = (*timestamp, *write_rank, sector_data@);
                let ghost s = self@;
                proof {
                    lemma_readlist_view_insert(self.readlist@, q, (*timestamp, *write_rank, *sector_data));
                    assert(s.readlist.insert(q, e).dom() == s.readlist.dom().insert(q));
                    lemma_set_insert_len(s.readlist.dom(), q);
                }
                let half = (self.processes_count as usize) / 2;
                let quorum = if self.readlist.contains_key(&q) {
                    self.readlist.len() > half
                } else {
                    self.readlist.len() >= half
                };
                let completes = quorum && (self.reading || self.writing);
                if is_current(&self.op_id, cmd.header.msg_ident) && !self.write_phase && completes
                    && !self.reading {
                    let max_ts = self.highest_timestamp_with(q, *timestamp);
                    proof {
                        lemma_highest_timestamp(full_readlist(s, q, e), max_ts);
                    }
                    max_ts < u64::MAX
                } else {
                    true
                }
            },
            _ => true,
        }
    }

    /// The largest timestamp of the read list once `q`'s entry (with
    /// `timestamp`) and this register's own entry are in it.
    fn highest_timestamp_with(&self, q: u8, timestamp: u64) -> (t: u64)
        ensures
            forall|e: ReadEntry| #![auto] e.0 == timestamp ==> is_max_timestamp(
                full_readlist(self@, q, e),
                t,
            ),
    {
        let mut best: u64 = self.ts;
        if q != self.self_ident && timestamp > best {
            best = timestamp;
        }
        let mut i: u16 = 0;
        while i < 256
            invariant
                i <= 256,
                best >= self.ts,
                q != self.self_ident ==> best >= timestamp,
                best == self.ts || (q != self.self_ident && best == timestamp) || exists|j: u8|
                    #[trigger] self.readlist@.contains_key(j) && j != q && j != self.self_ident
                        && self.readlist@[j].0 == best,
                forall|j: u8|
                    #[trigger] self.readlist@.contains_key(j) && j < i && j != q && j
                        != self.self_ident ==> self.readlist@[j].0 <= best,
            decreases 256 - i,
        {
            let k = i as u8;
            if k != q && k != self.self_ident {
                match self.readlist.get(&k) {
                    Some(entry) => {
                        if entry.0 > best {
                            best = entry.0;
                        }
                    },
                    None => {},
                }
            }
            i = i + 1;
        }
        proof {
            assert forall|e: ReadEntry| #![auto] e.0 == timestamp implies is_max_timestamp(
                full_readlist(self@, q, e),
                best,
            ) by {
                let m = full_readlist(self@, q, e);
                assert(m.dom().contains(self.self_ident));
                assert(m[self.self_ident].0 == self.ts);
                let w: u8 = if best == self.ts {
                    self.self_ident
                } else if q != self.self_ident && best == timestamp {
                    q
                } else {
                    choose|j: u8|
                        #[trigger] self.readlist@.contains_key(j) && j != q && j != self.self_ident
                            && self.readlist@[j].0 == best
                };
                if w != self.self_ident && w != q {
                    assert(m[w] == entry_view(self.readlist@[w]));
                }
                assert(m.dom().contains(w) && m[w].0 == best);
                assert forall|j: u8| #[trigger] m.dom().contains(j) implies m[j].0 <= best by {
                    if j != q && j != self.self_ident {
                        assert(self.readlist@.contains_key(j));
                        assert(m[j] == entry_view(self.readlist@[j]));
                    }
                }
            }
        }
        best
    }
}

/// Whether `t` is the largest timestamp of the read list.
pub open spec fn is_max_timestamp(m: Map<u8, ReadEntry>, t: u64) -> bool {
    &&& exists|k: u8| #[trigger] m.dom().contains(k) && m[k].0 == t
    &&& forall|k: u8| #[trigger] m.dom().contains(k) ==> m[k].0 <= t
}

proof fn lemma_highest_timestamp(m: Map<u8, ReadEntry>, t: u64)
    requires
        is_max_timestamp(m, t),
    ensures
        highest(m).0 == t,
{
    let k = choose|k: u8| #[trigger] m.dom().contains(k) && m[k].0 == t;
    lemma_highest_is_maximal(m, k);
    let h = choose|h: u8| #[trigger] m.dom().contains(h) && m[h] == highest(m);
    assert(m[h].0 <= t);
}

proof fn lemma_set_insert_len(s: Set<u8>, q: u8)
    requires
        s.finite(),
    ensures
        s.insert(q).len() == if s.contains(q) {
            s.len()
        } else {
            s.len() + 1
        },
{
}

/// Whether `id` identifies the operation in progress.
fn is_current(op_id: &Option<u128>, id: u128) -> (b: bool)
    ensures
        b == (*op_id == Some(id)),
{
    match op_id {
        Some(o) => *o == id,
        None => false,
    }
}

/// A register of the (N,N)-AtomicRegister algorithm: the handlers of the
/// Read and Write events (client commands) and of the READ_PROC, VALUE,
/// WRITE_PROC and ACK messages (system commands). Each handler returns the
/// actions that the caller performs in order.
pub trait AtomicRegister {
    /// The register's invariant.
    spec fn well_formed(&self) -> bool;

    /// Whether the register can take the system command.
    spec fn accepts(&self, cmd: SystemCommandView) -> bool;

    /// Handles a client command. The operation completes, with a
    /// `Complete` action, after the register has taken several system
    /// commands.
    fn client_command(&mut self, cmd: ClientRegisterCommand) -> (actions: Vec<RegisterAction>)
        requires
            old(self).well_formed(),
        ensures
            final(self).well_formed(),
    ;

    /// Handles a system command.
    fn system_command(&mut self, cmd: SystemRegisterCommand) -> (actions: Vec<RegisterAction>)
        requires
            old(self).well_formed(),
            old(self).accepts(cmd@),
        ensures
            final(self).well_formed(),
    ;
}

impl AtomicRegister for AtomicRegisterState {
    open spec fn well_formed(&self) -> bool {
        register_well_formed(self@)
    }

    open spec fn accepts(&self, cmd: SystemCommandView) -> bool {
        accepts_system_command(self@, cmd)
    }

    /// Starts the operation under a fresh identifier: random in its high
    /// 64 bits, and numbered in its low 64 bits after every identifier the
    /// register used before, so that no message of an earlier operation is
    /// taken for one of this operation.
    fn client_command(&mut self, cmd: ClientRegisterCommand) -> (actions: Vec<RegisterAction>)
        ensures
            final(self)@.op_id is Some,
            final(self)@ == spec_client_step(old(self)@, cmd@, final(self)@.op_id->0).0,
            actions_view(actions@) == spec_client_step(old(self)@, cmd@, final(self)@.op_id->0).1,
            old(self).ids_fresh() && old(self).operations_numbered() < low_span() ==> !old(
                self,
            ).used_operations().contains(final(self)@.op_id->0),
            final(self).used_operations() == old(self).used_operations().insert(final(self)@.op_id->0),
            old(self).ids_fresh() ==> final(self).ids_fresh(),
    {
        let drawn = new_operation_id();
        let op_id = if self.next_op < 0x1_0000_0000_0000_0000 {
            let high: u128 = drawn / 0x1_0000_0000_0000_0000;
            let id: u128 = high * 0x1_0000_0000_0000_0000 + self.next_op;
            assert(id % 0x1_0000_0000_0000_0000 == self.next_op) by (nonlinear_arith)
                requires
                    id == high * 0x1_0000_0000_0000_0000 + self.next_op,
                    self.next_op < 0x1_0000_0000_0000_0000,
                    high >= 0,
            ;
            id
        } else {
            drawn
        };
        self.client_command_with_id(cmd, op_id)
    }

    fn system_command(&mut self, cmd: SystemRegisterCommand) -> (actions: Vec<RegisterAction>)
        ensures
            final(self)@ == spec_system_step(old(self)@, cmd@).0,
            actions_view(actions@) == spec_system_step(old(self)@, cmd@).1,
    {
        let header = cmd.header;
        match cmd.content {
            SystemRegisterCommandContent::ReadProc => self.handle_read_proc(header),
            SystemRegisterCommandContent::Value { timestamp, write_rank, sector_data } => {
                self.handle_value(header, timestamp, write_rank, sector_data)
            },
            SystemRegisterCommandContent::WriteProc { timestamp, write_rank, data_to_write } => {
                self.handle_write_proc(header, timestamp, write_rank, data_to_write)
            },
            SystemRegisterCommandContent::Ack => self.handle_ack(header),
        }
    }
}

/// A register just recovered from its sector.
pub open spec fn initial_register(
    self_ident: u8,
    sector_idx: SectorIdx,
    processes_count: u8,
    ts: u64,
    wr: u8,
    val: Seq<u8>,
) -> RegisterView {
    RegisterView {
        self_ident,
        sector_idx,
        processes_count,
        ts,
        wr,
        val,
        readlist: Map::empty(),
        acklist: Set::empty(),
        reading: false,
        writing: false,
        writeval: Seq::new(SECTOR_SIZE as nat, |i: int| 0u8),
        readval: Seq::new(SECTOR_SIZE as nat, |i: int| 0u8),
        write_phase: false,
        rid: None,
        op_id: None,
    }
}


// ---------------------------------------------------------------------
// Laws of the register.
// ---------------------------------------------------------------------

proof fn lemma_highest_scan(m: Map<u8, ReadEntry>, i: int, best: u8)
    requires
        0 <= i <= 256,
        m.dom().contains(best),
        forall|j: u8| #[trigger] m.dom().contains(j) && j < i ==> entry_le(m, j, best),
    ensures
        exists|k: u8| is_highest_key(m, k),
    decreases 256 - i,
{
    if i == 256 {
        assert(is_highest_key(m, best));
    } else {
        let c = i as u8;
        if m.dom().contains(c) && entry_le(m, best, c) {
            lemma_highest_scan(m, i + 1, c);
        } else {
            lemma_highest_scan(m, i + 1, best);
        }
    }
}

/// The highest entry of a read list is no lower than any of its entries.
pub proof fn lemma_highest_is_maximal(m: Map<u8, ReadEntry>, j: u8)
    requires
        m.dom().contains(j),
    ensures
        !newer(m[j].0, m[j].1, highest(m).0, highest(m).1),
        exists|k: u8| #[trigger] m.dom().contains(k) && m[k] == highest(m),
{
    lemma_highest_scan(m, 0, j);
    let k = choose|k: u8| is_highest_key(m, k);
    assert(is_highest_key(m, k));
    assert(entry_le(m, j, k));
}

/// A register's timestamp and write rank never go back: after any system
/// command that it can take, its `(timestamp, write rank)` pair is at
/// least what it was, in lexicographic order.
pub proof fn lemma_system_step_monotone(s: RegisterView, cmd: SystemCommandView)
    requires
        accepts_system_command(s, cmd),
    ensures
        !newer(s.ts, s.wr, spec_system_step(s, cmd).0.ts, spec_system_step(s, cmd).0.wr),
{
    match cmd.content {
        SystemContentView::Value { timestamp, write_rank, sector_data } => {
            let q = cmd.header.process_identifier;
            let e = (timestamp, write_rank, sector_data);
            let full = full_readlist(s, q, e);
            assert(full.dom().contains(s.self_ident));
            lemma_highest_is_maximal(full, s.self_ident);
        },
        _ => {},
    }
}

/// A client command does not touch the register's timestamp, write rank
/// or value.
pub proof fn lemma_client_step_keeps_value(s: RegisterView, cmd: ClientCommandView, op_id: u128)
    ensures
        spec_client_step(s, cmd, op_id).0.ts == s.ts,
        spec_client_step(s, cmd, op_id).0.wr == s.wr,
        spec_client_step(s, cmd, op_id).0.val == s.val,
{
}

/// Every sector that a step asks to store is the register's value,
/// timestamp and write rank after the step: what is on disk follows the
/// register.
pub proof fn lemma_stored_sector_matches_state(s: RegisterView, cmd: SystemCommandView)
    ensures
        forall|i: int|
            0 <= i < spec_system_step(s, cmd).1.len() && #[trigger] spec_system_step(s, cmd).1[i] is StoreSector
                ==> spec_system_step(s, cmd).1[i] == (RegisterActionView::StoreSector {
                data: spec_system_step(s, cmd).0.val,
                timestamp: spec_system_step(s, cmd).0.ts,
                write_rank: spec_system_step(s, cmd).0.wr,
            }),
{
}

/// A register acknowledges every `WriteProc` it takes, and once it has, it
/// holds a value at least as new as the one written.
pub proof fn lemma_write_proc_acknowledged(
    s: RegisterView,
    h: SystemCommandHeader,
    timestamp: u64,
    write_rank: u8,
    data: Seq<u8>,
)
    ensures
        ({
            let (s2, acts) = spec_write_proc_step(s, h, timestamp, write_rank, data);
            &&& !newer(timestamp, write_rank, s2.ts, s2.wr)
            &&& acts.len() > 0
            &&& acts.last() == (RegisterActionView::Send {
                cmd: SystemCommandView {
                    header: own_header(s, h.msg_ident, h.sector_idx),
                    content: SystemContentView::Ack,
                },
                target: h.process_identifier,
            })
        }),
{
}

/// Every step keeps the register's invariant.
pub proof fn lemma_steps_keep_well_formed(
    s: RegisterView,
    cmd: SystemCommandView,
    ccmd: ClientCommandView,
    op_id: u128,
)
    requires
        register_well_formed(s),
    ensures
        register_well_formed(spec_system_step(s, cmd).0),
        register_well_formed(spec_client_step(s, ccmd, op_id).0),
{
}

/// The state of a register after it took the system commands `cmds` in
/// order, from `s`.
pub open spec fn after_commands(s: RegisterView, cmds: Seq<SystemCommandView>) -> RegisterView
    decreases cmds.len(),
{
    if cmds.len() == 0 {
        s
    } else {
        spec_system_step(after_commands(s, cmds.drop_last()), cmds.last()).0
    }
}

/// The actions of the `k`-th of the system commands `cmds` taken from `s`.
pub open spec fn actions_at(s: RegisterView, cmds: Seq<SystemCommandView>, k: int) -> Seq<
    RegisterActionView,
> {
    spec_system_step(after_commands(s, cmds.take(k)), cmds[k]).1
}

/// Whether the actions complete an operation.
pub open spec fn has_completion(acts: Seq<RegisterActionView>) -> bool {
    exists|j: int| 0 <= j < acts.len() && #[trigger] acts[j] is Complete
}

/// Whether the register can take each of `cmds` in turn.
pub open spec fn accepts_all(s: RegisterView, cmds: Seq<SystemCommandView>) -> bool {
    forall|k: int|
        0 <= k < cmds.len() ==> accepts_system_command(
            #[trigger] after_commands(s, cmds.take(k)),
            cmds[k],
        )
}

proof fn lemma_after_commands_take(s: RegisterView, cmds: Seq<SystemCommandView>, k: int)
    requires
        0 <= k < cmds.len(),
    ensures
        after_commands(s, cmds.take(k + 1)) == spec_system_step(after_commands(s, cmds.take(k)), cmds[k]).0,
{
    assert(cmds.take(k + 1).drop_last() == cmds.take(k));
    assert(cmds.take(k + 1).last() == cmds[k]);
}

/// An operation completes only on an `Ack` of the operation in progress,
/// in its write phase, once more than half of the processes have
/// acknowledged; afterwards, if the register ran a single operation, none
/// is in progress. The write phase
/// is entered only on a `Value` that gives more than half of the processes'
/// values. A system command never starts an operation.
pub proof fn lemma_completion_step(s: RegisterView, cmd: SystemCommandView)
    ensures
        has_completion(spec_system_step(s, cmd).1) ==> {
            &&& cmd.content is Ack
            &&& s.write_phase
            &&& s.op_id == Some(cmd.header.msg_ident)
            &&& (s.reading || s.writing)
            &&& s.acklist.insert(cmd.header.process_identifier).len() > s.processes_count / 2
            &&& !(s.reading && s.writing) ==> !spec_system_step(s, cmd).0.reading
                && !spec_system_step(s, cmd).0.writing
        },
        !(s.reading && s.writing) ==> !(spec_system_step(s, cmd).0.reading
            && spec_system_step(s, cmd).0.writing),
        !s.write_phase && spec_system_step(s, cmd).0.write_phase ==> (cmd.content matches SystemContentView::Value {
            timestamp,
            write_rank,
            sector_data,
        } && s.op_id == Some(cmd.header.msg_ident) && completes_read_phase(
            s,
            cmd.header.process_identifier,
            (timestamp, write_rank, sector_data),
        )),
        !s.reading && !s.writing ==> !spec_system_step(s, cmd).0.reading
            && !spec_system_step(s, cmd).0.writing,
{
    if has_completion(spec_system_step(s, cmd).1) {
        let j = choose|j: int|
            0 <= j < spec_system_step(s, cmd).1.len() && #[trigger] spec_system_step(s, cmd).1[j] is Complete;
    }
}

proof fn lemma_idle_stays_idle(s: RegisterView, cmds: Seq<SystemCommandView>, k1: int, k2: int)
    requires
        0 <= k1 <= k2 <= cmds.len(),
        !after_commands(s, cmds.take(k1)).reading,
        !after_commands(s, cmds.take(k1)).writing,
    ensures
        !after_commands(s, cmds.take(k2)).reading,
        !after_commands(s, cmds.take(k2)).writing,
    decreases k2 - k1,
{
    if k1 < k2 {
        lemma_after_commands_take(s, cmds, k1);
        lemma_completion_step(after_commands(s, cmds.take(k1)), cmds[k1]);
        lemma_idle_stays_idle(s, cmds, k1 + 1, k2);
    }
}

proof fn lemma_single_operation_kept(s: RegisterView, cmds: Seq<SystemCommandView>, k: int)
    requires
        0 <= k <= cmds.len(),
        !(s.reading && s.writing),
    ensures
        !(after_commands(s, cmds.take(k)).reading && after_commands(s, cmds.take(k)).writing),
    decreases k,
{
    if k == 0 {
        assert(cmds.take(0) == Seq::<SystemCommandView>::empty());
    } else {
        lemma_single_operation_kept(s, cmds, k - 1);
        lemma_after_commands_take(s, cmds, k - 1);
        lemma_completion_step(after_commands(s, cmds.take(k - 1)), cmds[k - 1]);
    }
}

/// Between two client commands an operation completes at most once: of
/// the system commands that a register running one operation (a read or a
/// write) takes, at most one yields a `Complete`.
pub proof fn lemma_one_completion_per_operation(
    s: RegisterView,
    cmds: Seq<SystemCommandView>,
    k1: int,
    k2: int,
)
    requires
        !(s.reading && s.writing),
        0 <= k1 < cmds.len(),
        0 <= k2 < cmds.len(),
        has_completion(actions_at(s, cmds, k1)),
        has_completion(actions_at(s, cmds, k2)),
    ensures
        k1 == k2,
{
    if k1 != k2 {
        let (a, b) = if k1 < k2 {
            (k1, k2)
        } else {
            (k2, k1)
        };
        lemma_single_operation_kept(s, cmds, a);
        lemma_completion_step(after_commands(s, cmds.take(a)), cmds[a]);
        lemma_completion_step(after_commands(s, cmds.take(b)), cmds[b]);
        lemma_after_commands_take(s, cmds, a);
        lemma_idle_stays_idle(s, cmds, a + 1, b);
    }
}

/// An operation that completes on one of the system commands a register
/// takes was in its write phase already, or entered it on an earlier
/// `Value` that gave more than half of the processes' values.
pub proof fn lemma_completion_follows_read_phase(s: RegisterView, cmds: Seq<SystemCommandView>, k: int)
    requires
        0 <= k < cmds.len(),
        has_completion(actions_at(s, cmds, k)),
    ensures
        s.write_phase || exists|i: int|
            0 <= i < k && {
                let before = #[trigger] after_commands(s, cmds.take(i));
                &&& !before.write_phase
                &&& cmds[i].content matches SystemContentView::Value { timestamp, write_rank, sector_data }
                &&& before.op_id == Some(cmds[i].header.msg_ident)
                &&& completes_read_phase(
                    before,
                    cmds[i].header.process_identifier,
                    (timestamp, write_rank, sector_data),
                )
            },
{
    lemma_completion_step(after_commands(s, cmds.take(k)), cmds[k]);
    lemma_write_phase_origin(s, cmds, k);
}

proof fn lemma_write_phase_origin(s: RegisterView, cmds: Seq<SystemCommandView>, k: int)
    requires
        0 <= k <= cmds.len(),
        after_commands(s, cmds.take(k)).write_phase,
    ensures
        s.write_phase || exists|i: int|
            0 <= i < k && {
                let before = #[trigger] after_commands(s, cmds.take(i));
                &&& !before.write_phase
                &&& cmds[i].content matches SystemContentView::Value { timestamp, write_rank, sector_data }
                &&& before.op_id == Some(cmds[i].header.msg_ident)
                &&& completes_read_phase(
                    before,
                    cmds[i].header.process_identifier,
                    (timestamp, write_rank, sector_data),
                )
            },
    decreases k,
{
    if k == 0 {
        assert(cmds.take(0) == Seq::<SystemCommandView>::empty());
    } else {
        lemma_after_commands_take(s, cmds, k - 1);
        let before = after_commands(s, cmds.take(k - 1));
        lemma_completion_step(before, cmds[k - 1]);
        if before.write_phase {
            lemma_write_phase_origin(s, cmds, k - 1);
        }
    }
}

/// Over any system commands that a register can take in turn, its
/// timestamp and write rank never go back.
pub proof fn lemma_commands_monotone(s: RegisterView, cmds: Seq<SystemCommandView>, k1: int, k2: int)
    requires
        accepts_all(s, cmds),
        0 <= k1 <= k2 <= cmds.len(),
    ensures
        !newer(
            after_commands(s, cmds.take(k1)).ts,
            after_commands(s, cmds.take(k1)).wr,
            after_commands(s, cmds.take(k2)).ts,
            after_commands(s, cmds.take(k2)).wr,
        ),
    decreases k2 - k1,
{
    if k1 < k2 {
        let mid = after_commands(s, cmds.take(k2 - 1));
        lemma_commands_monotone(s, cmds, k1, k2 - 1);
        lemma_after_commands_take(s, cmds, k2 - 1);
        lemma_system_step_monotone(mid, cmds[k2 - 1]);
    }
}

/// A step that changes the register's timestamp, write rank or value
/// stores them first: its first action stores the new value, timestamp and
/// write rank, before any message is sent.
pub proof fn lemma_change_is_stored_first(s: RegisterView, cmd: SystemCommandView)
    ensures
        ({
            let (s2, acts) = spec_system_step(s, cmd);
            (s2.ts, s2.wr, s2.val) != (s.ts, s.wr, s.val) ==> acts.len() > 0 && acts[0] == (
            RegisterActionView::StoreSector { data: s2.val, timestamp: s2.ts, write_rank: s2.wr })
        }),
{
}

} // verus!

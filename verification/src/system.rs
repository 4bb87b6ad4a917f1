//! The registers of one sector on all processes, together with the messages
//! among them, as one transition system. A message, once sent, may be
//! delivered at any later time, in any order and any number of times; a
//! process starts a client operation only when its previous one on the
//! sector has completed. Processes do not crash here, though one that never
//! receives its messages behaves as one that has. Over this system the
//! module proves what the register is for: an operation that starts after
//! another has completed propagates a timestamp and write rank at least as
//! new, a read returns the value that goes with them, every operation
//! completes at most once, and a majority of the processes that includes
//! the one running an operation can complete it on its own.
use crate::atomic_register::{
    accepts_system_command, completes_read_phase, full_readlist, highest, initial_register,
    lemma_client_step_keeps_value, lemma_highest_is_maximal, lemma_system_step_monotone,
    lemma_write_proc_acknowledged, newer, spec_ack_step, spec_client_step, spec_system_step,
    spec_value_step, spec_write_proc_step, ReadEntry,
    RegisterActionView, RegisterView,
};
use crate::domain::{
    ClientCommandView, ClientContentView, OperationReturnView, OperationSuccessView, SectorIdx,
    SystemCommandHeader, SystemCommandView, SystemContentView,
};
use vstd::prelude::*;

verus! {

/// A system command on its way to the process `dest`.
pub struct Message {
    pub dest: u8,
    pub cmd: SystemCommandView,
}

/// The registers of one sector on processes `1..=n`, the messages sent
/// among them, and the history of the operations:
/// `started[o]` holds the operations that had completed when `o` started,
/// `written[o]` what the `WriteProc` of `o` carries (timestamp, write rank,
/// value), and `acked[o]`, once `o` has completed, the processes whose
/// acknowledgements completed it; `values` gives, for every timestamp and
/// write rank that occurs, the one value that goes with them; `requests[o]`
/// is what the client asked of `o`; `recovered` holds the values that the
/// registers held when they were recovered, under their timestamps and
/// write ranks, and `floor` is a timestamp and write rank that every
/// register held or passed then.
#[verifier::ext_equal]
pub struct SystemView {
    pub n: u8,
    pub regs: Map<u8, RegisterView>,
    pub net: Set<Message>,
    pub started: Map<u128, Set<u128>>,
    pub written: Map<u128, ReadEntry>,
    pub acked: Map<u128, Set<u8>>,
    pub values: Map<(u64, u8), Seq<u8>>,
    pub requests: Map<u128, ClientContentView>,
    pub recovered: Map<(u64, u8), Seq<u8>>,
    pub floor: (u64, u8),
}

/// The processes `1..=n`.
pub open spec fn procs(n: u8) -> Set<u8> {
    Set::new(|k: u8| 1 <= k && k <= n)
}

/// Whether `(t1, r1)` comes no later than `(t2, r2)` in lexicographic order.
pub open spec fn pair_le(t1: u64, r1: u8, t2: u64, r2: u8) -> bool {
    !newer(t1, r1, t2, r2)
}

/// Whether the register has a client operation in progress.
pub open spec fn in_progress(r: RegisterView) -> bool {
    r.reading || r.writing
}

/// Whether the action sends the message `m`.
pub open spec fn emits(n: u8, a: RegisterActionView, m: Message) -> bool {
    match a {
        RegisterActionView::Send { cmd, target } => m.dest == target && m.cmd == cmd,
        RegisterActionView::Broadcast { cmd } => m.cmd == cmd && procs(n).contains(m.dest),
        _ => false,
    }
}

/// The messages that a sequence of actions sends.
pub open spec fn sent(n: u8, acts: Seq<RegisterActionView>) -> Set<Message> {
    Set::new(|m: Message| exists|i: int| 0 <= i < acts.len() && #[trigger] emits(n, acts[i], m))
}

/// What the `WriteProc` broadcast that ends a sequence of actions carries.
pub open spec fn proposal(acts: Seq<RegisterActionView>) -> ReadEntry {
    match acts.last() {
        RegisterActionView::Broadcast { cmd } => match cmd.content {
            SystemContentView::WriteProc { timestamp, write_rank, data_to_write } => (
                timestamp,
                write_rank,
                data_to_write,
            ),
            _ => arbitrary(),
        },
        _ => arbitrary(),
    }
}

/// Whether no timestamp that `values` holds under the write rank of a
/// process is beyond the timestamp of that process.
pub open spec fn ranks_bounded(s: SystemView) -> bool {
    forall|x: u64, q: u8|
        #[trigger] s.values.contains_key((x, q)) && procs(s.n).contains(q) ==> x <= s.regs[q].ts
}

/// A system whose registers have just been recovered: no operation and
/// no message yet; registers that hold the same timestamp and write rank
/// hold the same value, and none holds a write rank of a process with a
/// timestamp beyond that process's own.
pub open spec fn is_initial(s: SystemView) -> bool {
    &&& forall|p: u8|
        procs(s.n).contains(p) ==> {
            let r = #[trigger] s.regs[p];
            &&& r.self_ident == p
            &&& r.processes_count == s.n
            &&& !r.reading
            &&& !r.writing
            &&& !r.write_phase
            &&& r.op_id is None
            &&& s.values.contains_key((r.ts, r.wr))
            &&& s.values[(r.ts, r.wr)] == r.val
            &&& pair_le(s.floor.0, s.floor.1, r.ts, r.wr)
        }
    &&& s.values == s.recovered
    &&& ranks_bounded(s)
    &&& s.net == Set::<Message>::empty()
    &&& s.started == Map::<u128, Set<u128>>::empty()
    &&& s.written == Map::<u128, ReadEntry>::empty()
    &&& s.acked == Map::<u128, Set<u8>>::empty()
    &&& s.requests == Map::<u128, ClientContentView>::empty()
}

/// Whether process `p` can start a client operation under the fresh
/// identifier `op`.
pub open spec fn can_start(s: SystemView, p: u8, op: u128) -> bool {
    &&& procs(s.n).contains(p)
    &&& !s.started.contains_key(op)
    &&& !in_progress(s.regs[p])
}

/// Process `p` takes the client command `cmd` and starts operation `op`.
pub open spec fn client_start(s: SystemView, p: u8, cmd: ClientCommandView, op: u128) -> SystemView {
    let step = spec_client_step(s.regs[p], cmd, op);
    SystemView {
        regs: s.regs.insert(p, step.0),
        net: s.net.union(sent(s.n, step.1)),
        started: s.started.insert(op, s.acked.dom()),
        requests: s.requests.insert(op, cmd.content),
        ..s
    }
}

/// Whether the message `m` can be delivered.
pub open spec fn can_deliver(s: SystemView, m: Message) -> bool {
    &&& s.net.contains(m)
    &&& procs(s.n).contains(m.dest)
    &&& accepts_system_command(s.regs[m.dest], m.cmd)
}

/// Process `m.dest` takes the message `m`.
pub open spec fn deliver(s: SystemView, m: Message) -> SystemView {
    let r = s.regs[m.dest];
    let step = spec_system_step(r, m.cmd);
    let o = r.op_id->0;
    SystemView {
        regs: s.regs.insert(m.dest, step.0),
        net: s.net.union(sent(s.n, step.1)),
        written: if !r.write_phase && step.0.write_phase {
            s.written.insert(o, proposal(step.1))
        } else {
            s.written
        },
        acked: if r.write_phase && !step.0.write_phase {
            s.acked.insert(o, r.acklist.insert(m.cmd.header.process_identifier))
        } else {
            s.acked
        },
        values: if !r.write_phase && step.0.write_phase {
            let e = proposal(step.1);
            s.values.insert((e.0, e.1), e.2)
        } else {
            s.values
        },
        ..s
    }
}

/// One step of the system.
pub open spec fn next(s: SystemView, s2: SystemView) -> bool {
    ||| exists|p: u8, cmd: ClientCommandView, op: u128|
        can_start(s, p, op) && s2 == #[trigger] client_start(s, p, cmd, op)
    ||| exists|m: Message| can_deliver(s, m) && s2 == #[trigger] deliver(s, m)
}

/// Whether delivering `m` completes the operation in progress at `m.dest`.
pub open spec fn completes(s: SystemView, m: Message) -> bool {
    let acts = spec_system_step(s.regs[m.dest], m.cmd).1;
    exists|j: int| 0 <= j < acts.len() && #[trigger] acts[j] is Complete
}

/// A run of the system from a just recovered state.
pub open spec fn is_run(run: Seq<SystemView>) -> bool {
    &&& run.len() > 0
    &&& is_initial(run[0])
    &&& forall|i: int| 0 <= i < run.len() - 1 ==> #[trigger] next(run[i], run[i + 1])
}

// ---------------------------------------------------------------------
// The invariant of the system.
// ---------------------------------------------------------------------

/// Whether process `k` holds a timestamp and write rank at least those of `e`.
spec fn holds(s: SystemView, k: u8, e: ReadEntry) -> bool {
    pair_le(e.0, e.1, s.regs[k].ts, s.regs[k].wr)
}

/// Whether `d` is the value that goes with `(t, w)`.
spec fn consistent(s: SystemView, t: u64, w: u8, d: Seq<u8>) -> bool {
    s.values.contains_key((t, w)) && s.values[(t, w)] == d
}

/// Whether `(t, w)`, reported by `k`, is at least what the completed
/// operation `c` wrote, when `k` acknowledged `c`.
spec fn covers(s: SystemView, c: u128, k: u8, t: u64, w: u8) -> bool {
    s.acked[c].contains(k) ==> pair_le(s.written[c].0, s.written[c].1, t, w)
}

/// The message that a process sends every process: `cmd`, under the header
/// of the operation `o` of process `p` for sector `sidx`.
pub open spec fn sent_to(p: u8, o: u128, sidx: SectorIdx, content: SystemContentView, k: u8) -> Message {
    Message {
        dest: k,
        cmd: SystemCommandView {
            header: SystemCommandHeader { process_identifier: p, msg_ident: o, sector_idx: sidx },
            content,
        },
    }
}

/// Whether the register's operation sent `content`, for sector `sidx`,
/// to every process.
spec fn sent_for(s: SystemView, r: RegisterView, content: SystemContentView, sidx: SectorIdx) -> bool {
    forall|k: u8|
        #[trigger] procs(s.n).contains(k) ==> s.net.contains(
            sent_to(r.self_ident, r.op_id->0, sidx, content, k),
        )
}

/// Whether the register's operation sent `content` to every process.
spec fn sent_to_all(s: SystemView, r: RegisterView, content: SystemContentView) -> bool {
    exists|sidx: SectorIdx| #[trigger] sent_for(s, r, content, sidx)
}

/// The `WriteProc` of the operation `o`.
spec fn write_proc_of(s: SystemView, o: u128) -> SystemContentView {
    SystemContentView::WriteProc {
        timestamp: s.written[o].0,
        write_rank: s.written[o].1,
        data_to_write: s.written[o].2,
    }
}

spec fn read_phase_inv(s: SystemView, r: RegisterView) -> bool {
    let o = r.op_id->0;
    &&& !s.written.contains_key(o)
    &&& r.readlist.dom().subset_of(procs(s.n))
    &&& r.readlist.len() <= s.n / 2
    &&& sent_to_all(s, r, SystemContentView::ReadProc)
    &&& forall|k: u8| #[trigger]
        r.readlist.dom().contains(k) ==> consistent(
            s,
            r.readlist[k].0,
            r.readlist[k].1,
            r.readlist[k].2,
        )
    &&& forall|k: u8, c: u128|
        #![trigger r.readlist.dom().contains(k), s.started[o].contains(c)]
        r.readlist.dom().contains(k) && s.started[o].contains(c) ==> covers(
            s,
            c,
            k,
            r.readlist[k].0,
            r.readlist[k].1,
        )
}

spec fn write_phase_inv(s: SystemView, r: RegisterView) -> bool {
    let o = r.op_id->0;
    &&& s.written.contains_key(o)
    &&& r.acklist.subset_of(procs(s.n))
    &&& r.acklist.len() <= s.n / 2
    &&& sent_to_all(s, r, write_proc_of(s, o))
    &&& forall|k: u8| #[trigger] r.acklist.contains(k) ==> holds(s, k, s.written[o])
    &&& r.reading ==> r.readval == s.written[o].2
}

spec fn reg_inv(s: SystemView, p: u8) -> bool {
    let r = s.regs[p];
    &&& r.self_ident == p
    &&& r.processes_count == s.n
    &&& consistent(s, r.ts, r.wr, r.val)
    &&& pair_le(s.floor.0, s.floor.1, r.ts, r.wr)
    &&& r.write_phase ==> in_progress(r)
    &&& !(r.reading && r.writing)
    &&& r.op_id is None ==> !in_progress(r)
    &&& r.op_id is Some ==> s.started.contains_key(r.op_id->0)
    &&& r.op_id is Some && !in_progress(r) ==> s.acked.contains_key(r.op_id->0)
    &&& in_progress(r) ==> !s.acked.contains_key(r.op_id->0)
    &&& in_progress(r) ==> s.requests.contains_key(r.op_id->0)
    &&& r.reading ==> s.requests[r.op_id->0] == ClientContentView::Read
    &&& r.writing ==> s.requests[r.op_id->0] == (ClientContentView::Write { data: r.writeval })
    &&& in_progress(r) && !r.write_phase ==> read_phase_inv(s, r)
    &&& in_progress(r) && r.write_phase ==> write_phase_inv(s, r)
}

spec fn unique_ops(s: SystemView) -> bool {
    forall|p1: u8, p2: u8|
        #![trigger s.regs[p1], s.regs[p2]]
        procs(s.n).contains(p1) && procs(s.n).contains(p2) && in_progress(s.regs[p1])
            && s.regs[p1].op_id == s.regs[p2].op_id ==> p1 == p2
}

spec fn history_inv(s: SystemView) -> bool {
    &&& forall|o: u128| #[trigger]
        s.started.contains_key(o) ==> s.started[o].subset_of(s.acked.dom())
    &&& forall|c: u128| #[trigger] s.acked.contains_key(c) ==> s.written.contains_key(c)
    &&& forall|c: u128| #[trigger] s.written.contains_key(c) ==> s.started.contains_key(c)
    &&& forall|c: u128| #[trigger] s.requests.contains_key(c) ==> s.started.contains_key(c)
}

spec fn quorum_inv(s: SystemView, c: u128) -> bool {
    &&& s.acked[c].subset_of(procs(s.n))
    &&& s.acked[c].len() > s.n / 2
    &&& forall|k: u8| #[trigger] s.acked[c].contains(k) ==> holds(s, k, s.written[c])
}

spec fn msg_inv(s: SystemView, m: Message) -> bool {
    let o = m.cmd.header.msg_ident;
    let q = m.cmd.header.process_identifier;
    &&& procs(s.n).contains(q)
    &&& match m.cmd.content {
        SystemContentView::ReadProc => s.started.contains_key(o),
        SystemContentView::Value { timestamp, write_rank, sector_data } => {
            &&& consistent(s, timestamp, write_rank, sector_data)
            &&& s.started.contains_key(o)
            &&& forall|c: u128| #[trigger]
                s.started[o].contains(c) ==> covers(s, c, q, timestamp, write_rank)
        },
        SystemContentView::WriteProc { timestamp, write_rank, data_to_write } => {
            &&& s.written.contains_key(o)
            &&& s.written[o] == (timestamp, write_rank, data_to_write)
            &&& consistent(s, timestamp, write_rank, data_to_write)
        },
        SystemContentView::Ack => {
            &&& s.written.contains_key(o)
            &&& holds(s, q, s.written[o])
        },
    }
}

spec fn law_inv(s: SystemView, o: u128) -> bool {
    &&& consistent(s, s.written[o].0, s.written[o].1, s.written[o].2)
    &&& s.requests.contains_key(o)
    &&& (s.requests[o] matches ClientContentView::Write { data } ==> s.written[o].2 == data)
    &&& s.requests[o] is Write ==> newer(s.written[o].0, s.written[o].1, s.floor.0, s.floor.1)
    &&& forall|c: u128| #[trigger]
        s.started[o].contains(c) ==> pair_le(
            s.written[c].0,
            s.written[c].1,
            s.written[o].0,
            s.written[o].1,
        )
}

/// Whether the timestamp and write rank `pair` is one a write wrote.
spec fn written_by_a_write(s: SystemView, pair: (u64, u8)) -> bool {
    exists|w: u128|
        #[trigger] s.written.contains_key(w) && s.requests[w] is Write && (s.written[w].0, s.written[w].1)
            == pair
}

/// Every timestamp and write rank that occurs was recovered, with its
/// value, or was written by a write.
spec fn origin_inv(s: SystemView) -> bool {
    forall|pair: (u64, u8)| #[trigger]
        s.values.contains_key(pair) ==> (s.recovered.contains_key(pair) && s.recovered[pair]
            == s.values[pair]) || written_by_a_write(s, pair)
}

spec fn inv(s: SystemView) -> bool {
    &&& forall|p: u8| procs(s.n).contains(p) ==> #[trigger] reg_inv(s, p)
    &&& unique_ops(s)
    &&& history_inv(s)
    &&& forall|c: u128| s.acked.contains_key(c) ==> #[trigger] quorum_inv(s, c)
    &&& forall|m: Message| s.net.contains(m) ==> #[trigger] msg_inv(s, m)
    &&& forall|o: u128| s.written.contains_key(o) ==> #[trigger] law_inv(s, o)
    &&& ranks_bounded(s)
    &&& origin_inv(s)
}


/// The processes `1..=n` are `n` many.
proof fn lemma_procs_len(n: u8)
    ensures
        procs(n).finite(),
        procs(n).len() == n,
    decreases n,
{
    if n == 0 {
        assert(procs(n) =~= Set::<u8>::empty());
    } else {
        let m = (n - 1) as u8;
        lemma_procs_len(m);
        assert(procs(n) =~= procs(m).insert(n));
    }
}

/// Two majorities of the processes `1..=n` share a process.
proof fn lemma_majorities_meet(n: u8, a: Set<u8>, b: Set<u8>) -> (k: u8)
    requires
        a.subset_of(procs(n)),
        b.subset_of(procs(n)),
        a.len() > n / 2,
        b.len() > n / 2,
    ensures
        a.contains(k),
        b.contains(k),
{
    lemma_procs_len(n);
    vstd::set_lib::lemma_len_subset(a, procs(n));
    vstd::set_lib::lemma_len_subset(b, procs(n));
    vstd::set_lib::lemma_len_subset(a + b, procs(n));
    vstd::set_lib::lemma_set_intersect_union_lens(a, b);
    let both = a.intersect(b);
    assert(both.len() > 0);
    if both =~= Set::<u8>::empty() {
        assert(both.len() == 0);
    }
    let k = choose|k: u8| both.contains(k);
    k
}

spec fn grows(r: RegisterView, r2: RegisterView) -> bool {
    &&& r2.self_ident == r.self_ident
    &&& r2.processes_count == r.processes_count
    &&& pair_le(r.ts, r.wr, r2.ts, r2.wr)
}

/// `s2` keeps what `s` has and only adds to it; registers only move to
/// newer timestamps and write ranks.
spec fn extends(s: SystemView, s2: SystemView) -> bool {
    &&& s2.n == s.n
    &&& forall|p: u8| procs(s.n).contains(p) ==> #[trigger] grows(s.regs[p], s2.regs[p])
    &&& s.net.subset_of(s2.net)
    &&& keeps(s.started, s2.started)
    &&& keeps(s.written, s2.written)
    &&& keeps(s.acked, s2.acked)
    &&& keeps(s.values, s2.values)
    &&& keeps(s.requests, s2.requests)
    &&& s2.recovered == s.recovered
    &&& s2.floor == s.floor
}

/// Every entry of `m1` is in `m2`.
spec fn keeps<K, V>(m1: Map<K, V>, m2: Map<K, V>) -> bool {
    forall|k: K| #[trigger] m1.dom().contains(k) ==> m2.dom().contains(k) && m2[k] == m1[k]
}

/// What the invariant says of messages, completed operations and written
/// values survives any step that only adds to the system.
proof fn lemma_extends_keeps(s: SystemView, s2: SystemView)
    requires
        inv(s),
        extends(s, s2),
    ensures
        forall|m: Message| s.net.contains(m) ==> #[trigger] msg_inv(s2, m),
        forall|c: u128| s.acked.contains_key(c) ==> #[trigger] quorum_inv(s2, c),
        forall|o: u128| s.written.contains_key(o) ==> #[trigger] law_inv(s2, o),
{
    assert forall|m: Message| s.net.contains(m) implies #[trigger] msg_inv(s2, m) by {
        assert(msg_inv(s, m));
        let o = m.cmd.header.msg_ident;
        let q = m.cmd.header.process_identifier;
        assert(grows(s.regs[q], s2.regs[q]));
        match m.cmd.content {
            SystemContentView::Value { timestamp, write_rank, sector_data } => {
                assert(s.values.dom().contains((timestamp, write_rank)));
                assert(s.started.dom().contains(o));
                assert(s2.started[o] == s.started[o]);
                assert forall|c: u128| #[trigger] s2.started[o].contains(c) implies covers(
                    s2,
                    c,
                    q,
                    timestamp,
                    write_rank,
                ) by {
                    assert(s.started[o].contains(c));
                    assert(covers(s, c, q, timestamp, write_rank));
                    assert(s.acked.contains_key(c));
                }
            },
            SystemContentView::WriteProc { timestamp, write_rank, data_to_write } => {
                assert(s.values.dom().contains((timestamp, write_rank)));
            },
            _ => {},
        }
    }
    assert forall|c: u128| s.acked.contains_key(c) implies #[trigger] quorum_inv(s2, c) by {
        assert(quorum_inv(s, c));
        assert forall|k: u8| #[trigger] s2.acked[c].contains(k) implies holds(s2, k, s2.written[c]) by {
            assert(s.acked[c].contains(k));
            assert(holds(s, k, s.written[c]));
            assert(grows(s.regs[k], s2.regs[k]));
        }
    }
    assert forall|o: u128| s.written.contains_key(o) implies #[trigger] law_inv(s2, o) by {
        assert(law_inv(s, o));
        assert(s.written.dom().contains(o));
        assert(s.values.dom().contains((s.written[o].0, s.written[o].1)));
        assert(s.requests.dom().contains(o));
        assert(s.started.dom().contains(o));
        assert(s2.started[o] == s.started[o]);
        assert forall|c: u128| #[trigger] s2.started[o].contains(c) implies pair_le(
            s2.written[c].0,
            s2.written[c].1,
            s2.written[o].0,
            s2.written[o].1,
        ) by {
            assert(s.started[o].contains(c));
            assert(s.acked.contains_key(c));
        }
    }
}

/// What an operation sent stays sent.
proof fn lemma_sent_kept(
    s: SystemView,
    s2: SystemView,
    r: RegisterView,
    r2: RegisterView,
    content: SystemContentView,
)
    requires
        sent_to_all(s, r, content),
        s.net.subset_of(s2.net),
        s2.n == s.n,
        r2.self_ident == r.self_ident,
        r2.op_id == r.op_id,
    ensures
        sent_to_all(s2, r2, content),
{
    let sidx = choose|sidx: SectorIdx| #[trigger] sent_for(s, r, content, sidx);
    assert forall|k: u8| #[trigger] procs(s2.n).contains(k) implies s2.net.contains(
        sent_to(r2.self_ident, r2.op_id->0, sidx, content, k),
    ) by {
        assert(s.net.contains(sent_to(r.self_ident, r.op_id->0, sidx, content, k)));
    }
    assert(sent_for(s2, r2, content, sidx));
}

/// A broadcast that a step makes reaches the network for every process.
proof fn lemma_broadcast_sent(s: SystemView, s2: SystemView, r2: RegisterView, acts: Seq<RegisterActionView>, j: int, sidx: SectorIdx, content: SystemContentView)
    requires
        0 <= j < acts.len(),
        acts[j] == (RegisterActionView::Broadcast {
            cmd: SystemCommandView {
                header: SystemCommandHeader {
                    process_identifier: r2.self_ident,
                    msg_ident: r2.op_id->0,
                    sector_idx: sidx,
                },
                content,
            },
        }),
        sent(s.n, acts).subset_of(s2.net),
        s2.n == s.n,
    ensures
        sent_to_all(s2, r2, content),
{
    assert forall|k: u8| #[trigger] procs(s2.n).contains(k) implies s2.net.contains(
        sent_to(r2.self_ident, r2.op_id->0, sidx, content, k),
    ) by {
        assert(emits(s.n, acts[j], sent_to(r2.self_ident, r2.op_id->0, sidx, content, k)));
        assert(sent(s.n, acts).contains(sent_to(r2.self_ident, r2.op_id->0, sidx, content, k)));
    }
    assert(sent_for(s2, r2, content, sidx));
}

/// `r2` is `r` but for its timestamp, write rank and value.
spec fn same_but_value(r: RegisterView, r2: RegisterView) -> bool {
    r2 == RegisterView { ts: r2.ts, wr: r2.wr, val: r2.val, ..r }
}

/// With no new timestamp and write rank, the bound on ranks stays.
proof fn lemma_ranks_kept(s: SystemView, s2: SystemView)
    requires
        inv(s),
        extends(s, s2),
        s2.values == s.values,
    ensures
        ranks_bounded(s2),
        origin_inv(s2),
{
    assert forall|pair: (u64, u8)| #[trigger] s2.values.contains_key(pair) implies (s2.recovered.contains_key(
        pair,
    ) && s2.recovered[pair] == s2.values[pair]) || written_by_a_write(s2, pair) by {
        if written_by_a_write(s, pair) {
            let w = choose|w: u128|
                #[trigger] s.written.contains_key(w) && s.requests[w] is Write && (
                s.written[w].0,
                s.written[w].1,
            ) == pair;
            assert(law_inv(s, w));
            assert(s.requests.dom().contains(w));
            assert(s.written.dom().contains(w));
            assert(s2.written.contains_key(w));
        }
    }
    assert forall|x: u64, q: u8|
        #[trigger] s2.values.contains_key((x, q)) && procs(s2.n).contains(q) implies x
        <= s2.regs[q].ts by {
        assert(s.values.contains_key((x, q)));
        assert(grows(s.regs[q], s2.regs[q]));
    }
}

/// A register that a step leaves alone, but for its value, keeps its invariant, as long as its
/// operation in progress has not been marked completed or written.
proof fn lemma_untouched_register(s: SystemView, s2: SystemView, k: u8)
    requires
        inv(s),
        extends(s, s2),
        procs(s.n).contains(k),
        same_but_value(s.regs[k], s2.regs[k]),
        consistent(s2, s2.regs[k].ts, s2.regs[k].wr, s2.regs[k].val),
        in_progress(s.regs[k]) ==> !s2.acked.contains_key(s.regs[k].op_id->0),
        in_progress(s.regs[k]) && !s.regs[k].write_phase ==> !s2.written.contains_key(
            s.regs[k].op_id->0,
        ),
    ensures
        reg_inv(s2, k),
{
    let r = s.regs[k];
    let o = r.op_id->0;
    assert(reg_inv(s, k));
    assert(grows(s.regs[k], s2.regs[k]));
    if in_progress(r) && !r.write_phase {
        assert(read_phase_inv(s, r));
        assert forall|j: u8, c: u128|
            #![trigger r.readlist.dom().contains(j), s2.started[o].contains(c)]
            r.readlist.dom().contains(j) && s2.started[o].contains(c) implies covers(
            s2,
            c,
            j,
            r.readlist[j].0,
            r.readlist[j].1,
        ) by {
            assert(s.started.dom().contains(o));
            assert(s2.started[o] == s.started[o]);
            assert(s.started[o].contains(c));
            assert(covers(s, c, j, r.readlist[j].0, r.readlist[j].1));
            assert(s.acked.contains_key(c));
        }
        assert forall|j: u8| #[trigger] r.readlist.dom().contains(j) implies consistent(
            s2,
            r.readlist[j].0,
            r.readlist[j].1,
            r.readlist[j].2,
        ) by {
            assert(consistent(s, r.readlist[j].0, r.readlist[j].1, r.readlist[j].2));
            assert(s.values.dom().contains((r.readlist[j].0, r.readlist[j].1)));
        }
        lemma_sent_kept(s, s2, r, r, SystemContentView::ReadProc);
        lemma_sent_kept(s, s2, r, s2.regs[k], SystemContentView::ReadProc);
        assert(read_phase_inv(s2, r));
        assert(read_phase_inv(s2, s2.regs[k]));
    }
    if in_progress(r) && r.write_phase {
        assert(write_phase_inv(s, r));
        assert(s.written.dom().contains(o));
        assert(s2.written[o] == s.written[o]);
        assert forall|j: u8| #[trigger] r.acklist.contains(j) implies holds(s2, j, s2.written[o]) by {
            assert(holds(s, j, s.written[o]));
            assert(grows(s.regs[j], s2.regs[j]));
        }
        assert(write_proc_of(s2, o) == write_proc_of(s, o));
        lemma_sent_kept(s, s2, r, r, write_proc_of(s, o));
        lemma_sent_kept(s, s2, r, s2.regs[k], write_proc_of(s, o));
        assert(write_phase_inv(s2, r));
        assert(write_phase_inv(s2, s2.regs[k]));
    }
}

/// Starting a client operation keeps the invariant.
proof fn lemma_client_start_inv(s: SystemView, p: u8, cmd: ClientCommandView, op: u128)
    requires
        inv(s),
        can_start(s, p, op),
    ensures
        inv(client_start(s, p, cmd, op)),
        extends(s, client_start(s, p, cmd, op)),
{
    let s2 = client_start(s, p, cmd, op);
    let r = s.regs[p];
    let step = spec_client_step(r, cmd, op);
    let r2 = step.0;
    assert(reg_inv(s, p));
    lemma_client_step_keeps_value(r, cmd, op);
    if s.acked.contains_key(op) {
        assert(s.written.contains_key(op));
    }
    if s.written.contains_key(op) {
        assert(s.started.contains_key(op));
    }
    if s.requests.contains_key(op) {
        assert(s.started.contains_key(op));
    }
    assert forall|k: u8| procs(s.n).contains(k) implies #[trigger] grows(s.regs[k], s2.regs[k]) by {
        assert(reg_inv(s, k));
    }
    assert(extends(s, s2));
    lemma_extends_keeps(s, s2);
    assert forall|k: u8| procs(s2.n).contains(k) implies #[trigger] reg_inv(s2, k) by {
        if k == p {
            assert(r2.readlist.dom() =~= Set::<u8>::empty());
            lemma_broadcast_sent(s, s2, r2, step.1, 0, cmd.sector_idx, SystemContentView::ReadProc);
            assert(read_phase_inv(s2, r2));
        } else {
            assert(reg_inv(s, k));
            lemma_untouched_register(s, s2, k);
        }
    }
    assert forall|p1: u8, p2: u8|
        #![trigger s2.regs[p1], s2.regs[p2]]
        procs(s2.n).contains(p1) && procs(s2.n).contains(p2) && in_progress(s2.regs[p1])
            && s2.regs[p1].op_id == s2.regs[p2].op_id implies p1 == p2 by {
        assert(reg_inv(s, p1));
        assert(reg_inv(s, p2));
        if p1 != p && p2 != p {
            assert(s.regs[p1] == s2.regs[p1] && s.regs[p2] == s2.regs[p2]);
        }
    }
    assert forall|m: Message| s2.net.contains(m) implies #[trigger] msg_inv(s2, m) by {
        if !s.net.contains(m) {
            assert(sent(s.n, step.1).contains(m));
            let i = choose|i: int| 0 <= i < step.1.len() && #[trigger] emits(s.n, step.1[i], m);
            assert(i == 0);
        }
    }
}

/// A step that changes only the register of `p`, keeps its operation and
/// whether it is in progress, leaves the history as it is and sends only
/// messages that keep the invariant, keeps the invariant.
proof fn lemma_frame(s: SystemView, s2: SystemView, p: u8)
    requires
        inv(s),
        extends(s, s2),
        procs(s.n).contains(p),
        s2.started == s.started,
        s2.written == s.written,
        s2.acked == s.acked,
        s2.values == s.values,
        s2.requests == s.requests,
        forall|k: u8| k != p ==> s2.regs[k] == s.regs[k],
        reg_inv(s2, p),
        s2.regs[p].op_id == s.regs[p].op_id,
        in_progress(s2.regs[p]) == in_progress(s.regs[p]),
        forall|m: Message| s2.net.contains(m) && !s.net.contains(m) ==> msg_inv(s2, m),
    ensures
        inv(s2),
{
    lemma_extends_keeps(s, s2);
    lemma_ranks_kept(s, s2);
    assert forall|k: u8| procs(s2.n).contains(k) implies #[trigger] reg_inv(s2, k) by {
        if k != p {
            assert(reg_inv(s, k));
            assert(s.values.contains_key((s.regs[k].ts, s.regs[k].wr)));
            lemma_untouched_register(s, s2, k);
        }
    }
    assert forall|p1: u8, p2: u8|
        #![trigger s2.regs[p1], s2.regs[p2]]
        procs(s2.n).contains(p1) && procs(s2.n).contains(p2) && in_progress(s2.regs[p1])
            && s2.regs[p1].op_id == s2.regs[p2].op_id implies p1 == p2 by {
        assert(in_progress(s.regs[p1]));
        assert(s.regs[p1].op_id == s.regs[p2].op_id);
    }
    assert forall|m: Message| s2.net.contains(m) implies #[trigger] msg_inv(s2, m) by {
        if !s.net.contains(m) {
        }
    }
}

/// Answering a `ReadProc` keeps the invariant: the `Value` sent back is at
/// least what every completed operation that the sender acknowledged wrote.
proof fn lemma_deliver_read_proc(s: SystemView, m: Message)
    requires
        inv(s),
        can_deliver(s, m),
        m.cmd.content is ReadProc,
    ensures
        inv(deliver(s, m)),
        extends(s, deliver(s, m)),
{
    let s2 = deliver(s, m);
    let p = m.dest;
    let r = s.regs[p];
    let o = m.cmd.header.msg_ident;
    let step = spec_system_step(r, m.cmd);
    assert(step.0 == r);
    assert(reg_inv(s, p));
    assert(msg_inv(s, m));
    assert forall|k: u8| procs(s.n).contains(k) implies #[trigger] grows(s.regs[k], s2.regs[k]) by {}
    assert(extends(s, s2));
    lemma_untouched_register(s, s2, p);
    assert forall|x: Message| s2.net.contains(x) && !s.net.contains(x) implies msg_inv(s2, x) by {
        let i = choose|i: int| 0 <= i < step.1.len() && #[trigger] emits(s.n, step.1[i], x);
        assert(i == 0);
        assert forall|c: u128| #[trigger] s2.started[o].contains(c) implies covers(
            s2,
            c,
            p,
            r.ts,
            r.wr,
        ) by {
            assert(s.acked.contains_key(c));
            assert(quorum_inv(s, c));
            if s.acked[c].contains(p) {
                assert(holds(s, p, s.written[c]));
            }
        }
    }
    lemma_frame(s, s2, p);
}

/// Taking a `WriteProc` keeps the invariant: the `Ack` is sent once the
/// register holds what was written.
proof fn lemma_deliver_write_proc(s: SystemView, m: Message)
    requires
        inv(s),
        can_deliver(s, m),
        m.cmd.content is WriteProc,
    ensures
        inv(deliver(s, m)),
        extends(s, deliver(s, m)),
{
    let s2 = deliver(s, m);
    let p = m.dest;
    let r = s.regs[p];
    let h = m.cmd.header;
    let o = h.msg_ident;
    let (t, w, d) = match m.cmd.content {
        SystemContentView::WriteProc { timestamp, write_rank, data_to_write } => (
            timestamp,
            write_rank,
            data_to_write,
        ),
        _ => arbitrary(),
    };
    let step = spec_system_step(r, m.cmd);
    assert(step == spec_write_proc_step(r, h, t, w, d));
    lemma_write_proc_acknowledged(r, h, t, w, d);
    lemma_system_step_monotone(r, m.cmd);
    assert(reg_inv(s, p));
    assert(msg_inv(s, m));
    assert forall|k: u8| procs(s.n).contains(k) implies #[trigger] grows(s.regs[k], s2.regs[k]) by {}
    assert(extends(s, s2));
    assert(same_but_value(r, step.0));
    lemma_untouched_register(s, s2, p);
    assert forall|x: Message| s2.net.contains(x) && !s.net.contains(x) implies msg_inv(s2, x) by {
        let i = choose|i: int| 0 <= i < step.1.len() && #[trigger] emits(s.n, step.1[i], x);
        assert(i == step.1.len() - 1);
    }
    lemma_frame(s, s2, p);
}

/// An `Ack` that does not complete the operation keeps the invariant.
proof fn lemma_deliver_ack_pending(s: SystemView, m: Message)
    requires
        inv(s),
        can_deliver(s, m),
        m.cmd.content is Ack,
        !(s.regs[m.dest].write_phase && !spec_system_step(s.regs[m.dest], m.cmd).0.write_phase),
    ensures
        inv(deliver(s, m)),
        extends(s, deliver(s, m)),
{
    let s2 = deliver(s, m);
    let p = m.dest;
    let r = s.regs[p];
    let h = m.cmd.header;
    let q = h.process_identifier;
    let step = spec_system_step(r, m.cmd);
    let r2 = step.0;
    assert(step == spec_ack_step(r, h));
    assert(reg_inv(s, p));
    assert(msg_inv(s, m));
    assert(r2.ts == r.ts && r2.wr == r.wr);
    assert forall|k: u8| procs(s.n).contains(k) implies #[trigger] grows(s.regs[k], s2.regs[k]) by {}
    assert(extends(s, s2));
    if r.op_id == Some(h.msg_ident) && r.write_phase {
        let o = h.msg_ident;
        assert(r2 == RegisterView { acklist: r.acklist.insert(q), ..r });
        assert(write_phase_inv(s, r));
        assert forall|j: u8| #[trigger] r2.acklist.contains(j) implies holds(s2, j, s2.written[o]) by {
            if j != q {
                assert(holds(s, j, s.written[o]));
            }
        }
        assert(s.net.subset_of(s2.net));
        lemma_sent_kept(s, s2, r, r2, write_proc_of(s, o));
        assert(write_proc_of(s2, o) == write_proc_of(s, o));
        assert(r2.acklist.len() <= s.n / 2);
        assert(write_phase_inv(s2, r2));
        assert(reg_inv(s2, p));
    } else {
        assert(r2 == r);
        lemma_untouched_register(s, s2, p);
    }
    lemma_frame(s, s2, p);
}

/// A `Value` that does not complete the read phase keeps the invariant.
proof fn lemma_deliver_value_pending(s: SystemView, m: Message)
    requires
        inv(s),
        can_deliver(s, m),
        m.cmd.content is Value,
        !(!s.regs[m.dest].write_phase && spec_system_step(s.regs[m.dest], m.cmd).0.write_phase),
    ensures
        inv(deliver(s, m)),
        extends(s, deliver(s, m)),
{
    let s2 = deliver(s, m);
    let p = m.dest;
    let r = s.regs[p];
    let h = m.cmd.header;
    let q = h.process_identifier;
    let (t, w, d) = match m.cmd.content {
        SystemContentView::Value { timestamp, write_rank, sector_data } => (
            timestamp,
            write_rank,
            sector_data,
        ),
        _ => arbitrary(),
    };
    let e = (t, w, d);
    let step = spec_system_step(r, m.cmd);
    let r2 = step.0;
    assert(step == spec_value_step(r, h, e));
    assert(reg_inv(s, p));
    assert(msg_inv(s, m));
    assert forall|k: u8| procs(s.n).contains(k) implies #[trigger] grows(s.regs[k], s2.regs[k]) by {}
    assert(extends(s, s2));
    if r.op_id == Some(h.msg_ident) && !r.write_phase {
        let o = h.msg_ident;
        assert(!completes_read_phase(r, q, e));
        assert(r2 == RegisterView { readlist: r.readlist.insert(q, e), ..r });
        if in_progress(r) {
            assert(read_phase_inv(s, r));
            assert forall|k: u8, c: u128|
                #![trigger r2.readlist.dom().contains(k), s2.started[o].contains(c)]
                r2.readlist.dom().contains(k) && s2.started[o].contains(c) implies covers(
                s2,
                c,
                k,
                r2.readlist[k].0,
                r2.readlist[k].1,
            ) by {
                if k == q {
                    assert(covers(s, c, q, t, w));
                } else {
                    assert(r.readlist.dom().contains(k));
                    assert(covers(s, c, k, r.readlist[k].0, r.readlist[k].1));
                }
            }
            assert(s.net.subset_of(s2.net));
            lemma_sent_kept(s, s2, r, r2, SystemContentView::ReadProc);
            assert(r2.readlist.len() <= s.n / 2);
            assert(read_phase_inv(s2, r2));
        }
        assert(reg_inv(s2, p));
    } else {
        assert(r2 == r);
        lemma_untouched_register(s, s2, p);
    }
    lemma_frame(s, s2, p);
}

/// The heart of the register: the highest entry of a read list completed
/// by a majority is at least what every operation completed before wrote.
proof fn lemma_read_phase_sees_completed(s: SystemView, m: Message, c: u128)
    requires
        inv(s),
        can_deliver(s, m),
        m.cmd.content is Value,
        !s.regs[m.dest].write_phase,
        s.regs[m.dest].op_id == Some(m.cmd.header.msg_ident),
        completes_read_phase(
            s.regs[m.dest],
            m.cmd.header.process_identifier,
            (m.cmd.content->Value_timestamp, m.cmd.content->Value_write_rank, m.cmd.content->sector_data),
        ),
        s.started[m.cmd.header.msg_ident].contains(c),
    ensures
        ({
            let r = s.regs[m.dest];
            let q = m.cmd.header.process_identifier;
            let e = (m.cmd.content->Value_timestamp, m.cmd.content->Value_write_rank, m.cmd.content->sector_data);
            let best = highest(full_readlist(r, q, e));
            pair_le(s.written[c].0, s.written[c].1, best.0, best.1)
        }),
{
    let p = m.dest;
    let r = s.regs[p];
    let h = m.cmd.header;
    let q = h.process_identifier;
    let o = h.msg_ident;
    let t = m.cmd.content->Value_timestamp;
    let w = m.cmd.content->Value_write_rank;
    let e = (t, w, m.cmd.content->sector_data);
    let full = full_readlist(r, q, e);
    assert(reg_inv(s, p));
    assert(msg_inv(s, m));
    assert(in_progress(r));
    assert(read_phase_inv(s, r));
    assert(s.acked.contains_key(c));
    assert(quorum_inv(s, c));
    let b = r.readlist.insert(q, e).dom();
    assert(b =~= r.readlist.dom().insert(q));
    let k = lemma_majorities_meet(s.n, s.acked[c], b);
    assert(full.dom().contains(k));
    if k == p {
        assert(holds(s, p, s.written[c]));
        assert(full[k] == (r.ts, r.wr, r.val));
    } else if k == q {
        assert(covers(s, c, q, t, w));
        assert(full[k] == e);
    } else {
        assert(r.readlist.dom().contains(k));
        assert(covers(s, c, k, r.readlist[k].0, r.readlist[k].1));
        assert(full[k] == r.readlist[k]);
    }
    lemma_highest_is_maximal(full, k);
}

/// The highest entry of a read list that completes the read phase is an
/// entry that goes with its value, no older than the register's own; a
/// timestamp beyond it is new under the register's write rank.
proof fn lemma_highest_is_consistent(s: SystemView, m: Message)
    requires
        inv(s),
        can_deliver(s, m),
        m.cmd.content is Value,
        !s.regs[m.dest].write_phase,
        s.regs[m.dest].op_id == Some(m.cmd.header.msg_ident),
        completes_read_phase(
            s.regs[m.dest],
            m.cmd.header.process_identifier,
            (m.cmd.content->Value_timestamp, m.cmd.content->Value_write_rank, m.cmd.content->sector_data),
        ),
    ensures
        ({
            let r = s.regs[m.dest];
            let q = m.cmd.header.process_identifier;
            let e = (m.cmd.content->Value_timestamp, m.cmd.content->Value_write_rank, m.cmd.content->sector_data);
            let best = highest(full_readlist(r, q, e));
            &&& consistent(s, best.0, best.1, best.2)
            &&& r.ts <= best.0
            &&& forall|x: u64| #[trigger] s.values.contains_key((x, m.dest)) ==> x <= best.0
        }),
{
    let p = m.dest;
    let r = s.regs[p];
    let h = m.cmd.header;
    let q = h.process_identifier;
    let t = m.cmd.content->Value_timestamp;
    let w = m.cmd.content->Value_write_rank;
    let e = (t, w, m.cmd.content->sector_data);
    let full = full_readlist(r, q, e);
    assert(reg_inv(s, p));
    assert(msg_inv(s, m));
    assert(in_progress(r));
    assert(read_phase_inv(s, r));
    assert(full.dom().contains(p));
    lemma_highest_is_maximal(full, p);
    let k = choose|k: u8| #[trigger] full.dom().contains(k) && full[k] == highest(full);
    if k == p {
    } else if k == q {
    } else {
        assert(r.readlist.dom().contains(k));
        assert(consistent(s, r.readlist[k].0, r.readlist[k].1, r.readlist[k].2));
    }
}

/// A `Value` that completes the read phase keeps the invariant: what the
/// operation now writes is no older than what every operation completed
/// before it wrote.
proof fn lemma_deliver_value_enters(s: SystemView, m: Message)
    requires
        inv(s),
        can_deliver(s, m),
        m.cmd.content is Value,
        !s.regs[m.dest].write_phase && spec_system_step(s.regs[m.dest], m.cmd).0.write_phase,
    ensures
        inv(deliver(s, m)),
        extends(s, deliver(s, m)),
{
    let s2 = deliver(s, m);
    let p = m.dest;
    let r = s.regs[p];
    let h = m.cmd.header;
    let q = h.process_identifier;
    let o = h.msg_ident;
    let t = m.cmd.content->Value_timestamp;
    let w = m.cmd.content->Value_write_rank;
    let e = (t, w, m.cmd.content->sector_data);
    let step = spec_system_step(r, m.cmd);
    let r2 = step.0;
    let full = full_readlist(r, q, e);
    let best = highest(full);
    assert(step == spec_value_step(r, h, e));
    assert(r.op_id == Some(o) && completes_read_phase(r, q, e));
    assert(reg_inv(s, p));
    assert(msg_inv(s, m));
    assert(read_phase_inv(s, r));
    lemma_system_step_monotone(r, m.cmd);
    let prop = proposal(step.1);
    assert(prop == if r.reading {
        best
    } else {
        ((best.0 + 1) as u64, p, r.writeval)
    });
    assert(s2.written == s.written.insert(o, prop));
    assert(s2.acked == s.acked);
    lemma_highest_is_consistent(s, m);
    assert(s2.values == s.values.insert((prop.0, prop.1), prop.2));
    if !r.reading {
        assert(!s.values.contains_key((prop.0, prop.1)));
    }
    assert forall|x: (u64, u8)| #[trigger] s.values.dom().contains(x) implies s2.values.dom().contains(x)
        && s2.values[x] == s.values[x] by {}
    assert forall|x: u64, y: u8|
        #[trigger] s2.values.contains_key((x, y)) && procs(s2.n).contains(y) implies x
        <= s2.regs[y].ts by {
        assert(grows(s.regs[y], s2.regs[y]));
        if (x, y) != (prop.0, prop.1) {
            assert(s.values.contains_key((x, y)));
        }
    }
    assert forall|k: u8| procs(s.n).contains(k) implies #[trigger] grows(s.regs[k], s2.regs[k]) by {}
    assert(extends(s, s2));
    lemma_extends_keeps(s, s2);
    // What the operation writes is at least what every earlier one wrote.
    assert forall|c: u128| #[trigger] s2.started[o].contains(c) implies pair_le(
        s2.written[c].0,
        s2.written[c].1,
        s2.written[o].0,
        s2.written[o].1,
    ) by {
        lemma_read_phase_sees_completed(s, m, c);
        assert(s.acked.contains_key(c));
        assert(s.written.contains_key(c));
        if !r.reading {
            crate::atomic_register::lemma_highest_is_maximal(full, p);
        }
    }
    assert(law_inv(s2, o));
    assert forall|x: u128| s2.written.contains_key(x) implies #[trigger] law_inv(s2, x) by {}
    // The register now waits for acknowledgements of what it wrote.
    assert(r2.acklist =~= Set::<u8>::empty());
    assert(step.1.last() == (RegisterActionView::Broadcast {
        cmd: SystemCommandView {
            header: SystemCommandHeader {
                process_identifier: r2.self_ident,
                msg_ident: r2.op_id->0,
                sector_idx: h.sector_idx,
            },
            content: write_proc_of(s2, o),
        },
    }));
    lemma_broadcast_sent(s, s2, r2, step.1, step.1.len() - 1, h.sector_idx, write_proc_of(s2, o));
    assert(write_phase_inv(s2, r2));
    assert(reg_inv(s2, p));
    assert forall|k: u8| procs(s2.n).contains(k) implies #[trigger] reg_inv(s2, k) by {
        if k != p {
            assert(reg_inv(s, k));
            if in_progress(s.regs[k]) {
                assert(s.regs[k].op_id != Some(o));
            }
            lemma_untouched_register(s, s2, k);
        }
    }
    assert forall|p1: u8, p2: u8|
        #![trigger s2.regs[p1], s2.regs[p2]]
        procs(s2.n).contains(p1) && procs(s2.n).contains(p2) && in_progress(s2.regs[p1])
            && s2.regs[p1].op_id == s2.regs[p2].op_id implies p1 == p2 by {
        assert(in_progress(s.regs[p1]));
        assert(s.regs[p1].op_id == s.regs[p2].op_id);
    }
    assert forall|x: Message| s2.net.contains(x) implies #[trigger] msg_inv(s2, x) by {
        if !s.net.contains(x) {
            let i = choose|i: int| 0 <= i < step.1.len() && #[trigger] emits(s.n, step.1[i], x);
            assert(i == step.1.len() - 1);
        }
    }
}

/// An `Ack` that completes the operation keeps the invariant: the
/// acknowledging majority holds what the operation wrote.
proof fn lemma_deliver_ack_completes(s: SystemView, m: Message)
    requires
        inv(s),
        can_deliver(s, m),
        m.cmd.content is Ack,
        s.regs[m.dest].write_phase && !spec_system_step(s.regs[m.dest], m.cmd).0.write_phase,
    ensures
        inv(deliver(s, m)),
        extends(s, deliver(s, m)),
{
    let s2 = deliver(s, m);
    let p = m.dest;
    let r = s.regs[p];
    let h = m.cmd.header;
    let q = h.process_identifier;
    let o = h.msg_ident;
    let step = spec_system_step(r, m.cmd);
    let r2 = step.0;
    let acks = r.acklist.insert(q);
    assert(step == spec_ack_step(r, h));
    assert(r.op_id == Some(o));
    assert(reg_inv(s, p));
    assert(msg_inv(s, m));
    assert(write_phase_inv(s, r));
    assert(s2.acked == s.acked.insert(o, acks));
    assert(s2.written == s.written);
    assert(!s.acked.contains_key(o));
    assert forall|k: u8| procs(s.n).contains(k) implies #[trigger] grows(s.regs[k], s2.regs[k]) by {}
    assert(extends(s, s2));
    lemma_extends_keeps(s, s2);
    // The operation completed: a majority holds what it wrote.
    assert forall|j: u8| #[trigger] s2.acked[o].contains(j) implies holds(s2, j, s2.written[o]) by {
        if j != q {
            assert(holds(s, j, s.written[o]));
        }
    }
    assert(quorum_inv(s2, o));
    assert forall|c: u128| s2.acked.contains_key(c) implies #[trigger] quorum_inv(s2, c) by {}
    assert(reg_inv(s2, p));
    assert forall|k: u8| procs(s2.n).contains(k) implies #[trigger] reg_inv(s2, k) by {
        if k != p {
            assert(reg_inv(s, k));
            if in_progress(s.regs[k]) {
                assert(s.regs[k].op_id != Some(o));
            }
            lemma_untouched_register(s, s2, k);
        }
    }
    assert forall|p1: u8, p2: u8|
        #![trigger s2.regs[p1], s2.regs[p2]]
        procs(s2.n).contains(p1) && procs(s2.n).contains(p2) && in_progress(s2.regs[p1])
            && s2.regs[p1].op_id == s2.regs[p2].op_id implies p1 == p2 by {
        assert(in_progress(s.regs[p1]));
        assert(s.regs[p1].op_id == s.regs[p2].op_id);
    }
    assert forall|x: Message| s2.net.contains(x) implies #[trigger] msg_inv(s2, x) by {
        if !s.net.contains(x) {
            let i = choose|i: int| 0 <= i < step.1.len() && #[trigger] emits(s.n, step.1[i], x);
        }
    }
}

/// Delivering any message keeps the invariant.
proof fn lemma_deliver_inv(s: SystemView, m: Message)
    requires
        inv(s),
        can_deliver(s, m),
    ensures
        inv(deliver(s, m)),
        extends(s, deliver(s, m)),
{
    let r = s.regs[m.dest];
    let r2 = spec_system_step(r, m.cmd).0;
    match m.cmd.content {
        SystemContentView::ReadProc => lemma_deliver_read_proc(s, m),
        SystemContentView::Value { .. } => {
            if !r.write_phase && r2.write_phase {
                lemma_deliver_value_enters(s, m);
            } else {
                lemma_deliver_value_pending(s, m);
            }
        },
        SystemContentView::WriteProc { .. } => lemma_deliver_write_proc(s, m),
        SystemContentView::Ack => {
            if r.write_phase && !r2.write_phase {
                lemma_deliver_ack_completes(s, m);
            } else {
                lemma_deliver_ack_pending(s, m);
            }
        },
    }
}

/// Every state of a run keeps the invariant, and extends the one before.
proof fn lemma_run_inv(run: Seq<SystemView>, i: int)
    requires
        is_run(run),
        0 <= i < run.len(),
    ensures
        inv(run[i]),
        i > 0 ==> extends(run[i - 1], run[i]),
    decreases i,
{
    if i == 0 {
        lemma_initial_inv(run[0]);
    } else {
        lemma_run_inv(run, i - 1);
        let j = i - 1;
        assert(next(run[j], run[j + 1]));
        if exists|p: u8, cmd: ClientCommandView, op: u128|
            can_start(run[i - 1], p, op) && run[i] == #[trigger] client_start(run[i - 1], p, cmd, op) {
            let (p, cmd, op) = choose|p: u8, cmd: ClientCommandView, op: u128|
                can_start(run[i - 1], p, op) && run[i] == #[trigger] client_start(run[i - 1], p, cmd, op);
            lemma_client_start_inv(run[i - 1], p, cmd, op);
        } else {
            let m = choose|m: Message| can_deliver(run[i - 1], m) && run[i] == #[trigger] deliver(run[i - 1], m);
            lemma_deliver_inv(run[i - 1], m);
        }
    }
}

/// A just recovered system satisfies the invariant.
proof fn lemma_initial_inv(s: SystemView)
    requires
        is_initial(s),
    ensures
        inv(s),
{
    assert forall|p: u8| procs(s.n).contains(p) implies #[trigger] reg_inv(s, p) by {}
}

/// A later state of a run extends an earlier one.
proof fn lemma_run_extends(run: Seq<SystemView>, i: int, j: int)
    requires
        is_run(run),
        0 <= i <= j < run.len(),
    ensures
        extends(run[i], run[j]),
    decreases j - i,
{
    if i == j {
        let s = run[i];
        assert forall|p: u8| procs(s.n).contains(p) implies #[trigger] grows(s.regs[p], s.regs[p]) by {}
    } else {
        lemma_run_extends(run, i, j - 1);
        lemma_run_inv(run, j);
        let a = run[i];
        let b = run[j - 1];
        let c = run[j];
        assert forall|p: u8| procs(a.n).contains(p) implies #[trigger] grows(a.regs[p], c.regs[p]) by {
            assert(grows(a.regs[p], b.regs[p]));
            assert(grows(b.regs[p], c.regs[p]));
        }
        assert forall|k: u128| #[trigger] a.started.dom().contains(k) implies c.started.dom().contains(k)
            && c.started[k] == a.started[k] by {
            assert(b.started.dom().contains(k));
        }
        assert forall|k: u128| #[trigger] a.written.dom().contains(k) implies c.written.dom().contains(k)
            && c.written[k] == a.written[k] by {
            assert(b.written.dom().contains(k));
        }
        assert forall|k: u128| #[trigger] a.acked.dom().contains(k) implies c.acked.dom().contains(k)
            && c.acked[k] == a.acked[k] by {
            assert(b.acked.dom().contains(k));
        }
    }
}

/// The system of `n` processes whose registers for sector `sector_idx` were
/// all recovered with timestamp `ts`, write rank `wr` and value `val`, as
/// on a first start.
pub open spec fn recovered_system(n: u8, sector_idx: SectorIdx, ts: u64, wr: u8, val: Seq<u8>) -> SystemView {
    SystemView {
        n,
        regs: Map::new(
            |p: u8| procs(n).contains(p),
            |p: u8| initial_register(p, sector_idx, n, ts, wr, val),
        ),
        net: Set::empty(),
        started: Map::empty(),
        written: Map::empty(),
        acked: Map::empty(),
        values: map![(ts, wr) => val],
        requests: Map::empty(),
        recovered: map![(ts, wr) => val],
        floor: (ts, wr),
    }
}

/// Registers built by `AtomicRegisterState::new` from the same recovered
/// sector on every process start a run.
pub proof fn lemma_recovered_system_starts_a_run(
    n: u8,
    sector_idx: SectorIdx,
    ts: u64,
    wr: u8,
    val: Seq<u8>,
)
    ensures
        is_initial(recovered_system(n, sector_idx, ts, wr, val)),
        is_run(seq![recovered_system(n, sector_idx, ts, wr, val)]),
{
    let s = recovered_system(n, sector_idx, ts, wr, val);
    assert forall|x: u64, q: u8|
        #[trigger] s.values.contains_key((x, q)) && procs(s.n).contains(q) implies x
        <= s.regs[q].ts by {}
    assert(is_initial(s));
    assert(seq![s][0] == s);
}

// ---------------------------------------------------------------------
// Progress: an operation can complete among a majority.
// ---------------------------------------------------------------------

/// Whether `s2` follows `s` by the delivery of a message to a process of
/// `c`.
pub open spec fn delivers_to(c: Set<u8>, s: SystemView, s2: SystemView) -> bool {
    exists|m: Message| c.contains(m.dest) && can_deliver(s, m) && s2 == #[trigger] deliver(s, m)
}

/// Whether `ext` goes on from `ext[0]` by deliveries of messages to
/// processes of `c` only.
pub open spec fn continues_within(ext: Seq<SystemView>, c: Set<u8>) -> bool {
    &&& ext.len() > 0
    &&& forall|i: int| 0 <= i < ext.len() - 1 ==> #[trigger] delivers_to(c, ext[i], ext[i + 1])
}

/// Whether no register holds the largest timestamp, nor any entry of the
/// read list of `p`.
pub open spec fn below_max_timestamp(s: SystemView, p: u8) -> bool {
    &&& forall|k: u8| #[trigger] procs(s.n).contains(k) ==> s.regs[k].ts < u64::MAX
    &&& forall|q: u8| #[trigger]
        s.regs[p].readlist.dom().contains(q) ==> s.regs[p].readlist[q].0 < u64::MAX
}

spec fn value_from(p: u8, o: u128, sidx: SectorIdx, j: u8, e: ReadEntry) -> Message {
    Message {
        dest: p,
        cmd: SystemCommandView {
            header: SystemCommandHeader { process_identifier: j, msg_ident: o, sector_idx: sidx },
            content: SystemContentView::Value { timestamp: e.0, write_rank: e.1, sector_data: e.2 },
        },
    }
}

spec fn ack_from(p: u8, o: u128, sidx: SectorIdx, j: u8) -> Message {
    Message {
        dest: p,
        cmd: SystemCommandView {
            header: SystemCommandHeader { process_identifier: j, msg_ident: o, sector_idx: sidx },
            content: SystemContentView::Ack,
        },
    }
}

proof fn lemma_chain(e1: Seq<SystemView>, e2: Seq<SystemView>, c: Set<u8>)
    requires
        continues_within(e1, c),
        continues_within(e2, c),
        e1.last() == e2[0],
    ensures
        continues_within(e1 + e2.drop_first(), c),
        (e1 + e2.drop_first())[0] == e1[0],
        (e1 + e2.drop_first()).last() == e2.last(),
{
    let e = e1 + e2.drop_first();
    assert forall|i: int| 0 <= i < e.len() - 1 implies #[trigger] delivers_to(c, e[i], e[i + 1]) by {
        if i < e1.len() - 1 {
            assert(delivers_to(c, e1[i], e1[i + 1]));
        } else {
            let j = i - (e1.len() - 1);
            assert(e[i] == e2[j]);
            assert(e[i + 1] == e2[j + 1]);
            assert(delivers_to(c, e2[j], e2[j + 1]));
        }
    }
}

proof fn lemma_one_delivery(s: SystemView, m: Message, c: Set<u8>, rest: Seq<SystemView>) -> (ext: Seq<
    SystemView,
>)
    requires
        c.contains(m.dest),
        can_deliver(s, m),
        continues_within(rest, c),
        rest[0] == deliver(s, m),
    ensures
        continues_within(ext, c),
        ext[0] == s,
        ext.last() == rest.last(),
{
    let first = seq![s, deliver(s, m)];
    assert(delivers_to(c, first[0], first[1]));
    assert(continues_within(first, c));
    lemma_chain(first, rest, c);
    first + rest.drop_first()
}

/// Phase one: every process of `c` from `k` on answers the `ReadProc` of
/// the operation of `p`.
proof fn lemma_ask_all(s: SystemView, c: Set<u8>, p: u8, sidx: SectorIdx, k: int) -> (ext: Seq<
    SystemView,
>)
    requires
        inv(s),
        procs(s.n).contains(p),
        in_progress(s.regs[p]),
        c.subset_of(procs(s.n)),
        1 <= k <= s.n + 1,
        sent_for(s, s.regs[p], SystemContentView::ReadProc, sidx),
    ensures
        continues_within(ext, c),
        ext[0] == s,
        inv(ext.last()),
        extends(s, ext.last()),
        ext.last().n == s.n,
        forall|j: u8| #[trigger] ext.last().regs[j] == s.regs[j],
        ext.last().written == s.written,
        ext.last().acked == s.acked,
        forall|j: u8|
            c.contains(j) && k <= j <= s.n ==> #[trigger] ext.last().net.contains(
                value_from(p, s.regs[p].op_id->0, sidx, j, (s.regs[j].ts, s.regs[j].wr, s.regs[j].val)),
            ),
    decreases s.n + 1 - k,
{
    if k > s.n {
        let ext = seq![s];
        assert forall|p: u8| procs(s.n).contains(p) implies #[trigger] grows(s.regs[p], s.regs[p]) by {}
        assert(extends(s, s));
        ext
    } else {
        let j = k as u8;
        if c.contains(j) {
            let r = s.regs[p];
            let m = sent_to(r.self_ident, r.op_id->0, sidx, SystemContentView::ReadProc, j);
            assert(reg_inv(s, p));
            assert(s.net.contains(m));
            let s1 = deliver(s, m);
            lemma_deliver_inv(s, m);
            let step = spec_system_step(s.regs[j], m.cmd);
            assert(step.0 == s.regs[j]);
            assert forall|x: u8| #[trigger] s1.regs[x] == s.regs[x] by {}
            let reply = value_from(p, r.op_id->0, sidx, j, (s.regs[j].ts, s.regs[j].wr, s.regs[j].val));
            assert(reg_inv(s, j));
            assert(emits(s.n, step.1[0], reply));
            assert(s1.net.contains(reply));
            lemma_sent_kept(s, s1, r, s1.regs[p], SystemContentView::ReadProc);
            assert(sent_for(s1, s1.regs[p], SystemContentView::ReadProc, sidx)) by {
                assert forall|x: u8| #[trigger] procs(s1.n).contains(x) implies s1.net.contains(
                    sent_to(s1.regs[p].self_ident, s1.regs[p].op_id->0, sidx, SystemContentView::ReadProc, x),
                ) by {
                    assert(s.net.contains(sent_to(r.self_ident, r.op_id->0, sidx, SystemContentView::ReadProc, x)));
                }
            }
            let rest = lemma_ask_all(s1, c, p, sidx, k + 1);
            let ext = lemma_one_delivery(s, m, c, rest);
            lemma_extends_trans(s, s1, rest.last());
            assert forall|x: u8|
                c.contains(x) && k <= x <= s.n implies #[trigger] rest.last().net.contains(
                value_from(p, s.regs[p].op_id->0, sidx, x, (s.regs[x].ts, s.regs[x].wr, s.regs[x].val)),
            ) by {
                assert(s1.regs[p] == s.regs[p]);
                assert(s1.regs[x] == s.regs[x]);
                if x == j {
                    assert(s1.net.subset_of(rest.last().net));
                }
            }
            ext
        } else {
            lemma_ask_all(s, c, p, sidx, k + 1)
        }
    }
}

proof fn lemma_extends_refl(s: SystemView)
    ensures
        extends(s, s),
{
    assert forall|p: u8| procs(s.n).contains(p) implies #[trigger] grows(s.regs[p], s.regs[p]) by {}
}

proof fn lemma_readlist_finite(s: SystemView, p: u8)
    requires
        inv(s),
        procs(s.n).contains(p),
        in_progress(s.regs[p]),
        !s.regs[p].write_phase,
    ensures
        s.regs[p].readlist.dom().finite(),
        s.regs[p].readlist.dom().len() <= s.n / 2,
{
    assert(reg_inv(s, p));
    assert(read_phase_inv(s, s.regs[p]));
    lemma_procs_len(s.n);
    vstd::set_lib::lemma_len_subset(s.regs[p].readlist.dom(), procs(s.n));
}

/// Phase two: the `Value`s from the processes of `c` from `k` on reach `p`,
/// until its operation enters its write phase.
proof fn lemma_collect_values(
    s: SystemView,
    c: Set<u8>,
    p: u8,
    o: u128,
    sidx: SectorIdx,
    es: Map<u8, ReadEntry>,
    k: int,
) -> (ext: Seq<SystemView>)
    requires
        inv(s),
        procs(s.n).contains(p),
        c.subset_of(procs(s.n)),
        c.contains(p),
        c.len() > s.n / 2,
        1 <= k <= s.n + 1,
        in_progress(s.regs[p]),
        s.regs[p].op_id == Some(o),
        below_max_timestamp(s, p),
        forall|j: u8|
            #![trigger es[j]]
            c.contains(j) && k <= j <= s.n ==> es[j].0 < u64::MAX && s.net.contains(
                value_from(p, o, sidx, j, es[j]),
            ),
        !s.regs[p].write_phase ==> forall|j: u8|
            c.contains(j) && j < k ==> #[trigger] s.regs[p].readlist.dom().contains(j),
    ensures
        continues_within(ext, c),
        ext[0] == s,
        inv(ext.last()),
        extends(s, ext.last()),
        ext.last().regs[p].write_phase,
        ext.last().regs[p].op_id == Some(o),
        in_progress(ext.last().regs[p]),
    decreases s.n + 1 - k,
{
    let r = s.regs[p];
    if r.write_phase {
        lemma_extends_refl(s);
        seq![s]
    } else if k > s.n {
        lemma_readlist_finite(s, p);
        assert(c.subset_of(r.readlist.dom())) by {
            assert forall|j: u8| c.contains(j) implies r.readlist.dom().contains(j) by {
                assert(procs(s.n).contains(j));
            }
        }
        vstd::set_lib::lemma_len_subset(c, r.readlist.dom());
        assert(false);
        seq![s]
    } else {
        let j = k as u8;
        if c.contains(j) {
            let e = es[j];
            let m = value_from(p, o, sidx, j, e);
            assert(s.net.contains(m));
            assert(reg_inv(s, p));
            let h = m.cmd.header;
            let full = full_readlist(r, j, e);
            assert(accepts_system_command(r, m.cmd)) by {
                if r.op_id == Some(o) && completes_read_phase(r, j, e) && !r.reading {
                    assert(full.dom().contains(p));
                    lemma_highest_is_maximal(full, p);
                    let x = choose|x: u8| #[trigger] full.dom().contains(x) && full[x] == highest(full);
                    if x != p && x != j {
                        assert(r.readlist.dom().contains(x));
                    }
                }
            }
            assert(can_deliver(s, m));
            let s1 = deliver(s, m);
            lemma_deliver_inv(s, m);
            let step = spec_system_step(r, m.cmd);
            assert(step == spec_value_step(r, h, e));
            let r1 = s1.regs[p];
            if r1.write_phase {
                let rest = seq![s1];
                let ext = lemma_one_delivery(s, m, c, rest);
                ext
            } else {
                assert(!completes_read_phase(r, j, e));
                assert(r1 == RegisterView { readlist: r.readlist.insert(j, e), ..r });
                assert forall|x: u8| #[trigger] procs(s1.n).contains(x) implies s1.regs[x].ts < u64::MAX by {
                    assert(s1.regs[x].ts == s.regs[x].ts);
                }
                assert forall|q: u8| #[trigger] r1.readlist.dom().contains(q) implies r1.readlist[q].0 < u64::MAX by {
                    if q != j {
                        assert(r.readlist.dom().contains(q));
                    }
                }
                assert(below_max_timestamp(s1, p));
                assert forall|x: u8|
                    #![trigger es[x]]
                    c.contains(x) && k + 1 <= x <= s1.n implies es[x].0 < u64::MAX && s1.net.contains(
                    value_from(p, o, sidx, x, es[x]),
                ) by {
                    assert(k <= x <= s.n);
                    assert(s.net.contains(value_from(p, o, sidx, x, es[x])));
                    assert(s.net.subset_of(s1.net));
                }
                assert(s1.n == s.n);
                let rest = lemma_collect_values(s1, c, p, o, sidx, es, k + 1);
                let ext = lemma_one_delivery(s, m, c, rest);
                lemma_extends_trans(s, s1, rest.last());
                ext
            }
        } else {
            lemma_collect_values(s, c, p, o, sidx, es, k + 1)
        }
    }
}

/// Phase three: every process of `c` from `k` on takes the `WriteProc` of
/// the operation of `p` and acknowledges it.
proof fn lemma_write_all(s: SystemView, c: Set<u8>, p: u8, o: u128, sidx: SectorIdx, k: int) -> (ext: Seq<
    SystemView,
>)
    requires
        inv(s),
        procs(s.n).contains(p),
        c.subset_of(procs(s.n)),
        c.contains(p),
        1 <= k <= s.n + 1,
        in_progress(s.regs[p]),
        s.regs[p].write_phase,
        s.regs[p].op_id == Some(o),
        sent_for(s, s.regs[p], write_proc_of(s, o), sidx),
    ensures
        continues_within(ext, c),
        ext[0] == s,
        inv(ext.last()),
        extends(s, ext.last()),
        in_progress(ext.last().regs[p]),
        ext.last().regs[p].write_phase,
        ext.last().regs[p].op_id == Some(o),
        ext.last().regs[p].acklist == s.regs[p].acklist,
        forall|j: u8| c.contains(j) && k <= j <= s.n ==> #[trigger] ext.last().net.contains(ack_from(p, o, sidx, j)),
    decreases s.n + 1 - k,
{
    if k > s.n {
        lemma_extends_refl(s);
        seq![s]
    } else {
        let j = k as u8;
        if c.contains(j) {
            let r = s.regs[p];
            assert(reg_inv(s, p));
            let m = sent_to(r.self_ident, o, sidx, write_proc_of(s, o), j);
            assert(s.net.contains(m));
            assert(can_deliver(s, m));
            let s1 = deliver(s, m);
            lemma_deliver_inv(s, m);
            let rj = s.regs[j];
            assert(reg_inv(s, j));
            let step = spec_system_step(rj, m.cmd);
            let w = s.written[o];
            assert(step == spec_write_proc_step(rj, m.cmd.header, w.0, w.1, w.2));
            assert(s1.written == s.written);
            let r1 = s1.regs[p];
            assert(r1 == RegisterView { ts: r1.ts, wr: r1.wr, val: r1.val, ..r });
            assert(emits(s.n, step.1.last(), ack_from(p, o, sidx, j)));
            assert(s1.net.contains(ack_from(p, o, sidx, j)));
            assert(sent_for(s1, r1, write_proc_of(s1, o), sidx)) by {
                assert forall|x: u8| #[trigger] procs(s1.n).contains(x) implies s1.net.contains(
                    sent_to(r1.self_ident, r1.op_id->0, sidx, write_proc_of(s1, o), x),
                ) by {
                    assert(s.net.contains(sent_to(r.self_ident, r.op_id->0, sidx, write_proc_of(s, o), x)));
                }
            }
            let rest = lemma_write_all(s1, c, p, o, sidx, k + 1);
            let ext = lemma_one_delivery(s, m, c, rest);
            lemma_extends_trans(s, s1, rest.last());
            assert(s1.net.subset_of(rest.last().net));
            ext
        } else {
            lemma_write_all(s, c, p, o, sidx, k + 1)
        }
    }
}

/// Phase four: the acknowledgements from the processes of `c` from `k` on
/// reach `p`, until its operation completes.
proof fn lemma_collect_acks(s: SystemView, c: Set<u8>, p: u8, o: u128, sidx: SectorIdx, k: int) -> (ext: Seq<
    SystemView,
>)
    requires
        inv(s),
        procs(s.n).contains(p),
        c.subset_of(procs(s.n)),
        c.contains(p),
        c.len() > s.n / 2,
        1 <= k <= s.n + 1,
        s.acked.contains_key(o) || {
            &&& in_progress(s.regs[p])
            &&& s.regs[p].write_phase
            &&& s.regs[p].op_id == Some(o)
            &&& forall|j: u8| c.contains(j) && j < k ==> #[trigger] s.regs[p].acklist.contains(j)
        },
        forall|j: u8| c.contains(j) && k <= j <= s.n ==> #[trigger] s.net.contains(ack_from(p, o, sidx, j)),
    ensures
        continues_within(ext, c),
        ext[0] == s,
        inv(ext.last()),
        extends(s, ext.last()),
        ext.last().acked.contains_key(o),
    decreases s.n + 1 - k,
{
    let r = s.regs[p];
    if s.acked.contains_key(o) {
        lemma_extends_refl(s);
        seq![s]
    } else if k > s.n {
        assert(reg_inv(s, p));
        assert(write_phase_inv(s, r));
        lemma_procs_len(s.n);
        assert(c.subset_of(r.acklist)) by {
            assert forall|j: u8| c.contains(j) implies r.acklist.contains(j) by {
                assert(procs(s.n).contains(j));
            }
        }
        vstd::set_lib::lemma_len_subset(r.acklist, procs(s.n));
        vstd::set_lib::lemma_len_subset(c, r.acklist);
        assert(false);
        seq![s]
    } else {
        let j = k as u8;
        if c.contains(j) {
            let m = ack_from(p, o, sidx, j);
            assert(s.net.contains(m));
            assert(can_deliver(s, m));
            let s1 = deliver(s, m);
            lemma_deliver_inv(s, m);
            let step = spec_system_step(r, m.cmd);
            assert(step == spec_ack_step(r, m.cmd.header));
            let r1 = s1.regs[p];
            if r1.write_phase {
                assert(r1 == RegisterView { acklist: r.acklist.insert(j), ..r });
                assert forall|x: u8| c.contains(x) && x < k + 1 implies #[trigger] r1.acklist.contains(x) by {
                    if x != j {
                        assert(r.acklist.contains(x));
                    }
                }
            } else {
                assert(s1.acked.contains_key(o));
            }
            assert forall|x: u8| c.contains(x) && k + 1 <= x <= s1.n implies #[trigger] s1.net.contains(
                ack_from(p, o, sidx, x),
            ) by {
                assert(s.net.contains(ack_from(p, o, sidx, x)));
            }
            let rest = lemma_collect_acks(s1, c, p, o, sidx, k + 1);
            let ext = lemma_one_delivery(s, m, c, rest);
            lemma_extends_trans(s, s1, rest.last());
            ext
        } else {
            lemma_collect_acks(s, c, p, o, sidx, k + 1)
        }
    }
}

proof fn lemma_extends_trans(a: SystemView, b: SystemView, c: SystemView)
    requires
        extends(a, b),
        extends(b, c),
    ensures
        extends(a, c),
{
    assert forall|p: u8| procs(a.n).contains(p) implies #[trigger] grows(a.regs[p], c.regs[p]) by {
        assert(grows(a.regs[p], b.regs[p]));
        assert(grows(b.regs[p], c.regs[p]));
    }
    assert forall|k: u128| #[trigger] a.started.dom().contains(k) implies c.started.dom().contains(k)
        && c.started[k] == a.started[k] by {
        assert(b.started.dom().contains(k));
    }
    assert forall|k: u128| #[trigger] a.written.dom().contains(k) implies c.written.dom().contains(k)
        && c.written[k] == a.written[k] by {
        assert(b.written.dom().contains(k));
    }
    assert forall|k: u128| #[trigger] a.acked.dom().contains(k) implies c.acked.dom().contains(k)
        && c.acked[k] == a.acked[k] by {
        assert(b.acked.dom().contains(k));
    }
    assert forall|k: (u64, u8)| #[trigger] a.values.dom().contains(k) implies c.values.dom().contains(k)
        && c.values[k] == a.values[k] by {
        assert(b.values.dom().contains(k));
    }
    assert forall|k: u128| #[trigger] a.requests.dom().contains(k) implies c.requests.dom().contains(k)
        && c.requests[k] == a.requests[k] by {
        assert(b.requests.dom().contains(k));
    }
}

/// Progress: whenever a process `p` has an operation in progress, any
/// majority `c` of the processes that includes `p` completes it on its own.
/// The run can go on, delivering only messages that were sent to processes
/// of `c` and starting no operation, until the operation has completed;
/// this holds while no timestamp has reached its largest value.
pub proof fn lemma_operation_completes_within_majority(run: Seq<SystemView>, c: Set<u8>, p: u8) -> (ext:
    Seq<SystemView>)
    requires
        is_run(run),
        procs(run.last().n).contains(p),
        in_progress(run.last().regs[p]),
        c.subset_of(procs(run.last().n)),
        c.contains(p),
        c.len() > run.last().n / 2,
        below_max_timestamp(run.last(), p),
    ensures
        continues_within(ext, c),
        ext[0] == run.last(),
        is_run(run + ext.drop_first()),
        ext.last().acked.contains_key(run.last().regs[p].op_id->0),
{
    let s = run.last();
    lemma_run_inv(run, run.len() - 1);
    let r = s.regs[p];
    let o = r.op_id->0;
    assert(reg_inv(s, p));
    // Reach the write phase.
    let e12: Seq<SystemView> = if !r.write_phase {
        assert(read_phase_inv(s, r));
        let sidx = choose|sidx: SectorIdx| #[trigger] sent_for(s, r, SystemContentView::ReadProc, sidx);
        let e1 = lemma_ask_all(s, c, p, sidx, 1);
        let sa = e1.last();
        let es = Map::new(|j: u8| true, |j: u8| (s.regs[j].ts, s.regs[j].wr, s.regs[j].val));
        assert forall|j: u8| #[trigger] procs(sa.n).contains(j) implies sa.regs[j].ts < u64::MAX by {
            assert(sa.regs[j] == s.regs[j]);
        }
        assert(sa.regs[p] == s.regs[p]);
        assert(below_max_timestamp(sa, p));
        assert forall|j: u8|
            #![trigger es[j]]
            c.contains(j) && 1 <= j <= sa.n implies es[j].0 < u64::MAX && sa.net.contains(
            value_from(p, o, sidx, j, es[j]),
        ) by {
            assert(procs(s.n).contains(j));
            assert(sa.net.contains(
                value_from(p, s.regs[p].op_id->0, sidx, j, (s.regs[j].ts, s.regs[j].wr, s.regs[j].val)),
            ));
        }
        let e2 = lemma_collect_values(sa, c, p, o, sidx, es, 1);
        lemma_chain(e1, e2, c);
        lemma_extends_trans(s, sa, e2.last());
        e1 + e2.drop_first()
    } else {
        lemma_extends_refl(s);
        seq![s]
    };
    let sb = e12.last();
    assert(continues_within(e12, c) && e12[0] == s && inv(sb) && extends(s, sb));
    assert(sb.regs[p].write_phase && sb.regs[p].op_id == Some(o) && in_progress(sb.regs[p]));
    // Propagate the write and collect the acknowledgements.
    assert(reg_inv(sb, p));
    assert(write_phase_inv(sb, sb.regs[p]));
    let sidx2 = choose|sidx: SectorIdx| #[trigger] sent_for(sb, sb.regs[p], write_proc_of(sb, o), sidx);
    let e3 = lemma_write_all(sb, c, p, o, sidx2, 1);
    let sc = e3.last();
    let e4 = lemma_collect_acks(sc, c, p, o, sidx2, 1);
    lemma_chain(e3, e4, c);
    let e34 = e3 + e4.drop_first();
    lemma_chain(e12, e34, c);
    let ext = e12 + e34.drop_first();
    let whole = run + ext.drop_first();
    assert forall|i: int| 0 <= i < whole.len() - 1 implies #[trigger] next(whole[i], whole[i + 1]) by {
        if i < run.len() - 1 {
            assert(whole[i] == run[i] && whole[i + 1] == run[i + 1]);
        } else {
            let j = i - (run.len() - 1);
            assert(whole[i] == ext[j]);
            assert(whole[i + 1] == ext[j + 1]);
            assert(delivers_to(c, ext[j], ext[j + 1]));
            let m = choose|m: Message| c.contains(m.dest) && can_deliver(ext[j], m) && ext[j + 1] == #[trigger] deliver(ext[j], m);
        }
    }
    assert(whole[0] == run[0]);
    ext
}

// ---------------------------------------------------------------------
// Laws of the system.
// ---------------------------------------------------------------------

/// Atomicity: in every state of every run, an operation that started after
/// another had completed writes (in its `WriteProc`) a timestamp and write
/// rank no older than those the other wrote.
pub proof fn lemma_later_operation_is_no_older(run: Seq<SystemView>, i: int, o: u128, c: u128)
    requires
        is_run(run),
        0 <= i < run.len(),
        run[i].written.contains_key(o),
        run[i].started[o].contains(c),
    ensures
        run[i].acked.contains_key(c),
        run[i].written.contains_key(c),
        pair_le(run[i].written[c].0, run[i].written[c].1, run[i].written[o].0, run[i].written[o].1),
{
    lemma_run_inv(run, i);
    let s = run[i];
    assert(law_inv(s, o));
    assert(s.started.contains_key(o));
}

/// Once an operation has completed, a majority of the processes hold a
/// timestamp and write rank no older than those it wrote.
pub proof fn lemma_completed_operation_held_by_majority(run: Seq<SystemView>, i: int, c: u128)
    requires
        is_run(run),
        0 <= i < run.len(),
        run[i].acked.contains_key(c),
    ensures
        run[i].written.contains_key(c),
        run[i].acked[c].subset_of(procs(run[i].n)),
        run[i].acked[c].len() > run[i].n / 2,
        forall|k: u8| #[trigger]
            run[i].acked[c].contains(k) ==> pair_le(
                run[i].written[c].0,
                run[i].written[c].1,
                run[i].regs[k].ts,
                run[i].regs[k].wr,
            ),
{
    lemma_run_inv(run, i);
    let s = run[i];
    assert(quorum_inv(s, c));
    assert forall|k: u8| #[trigger] s.acked[c].contains(k) implies pair_le(
        s.written[c].0,
        s.written[c].1,
        s.regs[k].ts,
        s.regs[k].wr,
    ) by {
        assert(holds(s, k, s.written[c]));
    }
}

/// What a run records is never taken back: when operations started, what
/// they wrote, and which have completed.
pub proof fn lemma_history_is_kept(run: Seq<SystemView>, i: int, j: int)
    requires
        is_run(run),
        0 <= i <= j < run.len(),
    ensures
        run[i].started.submap_of(run[j].started),
        run[i].written.submap_of(run[j].written),
        run[i].acked.submap_of(run[j].acked),
{
    lemma_run_extends(run, i, j);
}

/// What a completion reports: the step completes the operation in progress
/// at the process, which had not completed before and has after it, and
/// hands back a read's result as the value its `WriteProc` wrote.
pub proof fn lemma_completion(run: Seq<SystemView>, i: int, m: Message)
    requires
        is_run(run),
        0 <= i < run.len(),
        can_deliver(run[i], m),
        completes(run[i], m),
    ensures
        ({
            let s = run[i];
            let r = s.regs[m.dest];
            let o = r.op_id->0;
            &&& r.op_id is Some
            &&& !s.acked.contains_key(o)
            &&& deliver(s, m).acked.contains_key(o)
            &&& s.written.contains_key(o)
            &&& spec_system_step(r, m.cmd).1 == seq![
                RegisterActionView::Complete {
                    success: OperationSuccessView {
                        request_identifier: r.rid.unwrap(),
                        op_return: if r.reading {
                            OperationReturnView::Read { read_data: s.written[o].2 }
                        } else {
                            OperationReturnView::Write
                        },
                    },
                },
            ]
        }),
{
    lemma_run_inv(run, i);
    let s = run[i];
    let p = m.dest;
    let r = s.regs[p];
    let acts = spec_system_step(r, m.cmd).1;
    let j = choose|j: int| 0 <= j < acts.len() && #[trigger] acts[j] is Complete;
    assert(reg_inv(s, p));
    match m.cmd.content {
        SystemContentView::Ack => {
            assert(write_phase_inv(s, r));
        },
        _ => {},
    }
}

/// What a read returns: when a step of a run completes a read that started
/// after a write of `data` had completed, the read hands back `data`, or a
/// value written under a newer timestamp and write rank than that write's,
/// never an older one.
pub proof fn lemma_read_after_completed_write(
    run: Seq<SystemView>,
    i: int,
    m: Message,
    c: u128,
    data: Seq<u8>,
)
    requires
        is_run(run),
        0 <= i < run.len(),
        can_deliver(run[i], m),
        completes(run[i], m),
        run[i].regs[m.dest].reading,
        run[i].started[run[i].regs[m.dest].op_id->0].contains(c),
        run[i].requests[c] == (ClientContentView::Write { data }),
    ensures
        ({
            let s = run[i];
            let r = s.regs[m.dest];
            let o = r.op_id->0;
            let x = s.written[o].2;
            &&& spec_system_step(r, m.cmd).1 == seq![
                RegisterActionView::Complete {
                    success: OperationSuccessView {
                        request_identifier: r.rid.unwrap(),
                        op_return: OperationReturnView::Read { read_data: x },
                    },
                },
            ]
            &&& x == data || newer(s.written[o].0, s.written[o].1, s.written[c].0, s.written[c].1)
        }),
{
    lemma_completion(run, i, m);
    lemma_run_inv(run, i);
    let s = run[i];
    let o = s.regs[m.dest].op_id->0;
    lemma_later_operation_is_no_older(run, i, o, c);
    assert(law_inv(s, o));
    assert(law_inv(s, c));
}

/// What a read returns, sharper: when a step of a run completes a read
/// that started after a write of `data` had completed, the read hands back
/// `data`, or the data of a write that had not completed when the write of
/// `data` started, or a value recovered at the start of the run under a
/// timestamp and write rank newer than that write's.
pub proof fn lemma_read_returns_written_data(
    run: Seq<SystemView>,
    i: int,
    m: Message,
    c: u128,
    data: Seq<u8>,
)
    requires
        is_run(run),
        0 <= i < run.len(),
        can_deliver(run[i], m),
        completes(run[i], m),
        run[i].regs[m.dest].reading,
        run[i].started[run[i].regs[m.dest].op_id->0].contains(c),
        run[i].requests[c] == (ClientContentView::Write { data }),
    ensures
        ({
            let s = run[i];
            let o = s.regs[m.dest].op_id->0;
            let x = s.written[o].2;
            let pair = (s.written[o].0, s.written[o].1);
            ||| x == data
            ||| exists|w: u128|
                #[trigger] s.requests.contains_key(w) && s.requests[w] == (ClientContentView::Write {
                    data: x,
                }) && !s.started[c].contains(w)
            ||| s.recovered.contains_key(pair) && s.recovered[pair] == x && newer(
                pair.0,
                pair.1,
                s.written[c].0,
                s.written[c].1,
            )
        }),
{
    lemma_read_after_completed_write(run, i, m, c, data);
    lemma_completion(run, i, m);
    lemma_run_inv(run, i);
    let s = run[i];
    let o = s.regs[m.dest].op_id->0;
    let x = s.written[o].2;
    let pair = (s.written[o].0, s.written[o].1);
    if x != data {
        assert(law_inv(s, o));
        assert(s.values.contains_key(pair));
        if !(s.recovered.contains_key(pair) && s.recovered[pair] == s.values[pair]) {
            let w = choose|w: u128|
                #[trigger] s.written.contains_key(w) && s.requests[w] is Write && (
                s.written[w].0,
                s.written[w].1,
            ) == pair;
            assert(law_inv(s, w));
            assert(law_inv(s, c));
            assert(s.written.contains_key(c));
            if s.started[c].contains(w) {
                assert(pair_le(s.written[w].0, s.written[w].1, s.written[c].0, s.written[c].1));
            }
            assert(s.requests.contains_key(w));
        }
    }
}

/// In a run whose registers were all recovered with the same sector, a
/// read started after a write of `data` completed hands back `data` or the
/// data of a write that had not completed when the write of `data` started.
pub proof fn lemma_read_after_write_from_recovery(
    run: Seq<SystemView>,
    i: int,
    m: Message,
    c: u128,
    data: Seq<u8>,
    n: u8,
    sector_idx: SectorIdx,
    ts: u64,
    wr: u8,
    val: Seq<u8>,
)
    requires
        is_run(run),
        run[0] == recovered_system(n, sector_idx, ts, wr, val),
        0 <= i < run.len(),
        can_deliver(run[i], m),
        completes(run[i], m),
        run[i].regs[m.dest].reading,
        run[i].started[run[i].regs[m.dest].op_id->0].contains(c),
        run[i].requests[c] == (ClientContentView::Write { data }),
    ensures
        ({
            let s = run[i];
            let x = s.written[s.regs[m.dest].op_id->0].2;
            ||| x == data
            ||| exists|w: u128|
                #[trigger] s.requests.contains_key(w) && s.requests[w] == (ClientContentView::Write {
                    data: x,
                }) && !s.started[c].contains(w)
        }),
{
    lemma_read_returns_written_data(run, i, m, c, data);
    lemma_completion(run, i, m);
    lemma_run_inv(run, i);
    lemma_run_extends(run, 0, i);
    let s = run[i];
    let o = s.regs[m.dest].op_id->0;
    let pair = (s.written[o].0, s.written[o].1);
    lemma_later_operation_is_no_older(run, i, o, c);
    assert(law_inv(s, c));
    if s.recovered.contains_key(pair) {
        assert(run[0].recovered.contains_key(pair));
        assert(pair == (ts, wr));
    }
}

/// An operation completes at most once in a run.
pub proof fn lemma_completes_at_most_once(
    run: Seq<SystemView>,
    i: int,
    mi: Message,
    j: int,
    mj: Message,
)
    requires
        is_run(run),
        0 <= i < j < run.len(),
        can_deliver(run[i], mi),
        completes(run[i], mi),
        run[i + 1] == deliver(run[i], mi),
        can_deliver(run[j], mj),
        completes(run[j], mj),
    ensures
        run[i].regs[mi.dest].op_id != run[j].regs[mj.dest].op_id,
{
    lemma_completion(run, i, mi);
    lemma_completion(run, j, mj);
    lemma_run_extends(run, i + 1, j);
    let o = run[i].regs[mi.dest].op_id->0;
    assert(run[i + 1].acked.dom().contains(o));
}

} // verus!

//! The data plane: listeners, workers and connection dispatch.
//!
//! Every worker owns its sockets, its log buffers and its connection state, and shares
//! nothing on the request path. Forking, binding and waiting are the caller's; what to
//! bind, whom to signal and what to start again is decided here.

use vstd::prelude::*;
use vstd::string::*;

use crate::bytes;
use crate::config::ListenAddr;
use crate::config::ServerName;
use crate::conn::ReadEvent;

verus! {

// ---------------------------------------------------------------- control signals

/// A control signal to a running master.
#[derive(Debug, Clone, Copy, PartialEq, Eq, Structural)]
pub enum Control {
    /// Fast shutdown.
    Stop,
    /// Graceful shutdown.
    Quit,
    Reload,
    Reopen,
}

/// Why a signal cannot be sent.
#[derive(Debug, Clone, Copy, PartialEq, Eq, Structural)]
pub enum SignalError {
    InvalidOption,
    InvalidPid,
}

/// The signal a name stands for.
pub open spec fn control_of(name: Seq<u8>) -> Option<Control> {
    if name == bytes::utf8("stop"@) {
        Some(Control::Stop)
    } else if name == bytes::utf8("quit"@) {
        Some(Control::Quit)
    } else if name == bytes::utf8("reload"@) {
        Some(Control::Reload)
    } else if name == bytes::utf8("reopen"@) {
        Some(Control::Reopen)
    } else {
        None
    }
}

/// Reads the name of a control signal.
pub fn control(name: &[u8]) -> (r: Option<Control>)
    ensures
        r == control_of(name@),
{
    if bytes::is_text(name, "stop") {
        Some(Control::Stop)
    } else if bytes::is_text(name, "quit") {
        Some(Control::Quit)
    } else if bytes::is_text(name, "reload") {
        Some(Control::Reload)
    } else if bytes::is_text(name, "reopen") {
        Some(Control::Reopen)
    } else {
        None
    }
}

/// The number signed decimal text spells, where it fits 32 bits.
pub open spec fn signed(s: Seq<u8>) -> Option<int> {
    if s.len() > 0 && s[0] == 45 {
        let digits = s.subrange(1, s.len() as int);
        if digits.len() > 0 && digits[0] != 43 {
            match bytes::unsigned_within(digits, 0x8000_0000) {
                Some(n) => Some(-(n as int)),
                None => None,
            }
        } else {
            None
        }
    } else {
        match bytes::unsigned_within(s, 0x7fff_ffff) {
            Some(n) => Some(n as int),
            None => None,
        }
    }
}

fn parse_signed(s: &[u8]) -> (r: Option<i32>)
    ensures
        match r {
            Some(n) => signed(s@) == Some(n as int),
            None => signed(s@) is None,
        },
{
    if s.len() > 0 && s[0] == 45 {
        let digits: &[u8] = &s[1..s.len()];
        if digits.len() > 0 && digits[0] != 43 {
            match bytes::parse_unsigned(digits, 0x8000_0000) {
                Some(n) => {
                    let v: i64 = -(n as i64);
                    Some(v as i32)
                },
                None => None,
            }
        } else {
            None
        }
    } else {
        match bytes::parse_unsigned(s, 0x7fff_ffff) {
            Some(n) => Some(n as i32),
            None => None,
        }
    }
}

/// Decides what to send to a running master, and to which process: the pid file names
/// it.
pub fn signal_master(name: &[u8], pid_file: &[u8]) -> (r: Result<(Control, i32), SignalError>)
    ensures
        match r {
            Ok((c, pid)) => control_of(name@) == Some(c) && signed(bytes::trimmed(pid_file@))
                == Some(pid as int),
            Err(SignalError::InvalidOption) => control_of(name@) is None,
            Err(SignalError::InvalidPid) => control_of(name@) is Some && signed(
                bytes::trimmed(pid_file@),
            ) is None,
        },
{
    match control(name) {
        None => Err(SignalError::InvalidOption),
        Some(c) => match parse_signed(bytes::trim(pid_file)) {
            Some(pid) => Ok((c, pid)),
            None => Err(SignalError::InvalidPid),
        },
    }
}

// ---------------------------------------------------------------- generations

/// A listener of a configuration.
#[derive(Debug)]
pub struct Listen {
    pub addr: ListenAddr,
    pub reuseport: bool,
}

/// A listener of the configuration before, and whether the master holds its socket.
#[derive(Debug)]
pub struct Held {
    pub addr: ListenAddr,
    pub bound: bool,
}

/// Where the socket of a listener comes from.
#[derive(Debug, Clone, Copy, PartialEq, Eq, Structural)]
pub enum SocketPlan {
    /// Each worker binds its own.
    PerWorker,
    /// The one that the configuration before holds, by its place there.
    Take(usize),
    Bind,
}

/// Whether two addresses are the same.
pub open spec fn same_addr(a: ListenAddr, b: ListenAddr) -> bool {
    match (a, b) {
        (ListenAddr::Tcp(x), ListenAddr::Tcp(y)) => x@ == y@,
        (ListenAddr::Unix(x), ListenAddr::Unix(y)) => x@ == y@,
        _ => false,
    }
}

fn is_same_addr(a: &ListenAddr, b: &ListenAddr) -> (r: bool)
    ensures
        r == same_addr(*a, *b),
{
    match (a, b) {
        (ListenAddr::Tcp(x), ListenAddr::Tcp(y)) => bytes::same(x.as_slice(), y.as_slice()),
        (ListenAddr::Unix(x), ListenAddr::Unix(y)) => bytes::same(x.as_slice(), y.as_slice()),
        _ => false,
    }
}

/// The place of the first listener of an address, from the `i`th on, or the length.
pub open spec fn held_place(held: Seq<Held>, a: ListenAddr, i: int) -> int
    decreases held.len() - i,
{
    if i < 0 || i >= held.len() {
        held.len() as int
    } else if same_addr(held[i].addr, a) {
        i
    } else {
        held_place(held, a, i + 1)
    }
}

/// Where the socket of a listener comes from. A port that is still held cannot be bound
/// again, so an address that has not changed keeps its socket.
pub open spec fn planned(l: Listen, held: Seq<Held>, per_worker: bool) -> SocketPlan {
    let i = held_place(held, l.addr, 0);
    if per_worker && l.reuseport {
        SocketPlan::PerWorker
    } else if 0 <= i < held.len() && held[i].bound {
        SocketPlan::Take(i as usize)
    } else {
        SocketPlan::Bind
    }
}

/// Plans the sockets of a configuration. `per_worker` tells whether the system lets each
/// worker bind its own.
pub fn plan_sockets(ls: &Vec<Listen>, held: &Vec<Held>, per_worker: bool) -> (r: Vec<SocketPlan>)
    ensures
        r@.len() == ls@.len(),
        forall|k: int|
            0 <= k < r@.len() ==> (#[trigger] r@[k]) == planned(ls@[k], held@, per_worker),
{
    let mut out: Vec<SocketPlan> = Vec::new();
    for i in 0..ls.len()
        invariant
            out@.len() == i,
            forall|k: int|
                0 <= k < i ==> (#[trigger] out@[k]) == planned(ls@[k], held@, per_worker),
    {
        out.push(plan_socket(&ls[i], held, per_worker));
    }
    out
}

fn plan_socket(l: &Listen, held: &Vec<Held>, per_worker: bool) -> (r: SocketPlan)
    ensures
        r == planned(*l, held@, per_worker),
{
    if per_worker && l.reuseport {
        return SocketPlan::PerWorker;
    }
    for i in 0..held.len()
        invariant
            !(per_worker && l.reuseport),
            held_place(held@, l.addr, 0) == held_place(held@, l.addr, i as int),
    {
        if is_same_addr(&held[i].addr, &l.addr) {
            if held[i].bound {
                return SocketPlan::Take(i);
            }
            return SocketPlan::Bind;
        }
    }
    SocketPlan::Bind
}

proof fn lemma_held_place(held: Seq<Held>, a: ListenAddr, i: int)
    requires
        0 <= i <= held.len(),
    ensures
        i <= held_place(held, a, i) <= held.len(),
        held_place(held, a, i) < held.len() ==> same_addr(held[held_place(held, a, i)].addr, a),
        forall|k: int| i <= k < held_place(held, a, i) ==> !same_addr((#[trigger] held[k]).addr, a),
    decreases held.len() - i,
{
    if i < held.len() && !same_addr(held[i].addr, a) {
        lemma_held_place(held, a, i + 1);
    }
}

/// A reload never binds an address whose socket is still held.
pub proof fn law_held_ports_are_not_bound_again(l: Listen, held: Seq<Held>, per_worker: bool)
    requires
        planned(l, held, per_worker) == SocketPlan::Bind,
        forall|i: int, j: int|
            0 <= i < j < held.len() ==> !same_addr(
                (#[trigger] held[i]).addr,
                (#[trigger] held[j]).addr,
            ),
    ensures
        forall|k: int|
            0 <= k < held.len() && same_addr((#[trigger] held[k]).addr, l.addr) ==> !held[k].bound,
{
    lemma_held_place(held, l.addr, 0);
    let p = held_place(held, l.addr, 0);
    assert forall|k: int|
        0 <= k < held.len() && same_addr((#[trigger] held[k]).addr, l.addr) implies !held[k].bound by {
        assert(p <= k);
        if p < k {
            assert(same_addr(held[p].addr, held[k].addr));
        }
    }
}

/// Whether a configuration serves anything. One with only a `stream` block is a pure
/// layer 4 proxy.
pub fn serves_anything(has_http: bool, has_stream: bool) -> (r: bool)
    ensures
        r == (has_http || has_stream),
{
    has_http || has_stream
}

/// The core a worker is pinned to, by its place.
pub fn core_for(worker: usize, cores: usize) -> (r: Option<usize>)
    ensures
        r == if cores == 0 {
            None
        } else {
            Some((worker as int % cores as int) as usize)
        },
{
    if cores == 0 {
        None
    } else {
        Some(worker % cores)
    }
}

/// Whether workers are processes: unless there is only one, the system has no `fork`, or
/// threads were asked for.
pub fn run(workers: usize, can_fork: bool, wants_threads: bool) -> (r: bool)
    ensures
        r == (workers > 1 && can_fork && !wants_threads),
{
    workers > 1 && can_fork && !wants_threads
}

/// Where the connection numbers of a worker process start: each of 256 workers has a range
/// of its own, and those behind them share the ranges in turn.
pub fn first_conn_id(worker: usize) -> (r: u64)
    ensures
        r == (worker as int % 256) * 0x100_0000_0000_0000,
{
    (worker % 256) as u64 * 0x100_0000_0000_0000
}

// ---------------------------------------------------------------- supervision

/// A worker process.
#[derive(Debug, Clone, Copy, PartialEq, Eq, Structural)]
pub struct Child {
    pub pid: i32,
    pub worker: usize,
}

/// The processes a master looks after.
#[derive(Debug)]
pub struct Supervisor {
    pub children: Vec<Child>,
    /// Workers of a superseded configuration. They are draining, and must not be started
    /// again when they exit.
    pub retiring: Vec<i32>,
    pub stopping: bool,
}

/// The processes as plain values.
#[verifier::ext_equal]
pub ghost struct SupervisorView {
    pub children: Seq<Child>,
    pub retiring: Seq<i32>,
    pub stopping: bool,
}

impl View for Supervisor {
    type V = SupervisorView;

    open spec fn view(&self) -> SupervisorView {
        SupervisorView {
            children: self.children@,
            retiring: self.retiring@,
            stopping: self.stopping,
        }
    }
}

/// What waiting for a process came to.
#[derive(Debug, Clone, Copy, PartialEq, Eq, Structural)]
pub enum Waited {
    Exited(i32),
    /// A signal arrived.
    Interrupted,
    /// There is no process left to wait for.
    NoChildren,
    Failed,
}

/// What the signals that arrived since the last look ask of a master.
#[derive(Debug)]
pub struct Signals {
    /// The processes to tell to open their logs anew.
    pub reopen: Vec<i32>,
    /// Whether to read the configuration again, and then to look for signals once more
    /// before waiting.
    pub reload: bool,
}

/// What a master does next.
#[derive(Debug, Clone, Copy, PartialEq, Eq, Structural)]
pub enum MasterStep {
    /// Wait again.
    Wait,
    /// Start this worker again, after a pause.
    Respawn(usize),
    /// Tell every process to finish, wait for all of them, and end.
    QuitAll,
    End,
    Fail,
}

/// The place of a process among the children, from the `i`th on, or the length.
pub open spec fn child_place(cs: Seq<Child>, pid: i32, i: int) -> int
    decreases cs.len() - i,
{
    if i < 0 || i >= cs.len() {
        cs.len() as int
    } else if cs[i].pid == pid {
        i
    } else {
        child_place(cs, pid, i + 1)
    }
}

/// The place of a process among the retiring, from the `i`th on, or the length.
pub open spec fn retiring_place(ps: Seq<i32>, pid: i32, i: int) -> int
    decreases ps.len() - i,
{
    if i < 0 || i >= ps.len() {
        ps.len() as int
    } else if ps[i] == pid {
        i
    } else {
        retiring_place(ps, pid, i + 1)
    }
}

/// A list without the `i`th item, whose place the last one takes.
pub open spec fn taken_out<A>(s: Seq<A>, i: int) -> Seq<A> {
    s.update(i, s.last()).drop_last()
}

/// What follows what waiting came to. A retiring worker that finishes is the expected end
/// of a reload; one that dies out from under us is started again, unless the master is
/// stopping.
pub open spec fn supervised(s: SupervisorView, w: Waited) -> (SupervisorView, MasterStep) {
    match w {
        Waited::Interrupted => if s.stopping {
            (s, MasterStep::QuitAll)
        } else {
            (s, MasterStep::Wait)
        },
        Waited::NoChildren => (s, MasterStep::End),
        Waited::Failed => (s, MasterStep::Fail),
        Waited::Exited(pid) => {
            let r = retiring_place(s.retiring, pid, 0);
            let c = child_place(s.children, pid, 0);
            if 0 <= r < s.retiring.len() {
                (SupervisorView { retiring: taken_out(s.retiring, r), ..s }, MasterStep::Wait)
            } else if 0 <= c < s.children.len() {
                let left = SupervisorView { children: taken_out(s.children, c), ..s };
                if s.stopping {
                    if left.children.len() == 0 && left.retiring.len() == 0 {
                        (left, MasterStep::End)
                    } else {
                        (left, MasterStep::Wait)
                    }
                } else {
                    (left, MasterStep::Respawn(s.children[c].worker))
                }
            } else {
                (s, MasterStep::Wait)
            }
        },
    }
}

/// Every process there is: those that serve and those that drain.
pub open spec fn pids_of(s: SupervisorView) -> Seq<i32> {
    s.children.map_values(|c: Child| c.pid) + s.retiring
}

/// The processes once a reload came to something. The old workers only start draining
/// once the new ones exist; a configuration that cannot be used changes nothing.
pub open spec fn reloaded(s: SupervisorView, fresh: Option<Seq<Child>>) -> SupervisorView {
    match fresh {
        Some(cs) => SupervisorView {
            children: cs,
            retiring: s.retiring + s.children.map_values(|c: Child| c.pid),
            ..s
        },
        None => s,
    }
}

impl Supervisor {
    /// The processes of a master that has started its workers.
    pub fn new(children: Vec<Child>) -> (r: Supervisor)
        ensures
            r@ == (SupervisorView {
                children: children@,
                retiring: Seq::empty(),
                stopping: false,
            }),
    {
        Supervisor { children, retiring: Vec::new(), stopping: false }
    }

    fn find_child(&self, pid: i32) -> (r: Option<usize>)
        ensures
            match r {
                Some(i) => i < self.children@.len() && child_place(self.children@, pid, 0) == i,
                None => child_place(self.children@, pid, 0) == self.children@.len(),
            },
    {
        for i in 0..self.children.len()
            invariant
                child_place(self.children@, pid, 0) == child_place(
                    self.children@,
                    pid,
                    i as int,
                ),
        {
            if self.children[i].pid == pid {
                return Some(i);
            }
        }
        None
    }

    fn find_retiring(&self, pid: i32) -> (r: Option<usize>)
        ensures
            match r {
                Some(i) => i < self.retiring@.len() && retiring_place(self.retiring@, pid, 0) == i,
                None => retiring_place(self.retiring@, pid, 0) == self.retiring@.len(),
            },
    {
        for i in 0..self.retiring.len()
            invariant
                retiring_place(self.retiring@, pid, 0) == retiring_place(
                    self.retiring@,
                    pid,
                    i as int,
                ),
        {
            if self.retiring[i] == pid {
                return Some(i);
            }
        }
        None
    }

    /// Takes note of the signals that arrived: whether one says to stop, and how many say
    /// to reload and to open the logs anew. A master that stops does not reload.
    pub fn signalled(&mut self, stop: bool, reloads: u32, reopens: u32) -> (r: Signals)
        ensures
            final(self)@ == (SupervisorView { stopping: stop, ..old(self)@ }),
            r.reload == (reloads > 0 && !stop),
            r.reopen@ == if reopens > 0 {
                pids_of(old(self)@)
            } else {
                Seq::empty()
            },
    {
        self.stopping = stop;
        let reopen: Vec<i32> = if reopens > 0 {
            self.everyone()
        } else {
            Vec::new()
        };
        Signals { reopen, reload: reloads > 0 && !stop }
    }

    /// Takes note of what waiting came to, and says what to do.
    pub fn waited(&mut self, w: Waited) -> (r: MasterStep)
        ensures
            (final(self)@, r) == supervised(old(self)@, w),
    {
        match w {
            Waited::Interrupted => if self.stopping {
                MasterStep::QuitAll
            } else {
                MasterStep::Wait
            },
            Waited::NoChildren => MasterStep::End,
            Waited::Failed => MasterStep::Fail,
            Waited::Exited(pid) => {
                if let Some(i) = self.find_retiring(pid) {
                    self.retiring.swap_remove(i);
                    return MasterStep::Wait;
                }
                match self.find_child(pid) {
                    None => MasterStep::Wait,
                    Some(i) => {
                        let c: Child = self.children.swap_remove(i);
                        if self.stopping {
                            if self.children.len() == 0 && self.retiring.len() == 0 {
                                MasterStep::End
                            } else {
                                MasterStep::Wait
                            }
                        } else {
                            MasterStep::Respawn(c.worker)
                        }
                    },
                }
            },
        }
    }

    /// Takes note of a worker that was started again.
    pub fn respawned(&mut self, pid: i32, worker: usize)
        ensures
            final(self)@ == (SupervisorView {
                children: old(self)@.children.push(Child { pid, worker }),
                ..old(self)@
            }),
    {
        self.children.push(Child { pid, worker });
    }

    /// Takes note of what a reload came to, and returns the processes to tell to finish.
    pub fn reload(&mut self, fresh: Option<Vec<Child>>) -> (r: Vec<i32>)
        ensures
            final(self)@ == reloaded(
                old(self)@,
                match fresh {
                    Some(cs) => Some(cs@),
                    None => None,
                },
            ),
            r@ == match fresh {
                Some(_) => old(self)@.children.map_values(|c: Child| c.pid),
                None => Seq::empty(),
            },
    {
        let mut quit: Vec<i32> = Vec::new();
        if let Some(cs) = fresh {
            let ghost before = self@;
            let ghost pids = before.children.map_values(|c: Child| c.pid);
            let n: usize = self.children.len();
            for i in 0..n
                invariant
                    n == self.children@.len(),
                    self.children@ == before.children,
                    self.stopping == before.stopping,
                    pids == before.children.map_values(|c: Child| c.pid),
                    quit@ == pids.subrange(0, i as int),
                    self.retiring@ == before.retiring + pids.subrange(0, i as int),
            {
                let p: i32 = self.children[i].pid;
                quit.push(p);
                self.retiring.push(p);
                assert(quit@ =~= pids.subrange(0, i + 1));
                assert(self.retiring@ =~= before.retiring + pids.subrange(0, i + 1));
            }
            assert(pids.subrange(0, n as int) =~= pids);
            self.children = cs;
        }
        quit
    }

    /// Every process there is: those that serve and those that drain.
    pub fn everyone(&self) -> (r: Vec<i32>)
        ensures
            r@ == pids_of(self@),
    {
        let mut out: Vec<i32> = Vec::new();
        let ghost pids = self.children@.map_values(|c: Child| c.pid);
        for i in 0..self.children.len()
            invariant
                pids == self.children@.map_values(|c: Child| c.pid),
                out@ == pids.subrange(0, i as int),
        {
            out.push(self.children[i].pid);
            assert(out@ =~= pids.subrange(0, i + 1));
        }
        for i in 0..self.retiring.len()
            invariant
                pids == self.children@.map_values(|c: Child| c.pid),
                out@ == pids + self.retiring@.subrange(0, i as int),
        {
            out.push(self.retiring[i]);
            assert(out@ =~= pids + self.retiring@.subrange(0, i + 1));
        }
        assert(self.retiring@.subrange(0, self.retiring@.len() as int) =~= self.retiring@);
        out
    }
}

/// The numbers of the workers that serve.
pub open spec fn workers_of(cs: Seq<Child>) -> Seq<usize> {
    cs.map_values(|c: Child| c.worker)
}

/// A worker that dies is started again, as long as the master is not stopping: the same
/// workers serve as before, each as often.
pub proof fn law_dead_workers_come_back(s: SupervisorView, pid: i32, fresh: i32)
    requires
        !s.stopping,
        child_place(s.children, pid, 0) < s.children.len(),
        retiring_place(s.retiring, pid, 0) == s.retiring.len(),
    ensures
        ({
            let worker = s.children[child_place(s.children, pid, 0)].worker;
            let (left, step) = supervised(s, Waited::Exited(pid));
            let back = left.children.push(Child { pid: fresh, worker });
            &&& step == MasterStep::Respawn(worker)
            &&& left.retiring == s.retiring
            &&& workers_of(back).to_multiset() == workers_of(s.children).to_multiset()
        }),
{
    broadcast use vstd::seq_lib::group_to_multiset_ensures;

    lemma_child_place(s.children, pid, 0);
    let cs = s.children;
    let c = child_place(cs, pid, 0);
    let worker = cs[c].worker;
    let back = taken_out(cs, c).push(Child { pid: fresh, worker });
    let before = workers_of(cs);
    let moved = before.update(c, before.last());
    assert(workers_of(back) =~= moved.update(cs.len() - 1, worker));
    if c == cs.len() - 1 {
        assert(workers_of(back) =~= before);
    } else {
        lemma_swapped(before, c, cs.len() - 1);
        assert(workers_of(back) =~= before.update(c, before[cs.len() - 1]).update(
            cs.len() - 1,
            before[c],
        ));
    }
}

/// Two items that change places leave the same items.
proof fn lemma_swapped(s: Seq<usize>, i: int, j: int)
    requires
        0 <= i < s.len(),
        0 <= j < s.len(),
        i != j,
    ensures
        s.update(i, s[j]).update(j, s[i]).to_multiset() == s.to_multiset(),
{
    broadcast use vstd::seq_lib::group_to_multiset_ensures;

    vstd::seq_lib::to_multiset_update(s, i, s[j]);
    vstd::seq_lib::to_multiset_update(s.update(i, s[j]), j, s[i]);
    assert(s.update(i, s[j]).update(j, s[i]).to_multiset() =~= s.to_multiset());
}

proof fn lemma_child_place(cs: Seq<Child>, pid: i32, i: int)
    requires
        0 <= i <= cs.len(),
    ensures
        i <= child_place(cs, pid, i) <= cs.len(),
        child_place(cs, pid, i) < cs.len() ==> cs[child_place(cs, pid, i)].pid == pid,
    decreases cs.len() - i,
{
    if i < cs.len() && cs[i].pid != pid {
        lemma_child_place(cs, pid, i + 1);
    }
}

/// A retiring worker is never started again.
pub proof fn law_retiring_workers_stay_gone(s: SupervisorView, pid: i32)
    requires
        0 <= retiring_place(s.retiring, pid, 0) < s.retiring.len(),
    ensures
        !(supervised(s, Waited::Exited(pid)).1 is Respawn),
        supervised(s, Waited::Exited(pid)).0.children == s.children,
{
}

/// A reload that fails costs nothing.
pub proof fn law_a_failed_reload_changes_nothing(s: SupervisorView)
    ensures
        reloaded(s, None) == s,
{
}

/// A stopping master starts nothing.
pub proof fn law_a_stopping_master_starts_nothing(s: SupervisorView, w: Waited)
    requires
        s.stopping,
    ensures
        !(supervised(s, w).1 is Respawn),
{
}

/// Whether a master looks after a process.
pub open spec fn is_looked_after(s: SupervisorView, pid: i32) -> bool {
    pids_of(s).contains(pid)
}

/// No process is lost sight of but the one that ended.
pub proof fn law_no_process_is_lost(s: SupervisorView, w: Waited, pid: i32)
    requires
        is_looked_after(s, pid),
        w != Waited::Exited(pid),
    ensures
        is_looked_after(supervised(s, w).0, pid),
{
    let after = supervised(s, w).0;
    let i = pids_of(s).index_of(pid);
    let n = s.children.len() as int;
    let (p, q) = (pids_of(s), pids_of(after));
    assert(p[i] == pid);
    match w {
        Waited::Exited(gone) => {
            lemma_child_place(s.children, gone, 0);
            lemma_retiring_place(s.retiring, gone, 0);
            let r = retiring_place(s.retiring, gone, 0);
            let c = child_place(s.children, gone, 0);
            let m = s.retiring.len() as int;
            if r < m {
                if i == n + m - 1 {
                    assert(r != m - 1);
                    assert(q[n + r] == pid);
                } else {
                    assert(q[i] == pid);
                }
            } else if c < n {
                if i >= n {
                    assert(q[i - 1] == pid);
                } else if i == n - 1 {
                    assert(c != n - 1);
                    assert(q[c] == pid);
                } else {
                    assert(q[i] == pid);
                }
            }
        },
        _ => {},
    }
}

/// A reload loses sight of no process either: the workers that served before drain.
pub proof fn law_a_reload_loses_no_process(s: SupervisorView, fresh: Option<Seq<Child>>, pid: i32)
    requires
        is_looked_after(s, pid),
    ensures
        is_looked_after(reloaded(s, fresh), pid),
{
    let i = pids_of(s).index_of(pid);
    assert(pids_of(s)[i] == pid);
    if let Some(cs) = fresh {
        let q = pids_of(reloaded(s, fresh));
        if i < s.children.len() {
            assert(q[cs.len() + s.retiring.len() + i] == pid);
        } else {
            assert(q[cs.len() + i - s.children.len()] == pid);
        }
    }
}

proof fn lemma_retiring_place(ps: Seq<i32>, pid: i32, i: int)
    requires
        0 <= i <= ps.len(),
    ensures
        i <= retiring_place(ps, pid, i) <= ps.len(),
        retiring_place(ps, pid, i) < ps.len() ==> ps[retiring_place(ps, pid, i)] == pid,
    decreases ps.len() - i,
{
    if i < ps.len() && ps[i] != pid {
        lemma_retiring_place(ps, pid, i + 1);
    }
}

// ---------------------------------------------------------------- workers

/// How long a draining worker waits for what it is still doing, in milliseconds.
pub const GRACEFUL_TIMEOUT_MS: u64 = 30000;

/// Whether a worker probes the peers: one is enough where they share what the probes
/// find.
pub fn probes_peers(worker: usize, own_state: bool) -> (r: bool)
    ensures
        r == (worker == 0 || own_state),
{
    worker == 0 || own_state
}

/// Whether a worker prunes the caches. All share the same directory, so one must.
pub fn prunes_caches(worker: usize) -> (r: bool)
    ensures
        r == (worker == 0),
{
    worker == 0
}

/// What a configuration has for its workers to do.
#[derive(Debug)]
pub struct Serving {
    pub listeners: usize,
    /// For each QUIC listener, whether it has a certificate.
    pub quic: Vec<bool>,
    pub udp_listeners: usize,
    pub stream_listeners: usize,
    /// For each upstream group, whether its peers are probed.
    pub checked: Vec<bool>,
    pub cache_zones: usize,
}

/// A task of a worker, with the place of what it serves.
#[derive(Debug, Clone, Copy, PartialEq, Eq, Structural)]
pub enum Task {
    Http(usize),
    Quic(usize),
    Udp(usize),
    Stream(usize),
    Probe(usize),
    Prune(usize),
    FlushLogs,
}

/// The places of the marks that are set, among the first `n`.
pub open spec fn marked(marks: Seq<bool>, n: int) -> Seq<usize>
    decreases n,
{
    if n <= 0 {
        Seq::empty()
    } else if marks[n - 1] {
        marked(marks, n - 1).push((n - 1) as usize)
    } else {
        marked(marks, n - 1)
    }
}

/// The first `n` places.
pub open spec fn places(n: usize) -> Seq<usize> {
    Seq::new(n as nat, |i: int| i as usize)
}

/// The tasks of a worker, in the order they are started. A datagram socket has no queue
/// to share, so every worker has one of its own; what peers and caches need is done once,
/// but for probes where each worker holds what they find for itself.
pub open spec fn tasks_of(worker: usize, own_state: bool, s: Serving) -> Seq<Task> {
    let probed = if worker == 0 || own_state {
        marked(s.checked@, s.checked@.len() as int)
    } else {
        Seq::empty()
    };
    let pruned = if worker == 0 {
        places(s.cache_zones)
    } else {
        Seq::empty()
    };
    places(s.listeners).map_values(|i: usize| Task::Http(i))
        + marked(s.quic@, s.quic@.len() as int).map_values(|i: usize| Task::Quic(i))
        + places(s.udp_listeners).map_values(|i: usize| Task::Udp(i))
        + places(s.stream_listeners).map_values(|i: usize| Task::Stream(i))
        + probed.map_values(|i: usize| Task::Probe(i))
        + pruned.map_values(|i: usize| Task::Prune(i))
        + seq![Task::FlushLogs]
}

/// The places of the marks that are set.
fn places_marked(marks: &Vec<bool>) -> (r: Vec<usize>)
    ensures
        r@ == marked(marks@, marks@.len() as int),
{
    let mut out: Vec<usize> = Vec::new();
    for i in 0..marks.len()
        invariant
            out@ == marked(marks@, i as int),
    {
        if marks[i] {
            out.push(i);
        }
    }
    out
}

/// Says what a worker does.
pub fn worker_tasks(worker: usize, own_state: bool, s: &Serving) -> (r: Vec<Task>)
    ensures
        r@ == tasks_of(worker, own_state, *s),
{
    let mut out: Vec<Task> = Vec::new();
    let ghost http = places(s.listeners).map_values(|i: usize| Task::Http(i));
    for i in 0..s.listeners
        invariant
            http == places(s.listeners).map_values(|i: usize| Task::Http(i)),
            out@ == http.take(i as int),
    {
        out.push(Task::Http(i));
        assert(out@ =~= http.take(i + 1));
    }
    assert(out@ =~= http);
    let quic = places_marked(&s.quic);
    let ghost before = out@;
    let ghost all = quic@.map_values(|i: usize| Task::Quic(i));
    for k in 0..quic.len()
        invariant
            all == quic@.map_values(|i: usize| Task::Quic(i)),
            out@ == before + all.take(k as int),
    {
        out.push(Task::Quic(quic[k]));
        assert(out@ =~= before + all.take(k + 1));
    }
    assert(out@ =~= before + all);
    let ghost before = out@;
    let ghost all = places(s.udp_listeners).map_values(|i: usize| Task::Udp(i));
    for i in 0..s.udp_listeners
        invariant
            all == places(s.udp_listeners).map_values(|i: usize| Task::Udp(i)),
            out@ == before + all.take(i as int),
    {
        out.push(Task::Udp(i));
        assert(out@ =~= before + all.take(i + 1));
    }
    assert(out@ =~= before + all);
    let ghost before = out@;
    let ghost all = places(s.stream_listeners).map_values(|i: usize| Task::Stream(i));
    for i in 0..s.stream_listeners
        invariant
            all == places(s.stream_listeners).map_values(|i: usize| Task::Stream(i)),
            out@ == before + all.take(i as int),
    {
        out.push(Task::Stream(i));
        assert(out@ =~= before + all.take(i + 1));
    }
    assert(out@ =~= before + all);
    let probed: Vec<usize> = if probes_peers(worker, own_state) {
        places_marked(&s.checked)
    } else {
        Vec::new()
    };
    let ghost before = out@;
    let ghost all = probed@.map_values(|i: usize| Task::Probe(i));
    for k in 0..probed.len()
        invariant
            all == probed@.map_values(|i: usize| Task::Probe(i)),
            out@ == before + all.take(k as int),
    {
        out.push(Task::Probe(probed[k]));
        assert(out@ =~= before + all.take(k + 1));
    }
    assert(out@ =~= before + all);
    let zones: usize = if prunes_caches(worker) {
        s.cache_zones
    } else {
        0
    };
    let ghost before = out@;
    let ghost all = places(zones).map_values(|i: usize| Task::Prune(i));
    for i in 0..zones
        invariant
            all == places(zones).map_values(|i: usize| Task::Prune(i)),
            out@ == before + all.take(i as int),
    {
        out.push(Task::Prune(i));
        assert(out@ =~= before + all.take(i + 1));
    }
    assert(out@ =~= before + all);
    assert(places(0) =~= Seq::empty());
    out.push(Task::FlushLogs);
    assert(out@ =~= tasks_of(worker, own_state, *s));
    out
}

/// Whether a worker goes on without a task whose socket could not be had. A listener that
/// every process shares is missed; one on datagrams is reported and left out.
pub fn goes_on_without(t: Task) -> (r: bool)
    ensures
        r == (t is Quic || t is Udp),
{
    matches!(t, Task::Quic(_) | Task::Udp(_))
}

proof fn lemma_marked(marks: Seq<bool>, n: int, k: int)
    requires
        0 <= n <= marks.len() <= usize::MAX,
        0 <= k < n,
    ensures
        marked(marks, n).contains(k as usize) == marks[k],
    decreases n,
{
    broadcast use vstd::seq_lib::group_seq_properties;

    let before = marked(marks, n - 1);
    if k < n - 1 {
        lemma_marked(marks, n - 1, k);
        if marks[n - 1] {
            let last = (n - 1) as usize;
            assert(before.push(last).contains(k as usize) == before.contains(k as usize)) by {
                if before.contains(k as usize) {
                    let j = before.index_of(k as usize);
                    assert(before.push(last)[j] == k as usize);
                }
            }
        }
    } else {
        lemma_marked_bound(marks, n - 1);
        if marks[k] {
            assert(marked(marks, n)[before.len() as int] == k as usize);
        }
    }
}

proof fn lemma_marked_bound(marks: Seq<bool>, n: int)
    requires
        0 <= n <= marks.len() <= usize::MAX,
    ensures
        forall|j: int| 0 <= j < marked(marks, n).len() ==> (#[trigger] marked(marks, n)[j]) < n,
    decreases n,
{
    if n > 0 {
        lemma_marked_bound(marks, n - 1);
        let before = marked(marks, n - 1);
        assert forall|j: int| 0 <= j < marked(marks, n).len() implies (#[trigger] marked(
            marks,
            n,
        )[j]) < n by {
            if j < before.len() {
                assert(marked(marks, n)[j] == before[j]);
            }
        }
    }
}

/// Caches are pruned by one worker, and by one that is always there: the first.
pub proof fn law_one_worker_prunes(worker: usize, own_state: bool, s: Serving, zone: usize)
    requires
        zone < s.cache_zones,
    ensures
        tasks_of(worker, own_state, s).contains(Task::Prune(zone)) == (worker == 0),
{
    let ts = tasks_of(worker, own_state, s);
    let before = ts.len() - 1 - s.cache_zones;
    if worker == 0 {
        assert(ts[before + zone] == Task::Prune(zone));
    }
}

/// Peers that are to be probed are probed by the first worker, and by every worker that
/// holds what the probes find for itself.
pub proof fn law_probes_reach_every_state(worker: usize, own_state: bool, s: Serving, group: usize)
    requires
        group < s.checked@.len(),
    ensures
        tasks_of(worker, own_state, s).contains(Task::Probe(group)) == (s.checked@[group as int]
            && (worker == 0 || own_state)),
{
    let ts = tasks_of(worker, own_state, s);
    let m = marked(s.checked@, s.checked@.len() as int);
    assert(s.checked.len() == s.checked@.len());
    lemma_marked(s.checked@, s.checked@.len() as int, group as int);
    let zones = if worker == 0 {
        s.cache_zones as int
    } else {
        0
    };
    if worker == 0 || own_state {
        let before = ts.len() - 1 - zones - m.len();
        if m.contains(group) {
            let j = m.index_of(group);
            assert(ts[before + j] == Task::Probe(group));
        }
        if ts.contains(Task::Probe(group)) {
            let j = ts.index_of(Task::Probe(group));
            assert(m[j - before] == group);
        }
    }
}

/// How often a cache is pruned, in milliseconds: a fraction of `inactive`, within bounds.
pub fn sweep_interval(inactive_ms: u64) -> (r: u64)
    ensures
        r == ({
            let tenth = inactive_ms as int / 10;
            if tenth < 10000 {
                10000
            } else if tenth > 300000 {
                300000
            } else {
                tenth
            }
        }),
        10000 <= r <= 300000,
{
    let tenth: u64 = inactive_ms / 10;
    if tenth < 10000 {
        10000
    } else if tenth > 300000 {
        300000
    } else {
        tenth
    }
}

/// A signal a worker gets.
#[derive(Debug, Clone, Copy, PartialEq, Eq, Structural)]
pub enum WorkerSignal {
    Quit,
    Terminate,
    Interrupt,
    /// Open the log files anew.
    Reopen,
}

/// What ends the run of a worker.
#[derive(Debug, Clone, Copy, PartialEq, Eq, Structural)]
pub enum StopKind {
    Now,
    Graceful,
}

/// How a worker stops on a signal, if it does.
pub open spec fn stop_for(s: WorkerSignal) -> Option<StopKind> {
    match s {
        WorkerSignal::Quit => Some(StopKind::Graceful),
        WorkerSignal::Terminate => Some(StopKind::Now),
        WorkerSignal::Interrupt => Some(StopKind::Now),
        WorkerSignal::Reopen => None,
    }
}

/// Decides what a signal means to a worker. Opening logs anew does not end its run.
pub fn shutdown_signal(s: WorkerSignal) -> (r: Option<StopKind>)
    ensures
        r == stop_for(s),
{
    match s {
        WorkerSignal::Quit => Some(StopKind::Graceful),
        WorkerSignal::Terminate => Some(StopKind::Now),
        WorkerSignal::Interrupt => Some(StopKind::Now),
        WorkerSignal::Reopen => None,
    }
}

/// Whether a draining worker waits on: requests are under way and there is time left.
pub fn drains(live_requests: u64, now_ms: u64, deadline_ms: u64) -> (r: bool)
    ensures
        r == (live_requests > 0 && now_ms < deadline_ms),
{
    live_requests > 0 && now_ms < deadline_ms
}

/// Requests being handled by this process. An idle connection has nothing to lose by
/// being closed, so requests are counted, not connections.
#[derive(Debug)]
pub struct LiveRequests {
    pub count: u64,
}

impl LiveRequests {
    /// A request begins.
    pub fn enter(&mut self)
        requires
            old(self).count < u64::MAX,
        ensures
            final(self).count == old(self).count + 1,
    {
        self.count = self.count + 1;
    }

    /// A request is over.
    pub fn leave(&mut self)
        requires
            old(self).count > 0,
        ensures
            final(self).count == old(self).count - 1,
    {
        self.count = self.count - 1;
    }
}

// ---------------------------------------------------------------- accepting

/// Why a connection could not be accepted.
#[derive(Debug, Clone, Copy, PartialEq, Eq, Structural)]
pub enum AcceptFailure {
    /// The client went away before it was accepted.
    Aborted,
    Interrupted,
    Other,
}

/// Whether a failed accept is logged and waited out: running out of descriptors would
/// otherwise spin the loop.
pub fn is_serious(e: AcceptFailure) -> (r: bool)
    ensures
        r == (e == AcceptFailure::Other),
{
    e == AcceptFailure::Other
}

/// How a connection is served.
#[derive(Debug, Clone, Copy, PartialEq, Eq, Structural)]
pub enum Protocol {
    Http1,
    Http2,
    /// Look at the first bytes.
    Peek,
}

/// Decides how a connection is served. What a TLS handshake agreed on is final; without
/// one, a client either knows that we speak HTTP/2 or does not.
pub fn protocol(tls: bool, alpn: Option<&[u8]>, http2: bool) -> (r: Protocol)
    ensures
        r == if tls {
            if alpn matches Some(a) && a@ == bytes::utf8("h2"@) {
                Protocol::Http2
            } else {
                Protocol::Http1
            }
        } else if http2 {
            Protocol::Peek
        } else {
            Protocol::Http1
        },
{
    if tls {
        match alpn {
            Some(a) => if bytes::is_text(a, "h2") {
                Protocol::Http2
            } else {
                Protocol::Http1
            },
            None => Protocol::Http1,
        }
    } else if http2 {
        Protocol::Peek
    } else {
        Protocol::Http1
    }
}

/// What an HTTP/2 client opens a connection with.
pub open spec fn preface() -> Seq<u8> {
    bytes::utf8("PRI * HTTP/2.0\r\n\r\nSM\r\n\r\n"@)
}

/// What the first bytes on a connection turn out to be.
#[derive(Debug, Clone, Copy, PartialEq, Eq, Structural)]
pub enum Peeked {
    Http2,
    /// Not HTTP/2. The bytes read are the start of a request.
    Http1,
    /// It cannot be told yet: read up to this many bytes more.
    Read(usize),
}

/// What bytes turn out to be. Only what is at hand is compared: a client that dribbles
/// the preface a byte at a time is not mistaken.
pub open spec fn peeked(buf: Seq<u8>) -> Peeked {
    let p = preface();
    let have = if buf.len() < p.len() {
        buf.len() as int
    } else {
        p.len() as int
    };
    if buf.subrange(0, have) != p.subrange(0, have) {
        Peeked::Http1
    } else if buf.len() >= p.len() {
        Peeked::Http2
    } else {
        Peeked::Read((p.len() - buf.len()) as usize)
    }
}

/// Tells HTTP/2 from HTTP/1 by the first bytes of a connection.
pub fn peek_preface(buf: &[u8]) -> (r: Peeked)
    ensures
        r == peeked(buf@),
{
    let p: &[u8] = "PRI * HTTP/2.0\r\n\r\nSM\r\n\r\n".as_bytes();
    let have: usize = if buf.len() < p.len() {
        buf.len()
    } else {
        p.len()
    };
    if !bytes::same(&buf[0..have], &p[0..have]) {
        return Peeked::Http1;
    }
    if buf.len() >= p.len() {
        Peeked::Http2
    } else {
        Peeked::Read(p.len() - buf.len())
    }
}

/// What a read that was asked for leads to: a close before it could be told is left to
/// HTTP/1 to answer, and a failure ends the connection.
pub fn peek_read(e: ReadEvent) -> (r: Option<bool>)
    ensures
        r == match e {
            ReadEvent::Got(n) => if n == 0 {
                Some(true)
            } else {
                None
            },
            _ => Some(false),
        },
{
    match e {
        ReadEvent::Got(n) => if n == 0 {
            Some(true)
        } else {
            None
        },
        _ => Some(false),
    }
}

/// A connection that opens with the preface is served as HTTP/2, however it arrived.
pub proof fn law_the_preface_is_recognised(rest: Seq<u8>, cut: int)
    requires
        0 <= cut < preface().len(),
    ensures
        peeked(preface() + rest) == Peeked::Http2,
        peeked(preface().subrange(0, cut)) == Peeked::Read((preface().len() - cut) as usize),
{
    let p = preface();
    assert((p + rest).subrange(0, p.len() as int) =~= p.subrange(0, p.len() as int));
    assert(p.subrange(0, cut).subrange(0, cut) =~= p.subrange(0, cut));
}

// ---------------------------------------------------------------- certificates

/// The names a certificate is served for.
#[derive(Debug)]
pub struct Certificate {
    pub names: Vec<Vec<u8>>,
}

/// The first `n` names of a server that a certificate can be asked for by.
pub open spec fn sni_names(names: Seq<ServerName>, n: int) -> Seq<Seq<u8>>
    decreases n,
{
    if n <= 0 {
        Seq::empty()
    } else {
        let before = sni_names(names, n - 1);
        match names[n - 1] {
            ServerName::Exact(e) => if e@.len() > 0 {
                before.push(e@)
            } else {
                before
            },
            ServerName::LeadingWildcard(x) => before.push(bytes::utf8("*."@) + x@),
            _ => before,
        }
    }
}

/// Lists as plain values.
pub open spec fn name_views(v: Seq<Vec<u8>>) -> Seq<Seq<u8>> {
    v.map_values(|b: Vec<u8>| b@)
}

impl Certificate {
    /// The certificate of a server.
    pub fn of(names: &Vec<ServerName>) -> (r: Certificate)
        ensures
            name_views(r.names@) == sni_names(names@, names@.len() as int),
    {
        let mut out: Vec<Vec<u8>> = Vec::new();
        assert(name_views(out@) =~= Seq::empty());
        for i in 0..names.len()
            invariant
                name_views(out@) == sni_names(names@, i as int),
        {
            let ghost before = name_views(out@);
            match &names[i] {
                ServerName::Exact(e) => {
                    if e.len() > 0 {
                        out.push(bytes::copy(e.as_slice()));
                        assert(name_views(out@) =~= before.push(e@));
                    }
                },
                ServerName::LeadingWildcard(x) => {
                    let mut w: Vec<u8> = bytes::copy("*.".as_bytes());
                    w.extend_from_slice(x.as_slice());
                    assert(w@ == bytes::utf8("*."@) + x@);
                    out.push(w);
                    assert(name_views(out@) =~= before.push(bytes::utf8("*."@) + x@));
                },
                _ => {},
            }
        }
        Certificate { names: out }
    }
}

/// Whether a name of a certificate covers the one a client asks for: a wildcard covers
/// every name below it, and other names do not tell upper from lower case.
pub open spec fn covers(name: Seq<u8>, sni: Seq<u8>) -> bool {
    let star = bytes::utf8("*."@);
    if bytes::starts(name, star) {
        let suffix = name.subrange(star.len() as int, name.len() as int);
        sni.len() > suffix.len() && sni[sni.len() - suffix.len() - 1] == 46 && bytes::ends(
            sni,
            suffix,
        )
    } else {
        bytes::same_name(sni, name)
    }
}

fn is_covered(name: &[u8], sni: &[u8]) -> (r: bool)
    ensures
        r == covers(name@, sni@),
{
    let star: &[u8] = "*.".as_bytes();
    if bytes::starts_with(name, star) {
        let suffix: &[u8] = &name[star.len()..name.len()];
        sni.len() > suffix.len() && sni[sni.len() - suffix.len() - 1] == 46 && bytes::ends_with(
            sni,
            suffix,
        )
    } else {
        bytes::same_ignoring_case(sni, name)
    }
}

/// Whether one of the names covers the one a client asks for, from the `i`th on.
pub open spec fn any_covers(names: Seq<Vec<u8>>, sni: Seq<u8>, i: int) -> bool
    decreases names.len() - i,
{
    if i < 0 || i >= names.len() {
        false
    } else {
        covers(names[i]@, sni) || any_covers(names, sni, i + 1)
    }
}

/// The place of the first certificate for a name, from the `i`th on, or the length.
pub open spec fn cert_place(cs: Seq<Certificate>, sni: Seq<u8>, i: int) -> int
    decreases cs.len() - i,
{
    if i < 0 || i >= cs.len() {
        cs.len() as int
    } else if any_covers(cs[i].names@, sni, 0) {
        i
    } else {
        cert_place(cs, sni, i + 1)
    }
}

/// The certificate a client is shown: the first whose names cover the one it asks for,
/// and else the first of all.
pub open spec fn resolved(cs: Seq<Certificate>, sni: Option<Seq<u8>>) -> Option<int> {
    let first = if cs.len() > 0 {
        Some(0int)
    } else {
        None
    };
    match sni {
        Some(s) => {
            let i = cert_place(cs, s, 0);
            if 0 <= i < cs.len() {
                Some(i)
            } else {
                first
            }
        },
        None => first,
    }
}

/// Chooses the certificate a client is shown, by its place.
pub fn resolve(cs: &Vec<Certificate>, sni: Option<&[u8]>) -> (r: Option<usize>)
    ensures
        match r {
            Some(i) => i < cs@.len() && resolved(
                cs@,
                match sni {
                    Some(s) => Some(s@),
                    None => None,
                },
            ) == Some(i as int),
            None => cs@.len() == 0,
        },
{
    if let Some(s) = sni {
        for i in 0..cs.len()
            invariant
                cert_place(cs@, s@, 0) == cert_place(cs@, s@, i as int),
                sni == Some(s),
        {
            let names: &Vec<Vec<u8>> = &cs[i].names;
            for j in 0..names.len()
                invariant
                    sni == Some(s),
                    i < cs@.len(),
                    names@ == cs@[i as int].names@,
                    cert_place(cs@, s@, 0) == cert_place(cs@, s@, i as int),
                    any_covers(names@, s@, 0) == any_covers(names@, s@, j as int),
            {
                if is_covered(names[j].as_slice(), s) {
                    return Some(i);
                }
            }
        }
    }
    if cs.len() > 0 {
        Some(0)
    } else {
        None
    }
}

/// A client is always shown a certificate, if there is one.
pub proof fn law_there_is_a_default_certificate(cs: Seq<Certificate>, sni: Option<Seq<u8>>)
    requires
        cs.len() > 0,
    ensures
        resolved(cs, sni) is Some,
{
}

/// The protocols a listener offers, in order of preference: HTTP/2 must lead to mean
/// anything.
pub fn alpn_protocols(http2: bool) -> (r: Vec<Vec<u8>>)
    ensures
        name_views(r@) == if http2 {
            seq![bytes::utf8("h2"@), bytes::utf8("http/1.1"@)]
        } else {
            seq![bytes::utf8("http/1.1"@)]
        },
{
    let mut out: Vec<Vec<u8>> = Vec::new();
    if http2 {
        out.push(bytes::copy("h2".as_bytes()));
    }
    out.push(bytes::copy("http/1.1".as_bytes()));
    assert(name_views(out@) =~= if http2 {
        seq![bytes::utf8("h2"@), bytes::utf8("http/1.1"@)]
    } else {
        seq![bytes::utf8("http/1.1"@)]
    });
    out
}

} // verus!

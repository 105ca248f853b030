//! The layer: the supervisor's handle to one loader and all its current
//! workers.  This module is the layer's bookkeeping core — the worker
//! tables, the resolvers installed for each in-flight fork, and the
//! transitions that inbound messages, stop requests and teardown apply to
//! them.  The process, its pipes and the two reader threads live outside
//! the verified library and drive these transitions.

use vstd::prelude::*;

use crate::codec::{int_repr, Message, MessageV};
use crate::mux::{mux_repr, parse_multiplexed_line, MultiplexedLineV, StreamKind};
use crate::resolver::{spec_resolve, Resolver};

verus! {

/// Result from the initial fork of a worker.
#[derive(Debug, Clone, PartialEq)]
pub enum ForkResult {
    /// Fork completed successfully with an optional return value.
    Complete(Option<String>),
    /// Fork failed with an error message.
    Error(String),
}

/// Result from a forked worker process.
#[derive(Debug, Clone, PartialEq)]
pub enum ProcessResult {
    /// Process completed successfully with an optional return value.
    Complete(Option<String>),
    /// Process failed with an error message.
    Error(String),
}

/// The mathematical value of a `ForkResult`.
#[verifier::ext_equal]
pub enum ForkResultV {
    Complete(Option<Seq<char>>),
    Error(Seq<char>),
}

/// The mathematical value of a `ProcessResult`.
#[verifier::ext_equal]
pub enum ProcessResultV {
    Complete(Option<Seq<char>>),
    Error(Seq<char>),
}

impl View for ForkResult {
    type V = ForkResultV;

    open spec fn view(&self) -> ForkResultV {
        match self {
            ForkResult::Complete(o) => ForkResultV::Complete(crate::codec::opt_view(*o)),
            ForkResult::Error(e) => ForkResultV::Error(e@),
        }
    }
}

impl View for ProcessResult {
    type V = ProcessResultV;

    open spec fn view(&self) -> ProcessResultV {
        match self {
            ProcessResult::Complete(o) => ProcessResultV::Complete(crate::codec::opt_view(*o)),
            ProcessResult::Error(e) => ProcessResultV::Error(e@),
        }
    }
}

/// Duplicates an optional string, preserving its value.
fn clone_opt_string(o: &Option<String>) -> (r: Option<String>)
    ensures
        crate::codec::opt_view(r) == crate::codec::opt_view(*o),
{
    match o {
        None => None,
        Some(s) => Some(s.clone()),
    }
}

impl ForkResult {
    /// A copy carrying the same value.
    pub fn duplicate(&self) -> (r: ForkResult)
        ensures
            r@ == self@,
    {
        match self {
            ForkResult::Complete(o) => ForkResult::Complete(clone_opt_string(o)),
            ForkResult::Error(e) => ForkResult::Error(e.clone()),
        }
    }
}

impl ProcessResult {
    /// A copy carrying the same value.
    pub fn duplicate(&self) -> (r: ProcessResult)
        ensures
            r@ == self@,
    {
        match self {
            ProcessResult::Complete(o) => ProcessResult::Complete(clone_opt_string(o)),
            ProcessResult::Error(e) => ProcessResult::Error(e.clone()),
        }
    }
}

/// One in-flight or finished worker of a layer.
pub struct Worker {
    /// The UUID minted before the fork request was sent.
    pub uuid: String,
    /// The worker's human-readable name.
    pub name: String,
    /// The pid reported by `ForkResponse`, once known.
    pub pid: Option<i32>,
    /// True until the worker terminates (completion, error, or stop).
    pub live: bool,
    /// Resolved when the loader reports the fork's outcome.
    pub fork: Resolver<ForkResult>,
    /// Resolved when the worker completes, errors, is stopped, or the
    /// layer is torn down.
    pub completion: Resolver<ProcessResult>,
}

/// The mathematical value of a `Worker`.
#[verifier::ext_equal]
pub struct WorkerV {
    pub uuid: Seq<char>,
    pub name: Seq<char>,
    pub pid: Option<i32>,
    pub live: bool,
    pub fork: Option<ForkResultV>,
    pub completion: Option<ProcessResultV>,
}

impl View for Worker {
    type V = WorkerV;

    open spec fn view(&self) -> WorkerV {
        WorkerV {
            uuid: self.uuid@,
            name: self.name@,
            pid: self.pid,
            live: self.live,
            fork: match self.fork.state {
                None => None,
                Some(r) => Some(r@),
            },
            completion: match self.completion.state {
                None => None,
                Some(r) => Some(r@),
            },
        }
    }
}

/// The layer's worker tables.
pub struct Layer {
    /// Every worker this layer has seen, keyed by its unique UUID.
    pub workers: Vec<Worker>,
}

impl View for Layer {
    type V = Seq<WorkerV>;

    open spec fn view(&self) -> Seq<WorkerV> {
        self.workers@.map_values(|w: Worker| w@)
    }
}

/// Whether some worker carries this UUID.
pub open spec fn has_uuid(l: Seq<WorkerV>, u: Seq<char>) -> bool {
    exists|i: int| 0 <= i < l.len() && (#[trigger] l[i]).uuid == u
}

/// The index of the worker carrying this UUID (unique under `wf_layer`).
pub open spec fn idx_of(l: Seq<WorkerV>, u: Seq<char>) -> int {
    choose|i: int| 0 <= i < l.len() && (#[trigger] l[i]).uuid == u
}

/// Whether some live worker already owns this pid.
pub open spec fn pid_in_use(l: Seq<WorkerV>, pid: i32) -> bool {
    exists|i: int| 0 <= i < l.len() && (#[trigger] l[i]).live && l[i].pid == Some(pid)
}

/// The index of the live worker owning this pid (unique under
/// `wf_layer`).
pub open spec fn pid_idx_of(l: Seq<WorkerV>, pid: i32) -> int {
    choose|i: int| 0 <= i < l.len() && (#[trigger] l[i]).live && l[i].pid == Some(pid)
}

/// The UUID the demultiplexer correlates from an emitting pid: the live
/// worker owning it, if any.
pub open spec fn uuid_of_pid(l: Seq<WorkerV>, pid: i32) -> Option<Seq<char>> {
    if pid_in_use(l, pid) {
        Some(l[pid_idx_of(l, pid)].uuid)
    } else {
        None
    }
}

/// The context for a multiplexed line's pid; a pid beyond the signed range
/// belongs to no worker.
pub open spec fn mux_ctx(l: Seq<WorkerV>, pid: u32) -> Option<Seq<char>> {
    if pid <= 0x7fff_ffff {
        uuid_of_pid(l, pid as i32)
    } else {
        None
    }
}

/// The layer's tables are consistent: UUIDs are unique, resolved pids are
/// unique among live workers, and a worker that is no longer live has its
/// completion resolved.
pub open spec fn wf_layer(l: Seq<WorkerV>) -> bool {
    &&& forall|i: int, j: int|
        0 <= i < j < l.len() ==> (#[trigger] l[i]).uuid != (#[trigger] l[j]).uuid
    &&& forall|i: int, j: int|
        0 <= i < j < l.len() && (#[trigger] l[i]).live && (#[trigger] l[j]).live && l[i].pid is Some
            ==> l[i].pid != l[j].pid
    &&& forall|i: int| 0 <= i < l.len() && !(#[trigger] l[i]).live ==> l[i].completion is Some
}

/// Under unique UUIDs, any index that carries `u` is the index.
proof fn lemma_idx_unique(l: Seq<WorkerV>, u: Seq<char>, i: int)
    requires
        wf_layer(l),
        0 <= i < l.len(),
        l[i].uuid == u,
    ensures
        has_uuid(l, u),
        idx_of(l, u) == i,
{
    assert(0 <= i < l.len() && l[i].uuid == u);
    let j = idx_of(l, u);
    assert(0 <= j < l.len() && l[j].uuid == u);
    if i < j {
        assert(l[i].uuid != l[j].uuid);
    } else if j < i {
        assert(l[j].uuid != l[i].uuid);
    }
}

/// Under unique live pids, any live index that owns `pid` is the index.
proof fn lemma_pid_idx_unique(l: Seq<WorkerV>, pid: i32, i: int)
    requires
        wf_layer(l),
        0 <= i < l.len(),
        l[i].live,
        l[i].pid == Some(pid),
    ensures
        pid_in_use(l, pid),
        pid_idx_of(l, pid) == i,
{
    assert(0 <= i < l.len() && l[i].live && l[i].pid == Some(pid));
    let j = pid_idx_of(l, pid);
    assert(0 <= j < l.len() && l[j].live && l[j].pid == Some(pid));
    if i < j {
        assert(l[i].pid != l[j].pid);
    } else if j < i {
        assert(l[j].pid != l[i].pid);
    }
}

impl Layer {
    /// A fresh layer with no workers.
    pub fn new() -> (l: Layer)
        ensures
            l@ == Seq::<WorkerV>::empty(),
            wf_layer(l@),
    {
        let l = Layer { workers: Vec::new() };
        assert(l@ =~= Seq::<WorkerV>::empty());
        l
    }

    /// The index of the worker carrying `uuid`, if any.
    fn find(&self, uuid: &String) -> (r: Option<usize>)
        ensures
            r matches Some(i) ==> 0 <= i < self@.len() && self@[i as int].uuid == uuid@,
            r is None ==> !has_uuid(self@, uuid@),
    {
        for i in 0..self.workers.len()
            invariant
                forall|j: int| 0 <= j < i ==> (#[trigger] self@[j]).uuid != uuid@,
        {
            if self.workers[i].uuid == *uuid {
                assert(self@[i as int].uuid == uuid@);
                return Some(i);
            }
            assert(self@[i as int].uuid != uuid@);
        }
        None
    }

    /// Whether a live worker already owns `pid`.
    fn pid_taken(&self, pid: i32) -> (b: bool)
        ensures
            b == pid_in_use(self@, pid),
    {
        for i in 0..self.workers.len()
            invariant
                forall|j: int|
                    0 <= j < i ==> !((#[trigger] self@[j]).live && self@[j].pid == Some(pid)),
        {
            if self.workers[i].live && self.workers[i].pid.is_some() {
                let p = *self.workers[i].pid.as_ref().unwrap();
                if p == pid {
                    assert(self@[i as int].live && self@[i as int].pid == Some(pid));
                    return true;
                }
            }
            assert(!(self@[i as int].live && self@[i as int].pid == Some(pid)));
        }
        false
    }

    /// The UUID of the live worker that owns `pid`, for demultiplexing.
    pub fn uuid_for_pid(&self, pid: i32) -> (r: Option<String>)
        requires
            wf_layer(self@),
        ensures
            r matches Some(u) ==> uuid_of_pid(self@, pid) == Some(u@),
            r is None ==> uuid_of_pid(self@, pid) is None,
    {
        for i in 0..self.workers.len()
            invariant
                wf_layer(self@),
                forall|j: int|
                    0 <= j < i ==> !((#[trigger] self@[j]).live && self@[j].pid == Some(pid)),
        {
            if self.workers[i].live && self.workers[i].pid.is_some() {
                let p = *self.workers[i].pid.as_ref().unwrap();
                if p == pid {
                    proof {
                        lemma_pid_idx_unique(self@, pid, i as int);
                    }
                    return Some(self.workers[i].uuid.clone());
                }
            }
            assert(!(self@[i as int].live && self@[i as int].pid == Some(pid)));
        }
        None
    }

    /// The name recorded for `uuid`, if the worker exists.
    pub fn name_of(&self, uuid: &String) -> (r: Option<String>)
        requires
            wf_layer(self@),
        ensures
            r matches Some(n) ==> has_uuid(self@, uuid@) && self@[idx_of(self@, uuid@)].name
                == n@,
            r is None ==> !has_uuid(self@, uuid@),
    {
        match self.find(uuid) {
            Some(i) => {
                let n = self.workers[i].name.clone();
                proof {
                    lemma_idx_unique(self@, uuid@, i as int);
                }
                Some(n)
            }
            None => None,
        }
    }

    /// The completion outcome recorded for `uuid`: exactly the value its
    /// resolver carries, or nothing while it is pending or the UUID is
    /// unknown.  An awaiting caller polls this under its wakeup primitive.
    pub fn completion_value(&self, uuid: &String) -> (r: Option<ProcessResult>)
        requires
            wf_layer(self@),
        ensures
            r matches Some(v) ==> completion_of(self@, uuid@) == Some(v@),
            r is None ==> completion_of(self@, uuid@) is None,
    {
        match self.find(uuid) {
            Some(i) => {
                proof {
                    lemma_idx_unique(self@, uuid@, i as int);
                }
                match self.workers[i].completion.try_value() {
                    Some(v) => {
                        let out = v.duplicate();
                        Some(out)
                    }
                    None => None,
                }
            }
            None => None,
        }
    }

    /// The fork outcome recorded for `uuid`: exactly the value its
    /// resolver carries, or nothing while it is pending or the UUID is
    /// unknown.
    pub fn fork_value(&self, uuid: &String) -> (r: Option<ForkResult>)
        requires
            wf_layer(self@),
        ensures
            r matches Some(v) ==> fork_of(self@, uuid@) == Some(v@),
            r is None ==> fork_of(self@, uuid@) is None,
    {
        match self.find(uuid) {
            Some(i) => {
                proof {
                    lemma_idx_unique(self@, uuid@, i as int);
                }
                match self.workers[i].fork.try_value() {
                    Some(v) => {
                        let out = v.duplicate();
                        Some(out)
                    }
                    None => None,
                }
            }
            None => None,
        }
    }

    /// The UUIDs of the workers that are still live, oldest first.
    pub fn live_uuids(&self) -> (r: Vec<String>)
        ensures
            r@.map_values(|s: String| s@) == live_uuids_of(self@),
    {
        let mut out: Vec<String> = Vec::new();
        for i in 0..self.workers.len()
            invariant
                out@.map_values(|s: String| s@) == live_uuids_of(self@.take(i as int)),
        {
            proof {
                assert(self@.take(i + 1).drop_last() =~= self@.take(i as int));
                assert(self@.take(i + 1).last() == self@[i as int]);
            }
            if self.workers[i].live {
                let ghost prev = out@;
                out.push(self.workers[i].uuid.clone());
                proof {
                    assert(out@.map_values(|s: String| s@) =~= prev.map_values(
                        |s: String| s@,
                    ).push(self@[i as int].uuid));
                }
            }
        }
        proof {
            assert(self@.take(self@.len() as int) =~= self@);
        }
        out
    }
}

/// The UUIDs of the live workers of a layer, oldest first.
pub open spec fn live_uuids_of(l: Seq<WorkerV>) -> Seq<Seq<char>>
    decreases l.len(),
{
    if l.len() == 0 {
        Seq::empty()
    } else {
        let rest = live_uuids_of(l.drop_last());
        if l.last().live {
            rest.push(l.last().uuid)
        } else {
            rest
        }
    }
}

/// A name stands among the live UUIDs exactly when a live worker carries it.
pub proof fn lemma_live_uuids_membership(l: Seq<WorkerV>)
    ensures
        forall|u: Seq<char>|
            live_uuids_of(l).contains(u) <==> exists|i: int|
                0 <= i < l.len() && (#[trigger] l[i]).live && l[i].uuid == u,
    decreases l.len(),
{
    if l.len() == 0 {
    } else {
        lemma_live_uuids_membership(l.drop_last());
        assert(forall|i: int| 0 <= i < l.len() - 1 ==> l.drop_last()[i] == l[i]);
        assert forall|u: Seq<char>| live_uuids_of(l).contains(u) implies exists|i: int|
            0 <= i < l.len() && (#[trigger] l[i]).live && l[i].uuid == u by {
            let rest = live_uuids_of(l.drop_last());
            if rest.contains(u) {
                let i = choose|i: int|
                    0 <= i < l.drop_last().len() && (#[trigger] l.drop_last()[i]).live
                        && l.drop_last()[i].uuid == u;
                assert(l[i].live && l[i].uuid == u);
            } else {
                assert(l.last().live && l.last().uuid == u);
                assert(l[l.len() - 1].live && l[l.len() - 1].uuid == u);
            }
        }
        assert forall|u: Seq<char>|
            (exists|i: int| 0 <= i < l.len() && (#[trigger] l[i]).live && l[i].uuid == u)
            implies live_uuids_of(l).contains(u) by {
            let i = choose|i: int| 0 <= i < l.len() && (#[trigger] l[i]).live && l[i].uuid == u;
            let rest = live_uuids_of(l.drop_last());
            if i < l.len() - 1 {
                assert(l.drop_last()[i].live && l.drop_last()[i].uuid == u);
                assert(rest.contains(u));
                if l.last().live {
                    let k = choose|k: int| 0 <= k < rest.len() && rest[k] == u;
                    assert(live_uuids_of(l)[k] == u);
                } else {
                    assert(live_uuids_of(l).contains(u));
                }
            } else {
                assert(l.last().live);
                assert(live_uuids_of(l).last() == u);
            }
        }
    }
}

/// One worker after layer teardown: no longer live, both resolvers
/// resolved (with `Error("layer terminated")` where still pending).
pub open spec fn teardown_worker(w: WorkerV) -> WorkerV {
    WorkerV {
        uuid: w.uuid,
        name: w.name,
        pid: w.pid,
        live: false,
        fork: spec_resolve(w.fork, ForkResultV::Error("layer terminated"@)),
        completion: spec_resolve(w.completion, ProcessResultV::Error("layer terminated"@)),
    }
}

/// Registering a worker: a no-op if the UUID is already present, else a
/// fresh live worker with both resolvers pending.
pub open spec fn sv_register(l: Seq<WorkerV>, uuid: Seq<char>, name: Seq<char>) -> Seq<WorkerV> {
    if has_uuid(l, uuid) {
        l
    } else {
        l.push(
            WorkerV { uuid, name, pid: None, live: true, fork: None, completion: None },
        )
    }
}

/// A `ForkResponse`: record the pid and the name, and resolve the fork
/// resolver with the pid's decimal text.  A response for an unknown or
/// terminated request, or one whose pid a live worker already owns, is
/// dropped.
pub open spec fn sv_fork_response(
    l: Seq<WorkerV>,
    rid: Seq<char>,
    rname: Seq<char>,
    pid: i32,
) -> Seq<WorkerV> {
    if !has_uuid(l, rid) {
        l
    } else {
        let i = idx_of(l, rid);
        let w = l[i];
        if !w.live || pid_in_use(l, pid) {
            l
        } else {
            l.update(
                i,
                WorkerV {
                    uuid: w.uuid,
                    name: rname,
                    pid: Some(pid),
                    live: true,
                    fork: spec_resolve(
                        w.fork,
                        ForkResultV::Complete(Some(int_repr(pid as int))),
                    ),
                    completion: w.completion,
                },
            )
        }
    }
}

/// Terminating a worker: it leaves the live tables and its completion
/// resolver is resolved with `outcome` if still pending.  A termination
/// for an unknown or already-terminated UUID is dropped.
pub open spec fn sv_terminate(l: Seq<WorkerV>, u: Seq<char>, outcome: ProcessResultV) -> Seq<
    WorkerV,
> {
    if !has_uuid(l, u) {
        l
    } else {
        let i = idx_of(l, u);
        let w = l[i];
        if !w.live {
            l
        } else {
            l.update(
                i,
                WorkerV {
                    uuid: w.uuid,
                    name: w.name,
                    pid: w.pid,
                    live: false,
                    fork: w.fork,
                    completion: spec_resolve(w.completion, outcome),
                },
            )
        }
    }
}

/// Tearing the layer down: every worker terminates and every pending
/// resolver is resolved with `Error("layer terminated")`.
pub open spec fn sv_teardown(l: Seq<WorkerV>) -> Seq<WorkerV> {
    l.map_values(|w: WorkerV| teardown_worker(w))
}

/// The error a worker's failure carries to the awaiting caller: the error
/// text, and the traceback after a blank line when one was reported.
pub open spec fn error_text(error: Seq<char>, traceback: Option<Seq<char>>) -> Seq<char> {
    match traceback {
        None => error,
        Some(t) => error + "\n\n"@ + t,
    }
}

/// The view of an optional borrowed context UUID.
pub open spec fn ctx_view(c: Option<&String>) -> Option<Seq<char>> {
    match c {
        None => None,
        Some(u) => Some(u@),
    }
}

/// What one inbound message does to the tables.  `ctx` is the UUID the
/// demultiplexer correlated from the emitting pid, if any; a completion or
/// error without a context, and any message that only the boot handshake
/// or the supervisor's outbound channel should carry, is dropped.
pub open spec fn spec_apply_message(
    l: Seq<WorkerV>,
    m: MessageV,
    ctx: Option<Seq<char>>,
) -> Seq<WorkerV> {
    match m {
        MessageV::ForkResponse { request_id, request_name, child_pid } => sv_fork_response(
            l,
            request_id,
            request_name,
            child_pid,
        ),
        MessageV::ChildComplete { result } => match ctx {
            Some(u) => sv_terminate(l, u, ProcessResultV::Complete(result)),
            None => l,
        },
        MessageV::ChildError { error, traceback } => match ctx {
            Some(u) => sv_terminate(l, u, ProcessResultV::Error(error_text(error, traceback))),
            None => l,
        },
        _ => l,
    }
}

/// What the reader thread should do with one line of child output.
#[derive(Debug)]
pub enum LineAction {
    /// A protocol message was recognised and applied to the tables.
    Applied,
    /// A worker's human-readable output: print it under the worker's name.
    WorkerOutput { name: String, content: String },
    /// A multiplexed line whose pid no live worker owns: print it under
    /// `pid:stream`.
    UnmatchedOutput { pid: u32, stream: StreamKind, content: String },
    /// A line that is neither a multiplexed envelope nor a message.
    RawOutput,
}

impl Layer {
    /// Installs a fresh worker under `uuid` with both resolvers pending.
    /// Returns false, changing nothing, if the UUID is already taken.
    pub fn register_worker(&mut self, uuid: String, name: String) -> (ok: bool)
        requires
            wf_layer(old(self)@),
        ensures
            wf_layer(final(self)@),
            final(self)@ == sv_register(old(self)@, uuid@, name@),
            ok == !has_uuid(old(self)@, uuid@),
    {
        let ghost uv = uuid@;
        let ghost nv = name@;
        match self.find(&uuid) {
            Some(i) => {
                proof {
                    assert(has_uuid(self@, uv));
                }
                false
            }
            None => {
                let ghost pre = self@;
                self.workers.push(
                    Worker {
                        uuid,
                        name,
                        pid: None,
                        live: true,
                        fork: Resolver::new(),
                        completion: Resolver::new(),
                    },
                );
                proof {
                    assert(self@ =~~= sv_register(pre, uv, nv));
                    assert(forall|j: int| 0 <= j < pre.len() ==> self@[j] == pre[j]);
                    assert forall|i: int, j: int|
                        0 <= i < j < self@.len() implies (#[trigger] self@[i]).uuid != (
                    #[trigger] self@[j]).uuid by {
                        if j == self@.len() - 1 {
                            assert(self@[i].uuid == pre[i].uuid);
                        }
                    }
                    assert(wf_layer(self@));
                }
                true
            }
        }
    }

    /// Applies a `ForkResponse`: records the pid and name and resolves the
    /// fork resolver with the pid's decimal text.  Responses for unknown
    /// or terminated requests, or carrying a pid a live worker already
    /// owns, are dropped.
    pub fn on_fork_response(&mut self, request_id: &String, request_name: &String, child_pid: i32)
        requires
            wf_layer(old(self)@),
        ensures
            wf_layer(final(self)@),
            final(self)@ == sv_fork_response(old(self)@, request_id@, request_name@, child_pid),
    {
        let found = self.find(request_id);
        match found {
            None => {}
            Some(i) => {
                proof {
                    lemma_idx_unique(self@, request_id@, i as int);
                }
                if !self.workers[i].live {
                    return ;
                }
                if self.pid_taken(child_pid) {
                    return ;
                }
                let pid_str = crate::codec::i32_string(child_pid);
                let ghost pre = self@;
                self.workers[i].pid = Some(child_pid);
                self.workers[i].name = request_name.clone();
                self.workers[i].fork.resolve(ForkResult::Complete(Some(pid_str)));
                proof {
                    assert(self@ =~~= sv_fork_response(pre, request_id@, request_name@, child_pid));
                    assert(forall|j: int|
                        0 <= j < pre.len() && j != i ==> self@[j] == pre[j]);
                    assert(self@[i as int].uuid == pre[i as int].uuid);
                    assert forall|a: int, b: int|
                        0 <= a < b < self@.len() && (#[trigger] self@[a]).live && (
                    #[trigger] self@[b]).live && self@[a].pid is Some implies self@[a].pid
                        != self@[b].pid by {
                        if a != i && b != i {
                            assert(self@[a] == pre[a] && self@[b] == pre[b]);
                        } else if a == i {
                            assert(self@[b] == pre[b]);
                            assert(!(pre[b].live && pre[b].pid == Some(child_pid)));
                        } else {
                            assert(self@[a] == pre[a]);
                            assert(!(pre[a].live && pre[a].pid == Some(child_pid)));
                        }
                    }
                    assert(wf_layer(self@));
                }
            }
        }
    }

    /// Terminates `uuid` with `outcome`: it leaves the live tables and a
    /// pending completion resolver is resolved.  Unknown or terminated
    /// UUIDs are dropped.
    fn terminate_worker(&mut self, uuid: &String, outcome: ProcessResult)
        requires
            wf_layer(old(self)@),
        ensures
            wf_layer(final(self)@),
            final(self)@ == sv_terminate(old(self)@, uuid@, outcome@),
    {
        let found = self.find(uuid);
        match found {
            None => {}
            Some(i) => {
                proof {
                    lemma_idx_unique(self@, uuid@, i as int);
                }
                if !self.workers[i].live {
                    return ;
                }
                let ghost pre = self@;
                self.workers[i].live = false;
                self.workers[i].completion.resolve(outcome);
                proof {
                    assert(self@ =~~= sv_terminate(pre, uuid@, outcome@));
                    assert(forall|j: int|
                        0 <= j < pre.len() && j != i ==> self@[j] == pre[j]);
                    assert forall|a: int, b: int|
                        0 <= a < b < self@.len() && (#[trigger] self@[a]).live && (
                    #[trigger] self@[b]).live && self@[a].pid is Some implies self@[a].pid
                        != self@[b].pid by {
                        assert(self@[a] == pre[a] && self@[b] == pre[b]);
                    }
                    assert(wf_layer(self@));
                }
            }
        }
    }

    /// A worker returned normally.
    pub fn on_child_complete(&mut self, uuid: &String, result: Option<String>)
        requires
            wf_layer(old(self)@),
        ensures
            wf_layer(final(self)@),
            final(self)@ == sv_terminate(
                old(self)@,
                uuid@,
                ProcessResultV::Complete(crate::codec::opt_view(result)),
            ),
    {
        self.terminate_worker(uuid, ProcessResult::Complete(result));
    }

    /// A worker raised: its completion carries the error text, and the
    /// traceback after a blank line when one was reported.
    pub fn on_child_error(&mut self, uuid: &String, error: String, traceback: Option<String>)
        requires
            wf_layer(old(self)@),
        ensures
            wf_layer(final(self)@),
            final(self)@ == sv_terminate(
                old(self)@,
                uuid@,
                ProcessResultV::Error(error_text(error@, crate::codec::opt_view(traceback))),
            ),
    {
        let ghost full = error_text(error@, crate::codec::opt_view(traceback));
        let mut msg = error;
        match traceback {
            None => {}
            Some(t) => {
                msg.append("\n\n");
                msg.append(t.as_str());
            }
        }
        assert(msg@ == full);
        self.terminate_worker(uuid, ProcessResult::Error(msg));
    }

    /// Stops `uuid`: it leaves the live tables and a pending completion is
    /// resolved with `Error("stopped")`.  Returns the worker's recorded
    /// pid (`None` inside `Some` when the fork response never arrived) so
    /// the caller can signal the process, or `None` if no live worker
    /// carries the UUID.
    pub fn stop_worker(&mut self, uuid: &String) -> (r: Option<Option<i32>>)
        requires
            wf_layer(old(self)@),
        ensures
            wf_layer(final(self)@),
            final(self)@ == sv_terminate(old(self)@, uuid@, ProcessResultV::Error("stopped"@)),
            r matches Some(p) ==> has_uuid(old(self)@, uuid@) && old(self)@[idx_of(
                old(self)@,
                uuid@,
            )].live && p == old(self)@[idx_of(old(self)@, uuid@)].pid,
            r is None ==> !has_uuid(old(self)@, uuid@) || !old(self)@[idx_of(
                old(self)@,
                uuid@,
            )].live,
    {
        let found = self.find(uuid);
        let pid: Option<Option<i32>> = match found {
            None => None,
            Some(i) => {
                proof {
                    lemma_idx_unique(self@, uuid@, i as int);
                }
                if self.workers[i].live {
                    match &self.workers[i].pid {
                        Some(p) => Some(Some(*p)),
                        None => Some(None),
                    }
                } else {
                    None
                }
            }
        };
        self.terminate_worker(uuid, ProcessResult::Error(String::from_str("stopped")));
        pid
    }

    /// Tears the tables down: every worker terminates and every pending
    /// resolver is resolved with `Error("layer terminated")`.  Idempotent.
    pub fn teardown(&mut self)
        requires
            wf_layer(old(self)@),
        ensures
            wf_layer(final(self)@),
            final(self)@ == sv_teardown(old(self)@),
    {
        let ghost pre = self@;
        let n = self.workers.len();
        for i in 0..n
            invariant
                n == self.workers@.len(),
                self@.len() == pre.len(),
                pre == old(self)@,
                forall|j: int| 0 <= j < i ==> self@[j] == teardown_worker(#[trigger] pre[j]),
                forall|j: int| i <= j < pre.len() ==> self@[j] == #[trigger] pre[j],
        {
            self.workers[i].live = false;
            self.workers[i].fork.resolve(ForkResult::Error(String::from_str("layer terminated")));
            self.workers[i].completion.resolve(
                ProcessResult::Error(String::from_str("layer terminated")),
            );
            proof {
                assert(self@[i as int] =~~= teardown_worker(pre[i as int]));
            }
        }
        proof {
            assert(self@ =~~= sv_teardown(pre));
            assert(forall|j: int|
                0 <= j < self@.len() ==> !(#[trigger] self@[j]).live && self@[j].completion
                    is Some);
            assert forall|a: int, b: int|
                0 <= a < b < self@.len() implies (#[trigger] self@[a]).uuid != (
            #[trigger] self@[b]).uuid by {
                assert(self@[a].uuid == pre[a].uuid && self@[b].uuid == pre[b].uuid);
            }
            assert(wf_layer(self@));
        }
    }

    /// Applies one inbound protocol message to the tables; `ctx` is the
    /// UUID the demultiplexer correlated from the emitting pid, if any.
    pub fn apply_message(&mut self, msg: &Message, ctx: Option<&String>)
        requires
            wf_layer(old(self)@),
        ensures
            wf_layer(final(self)@),
            final(self)@ == spec_apply_message(old(self)@, msg@, ctx_view(ctx)),
    {
        match msg {
            Message::ForkResponse { request_id, request_name, child_pid } => {
                self.on_fork_response(request_id, request_name, *child_pid);
            }
            Message::ChildComplete { result } => match ctx {
                Some(u) => {
                    self.on_child_complete(u, clone_opt_string(result));
                }
                None => {}
            },
            Message::ChildError { error, traceback } => match ctx {
                Some(u) => {
                    self.on_child_error(u, error.clone(), clone_opt_string(traceback));
                }
                None => {}
            },
            _ => {}
        }
    }

    /// Routes one line of child output, as the reader threads do: parse
    /// the multiplexed envelope, correlate the pid to a worker, and either
    /// apply the protocol message it carries or hand the line back for
    /// printing.
    pub fn process_line(&mut self, line: &str) -> (act: LineAction)
        requires
            wf_layer(old(self)@),
        ensures
            wf_layer(final(self)@),
            match act {
                LineAction::Applied => (exists|ml: MultiplexedLineV, m: MessageV|
                    line@ == mux_repr(ml) && ml.content == crate::codec::spec_encode(m)
                        && final(self)@ == spec_apply_message(
                        old(self)@,
                        m,
                        mux_ctx(old(self)@, ml.pid),
                    )) || (
                exists|m: MessageV|
                    line@ == crate::codec::spec_encode(m) && (forall|ml: MultiplexedLineV|
                        line@ != mux_repr(ml)) && final(self)@ == spec_apply_message(
                        old(self)@,
                        m,
                        None,
                    )),
                LineAction::WorkerOutput { name, content } => final(self)@ == old(self)@
                    && exists|ml: MultiplexedLineV, u: Seq<char>|
                    line@ == mux_repr(ml) && content@ == ml.content && (forall|m: MessageV|
                        ml.content != crate::codec::spec_encode(m)) && mux_ctx(old(self)@, ml.pid)
                        == Some(u) && has_uuid(old(self)@, u) && name@ == old(self)@[idx_of(
                        old(self)@,
                        u,
                    )].name,
                LineAction::UnmatchedOutput { pid, stream, content } => final(self)@ == old(
                    self,
                )@ && (exists|ml: MultiplexedLineV|
                    line@ == mux_repr(ml) && content@ == ml.content && pid == ml.pid && stream
                        == ml.stream && (forall|m: MessageV|
                        ml.content != crate::codec::spec_encode(m))) && mux_ctx(
                    old(self)@,
                    pid,
                ) is None,
                LineAction::RawOutput => final(self)@ == old(self)@ && (forall|
                    ml: MultiplexedLineV,
                |
                    line@ != mux_repr(ml)) && (forall|m: MessageV|
                    line@ != crate::codec::spec_encode(m)),
            },
    {
        match parse_multiplexed_line(line) {
            Some(ml) => {
                let ghost mlv = ml@;
                let uuid_opt: Option<String> = if ml.pid <= 0x7fff_ffff {
                    self.uuid_for_pid(ml.pid as i32)
                } else {
                    None
                };
                proof {
                    match &uuid_opt {
                        Some(u) => {
                            assert(mux_ctx(self@, mlv.pid) == Some(u@));
                        }
                        None => {
                            assert(mux_ctx(self@, mlv.pid) is None);
                        }
                    }
                }
                match crate::codec::decode_message(ml.content.as_str()) {
                    Some(msg) => {
                        match &uuid_opt {
                            Some(u) => {
                                self.apply_message(&msg, Some(u));
                            }
                            None => {
                                self.apply_message(&msg, None);
                            }
                        }
                        proof {
                            assert(line@ == mux_repr(mlv) && mlv.content == crate::codec::spec_encode(
                                msg@,
                            ) && final(self)@ == spec_apply_message(
                                old(self)@,
                                msg@,
                                mux_ctx(old(self)@, mlv.pid),
                            ));
                        }
                        LineAction::Applied
                    }
                    None => match uuid_opt {
                        Some(u) => {
                            let ghost uv = u@;
                            proof {
                                let i = pid_idx_of(self@, mlv.pid as i32);
                                assert(0 <= i < self@.len() && self@[i].live && self@[i].pid
                                    == Some(mlv.pid as i32));
                                assert(self@[i].uuid == uv);
                                lemma_idx_unique(self@, uv, i);
                            }
                            match self.name_of(&u) {
                                Some(name) => {
                                    proof {
                                        assert(line@ == mux_repr(mlv) && mux_ctx(self@, mlv.pid)
                                            == Some(uv) && name@ == self@[idx_of(self@, uv)].name);
                                    }
                                    LineAction::WorkerOutput { name, content: ml.content }
                                }
                                None => {
                                    // The pid's owner is a worker of the table, so its
                                    // name is always recorded.
                                    proof {
                                        assert(false);
                                    }
                                    LineAction::WorkerOutput { name: u, content: ml.content }
                                }
                            }
                        }
                        None => LineAction::UnmatchedOutput {
                            pid: ml.pid,
                            stream: ml.stream,
                            content: ml.content,
                        },
                    },
                }
            }
            None => {
                match crate::codec::decode_message(line) {
                    Some(msg) => {
                        self.apply_message(&msg, None);
                        LineAction::Applied
                    }
                    None => LineAction::RawOutput,
                }
            }
        }
    }
}

/// The completion outcome recorded for `u`, if any.
pub open spec fn completion_of(l: Seq<WorkerV>, u: Seq<char>) -> Option<ProcessResultV> {
    if has_uuid(l, u) {
        l[idx_of(l, u)].completion
    } else {
        None
    }
}

/// The fork outcome recorded for `u`, if any.
pub open spec fn fork_of(l: Seq<WorkerV>, u: Seq<char>) -> Option<ForkResultV> {
    if has_uuid(l, u) {
        l[idx_of(l, u)].fork
    } else {
        None
    }
}

/// No UUID is leaked across a clean shutdown: after teardown no worker is
/// live, and every worker's fork and completion resolvers are resolved —
/// so every caller blocked on either is woken.
pub proof fn lemma_teardown_resolves_all(l: Seq<WorkerV>)
    ensures
        sv_teardown(l).len() == l.len(),
        forall|i: int|
            0 <= i < l.len() ==> !(#[trigger] sv_teardown(l)[i]).live && sv_teardown(l)[i].fork
                is Some && sv_teardown(l)[i].completion is Some,
{
    assert(forall|i: int|
        0 <= i < l.len() ==> #[trigger] sv_teardown(l)[i] == teardown_worker(l[i]));
}

/// A worker, once registered, is never removed by a message, a stop or a
/// teardown: every transition keeps the length and the UUID at each index.
/// A UUID therefore stays in the tables until its completion resolver is
/// resolved — by its outcome, a stop, or layer teardown.
pub proof fn lemma_uuid_permanent(l: Seq<WorkerV>, m: MessageV, c: Option<Seq<char>>, u: Seq<char>)
    ensures
        spec_apply_message(l, m, c).len() == l.len(),
        forall|i: int|
            0 <= i < l.len() ==> (#[trigger] spec_apply_message(l, m, c)[i]).uuid == l[i].uuid,
        sv_teardown(l).len() == l.len(),
        forall|i: int| 0 <= i < l.len() ==> (#[trigger] sv_teardown(l)[i]).uuid == l[i].uuid,
        has_uuid(l, u) ==> has_uuid(spec_apply_message(l, m, c), u) && has_uuid(sv_teardown(l), u),
{
    assert(forall|i: int|
        0 <= i < l.len() ==> #[trigger] sv_teardown(l)[i] == teardown_worker(l[i]));
    assert(forall|i: int|
        0 <= i < l.len() ==> (#[trigger] spec_apply_message(l, m, c)[i]).uuid == l[i].uuid);
    if has_uuid(l, u) {
        let i = idx_of(l, u);
        assert(spec_apply_message(l, m, c)[i].uuid == u);
        assert(sv_teardown(l)[i].uuid == u);
    }
}

/// Termination preserves well-formedness, touches only the worker that
/// carries the UUID, and resolves that worker's completion.
proof fn lemma_sv_terminate_frame(l: Seq<WorkerV>, u: Seq<char>, outcome: ProcessResultV)
    requires
        wf_layer(l),
    ensures
        wf_layer(sv_terminate(l, u, outcome)),
        sv_terminate(l, u, outcome).len() == l.len(),
        forall|i: int|
            0 <= i < l.len() && (#[trigger] l[i]).uuid != u ==> sv_terminate(l, u, outcome)[i]
                == l[i],
        forall|i: int|
            0 <= i < l.len() ==> (#[trigger] sv_terminate(l, u, outcome)[i]).uuid == l[i].uuid,
        has_uuid(l, u) && l[idx_of(l, u)].live && l[idx_of(l, u)].completion is None
            ==> completion_of(sv_terminate(l, u, outcome), u) == Some(outcome),
{
    let l1 = sv_terminate(l, u, outcome);
    if has_uuid(l, u) {
        let i = idx_of(l, u);
        assert(0 <= i < l.len() && l[i].uuid == u);
        if l[i].live {
            assert(l1 == l.update(i, WorkerV {
                uuid: l[i].uuid,
                name: l[i].name,
                pid: l[i].pid,
                live: false,
                fork: l[i].fork,
                completion: spec_resolve(l[i].completion, outcome),
            }));
            assert(forall|j: int| 0 <= j < l.len() && j != i ==> l1[j] == l[j]);
            assert forall|a: int, b: int|
                0 <= a < b < l1.len() && (#[trigger] l1[a]).live && (#[trigger] l1[b]).live
                    && l1[a].pid is Some implies l1[a].pid != l1[b].pid by {
                assert(l1[a] == l[a] && l1[b] == l[b]);
            }
            assert(wf_layer(l1));
            lemma_idx_unique(l1, u, i);
            if l[i].completion is None {
                assert(completion_of(l1, u) == Some(outcome));
            }
        }
    }
}

/// Folding a batch of terminations over the tables, first to last.  An
/// event pairs a worker's UUID with its outcome: a normal return, an
/// error, or a stop.
pub open spec fn apply_terminations(
    l: Seq<WorkerV>,
    events: Seq<(Seq<char>, ProcessResultV)>,
) -> Seq<WorkerV>
    decreases events.len(),
{
    if events.len() == 0 {
        l
    } else {
        apply_terminations(
            sv_terminate(l, events.first().0, events.first().1),
            events.drop_first(),
        )
    }
}

/// A batch of terminations for UUIDs other than `u` leaves `u`'s worker
/// untouched.
proof fn lemma_apply_terminations_frame(
    l: Seq<WorkerV>,
    events: Seq<(Seq<char>, ProcessResultV)>,
    u: Seq<char>,
)
    requires
        wf_layer(l),
        has_uuid(l, u),
        forall|k: int| 0 <= k < events.len() ==> (#[trigger] events[k]).0 != u,
    ensures
        wf_layer(apply_terminations(l, events)),
        has_uuid(apply_terminations(l, events), u),
        completion_of(apply_terminations(l, events), u) == completion_of(l, u),
    decreases events.len(),
{
    let i = idx_of(l, u);
    if events.len() == 0 {
    } else {
        let e = events.first();
        let l1 = sv_terminate(l, e.0, e.1);
        lemma_sv_terminate_frame(l, e.0, e.1);
        lemma_idx_unique(l1, u, i);
        assert(l1[i] == l[i]);
        assert(forall|k: int|
            0 <= k < events.drop_first().len() ==> (#[trigger] events.drop_first()[k]).0 != u);
        lemma_apply_terminations_frame(l1, events.drop_first(), u);
        assert(completion_of(l1, u) == completion_of(l, u));
    }
}

/// A workload of distinct terminations resolves exactly what it names:
/// after `N` termination events — returns, errors and stops in any mix —
/// for `N` distinct pending workers, each worker's completion resolver
/// carries exactly its own event's outcome: the resolved results are the
/// worker outcomes, none duplicated and none crossed.
pub proof fn lemma_workload_resolution(
    l0: Seq<WorkerV>,
    events: Seq<(Seq<char>, ProcessResultV)>,
)
    requires
        wf_layer(l0),
        forall|a: int, b: int|
            0 <= a < b < events.len() ==> (#[trigger] events[a]).0 != (#[trigger] events[b]).0,
        forall|k: int|
            0 <= k < events.len() ==> has_uuid(l0, (#[trigger] events[k]).0) && l0[idx_of(
                l0,
                events[k].0,
            )].live && l0[idx_of(l0, events[k].0)].completion is None,
    ensures
        wf_layer(apply_terminations(l0, events)),
        forall|k: int|
            0 <= k < events.len() ==> completion_of(
                apply_terminations(l0, events),
                (#[trigger] events[k]).0,
            ) == Some(events[k].1),
    decreases events.len(),
{
    if events.len() == 0 {
    } else {
        let e = events.first();
        let l1 = sv_terminate(l0, e.0, e.1);
        lemma_sv_terminate_frame(l0, e.0, e.1);
        let rest = events.drop_first();
        assert(forall|a: int, b: int|
            0 <= a < b < rest.len() ==> (#[trigger] rest[a]).0 != (#[trigger] rest[b]).0);
        assert forall|k: int|
            0 <= k < rest.len() implies has_uuid(l1, (#[trigger] rest[k]).0) && l1[idx_of(
            l1,
            rest[k].0,
        )].live && l1[idx_of(l1, rest[k].0)].completion is None by {
            assert(rest[k] == events[k + 1]);
            let i = idx_of(l0, rest[k].0);
            assert(0 <= i < l0.len() && l0[i].uuid == rest[k].0);
            assert(rest[k].0 != e.0);
            assert(l0[i].uuid != e.0);
            assert(l1[i] == l0[i]);
            lemma_idx_unique(l1, rest[k].0, i);
        }
        lemma_workload_resolution(l1, rest);
        assert forall|k: int|
            0 <= k < events.len() implies completion_of(
            apply_terminations(l0, events),
            (#[trigger] events[k]).0,
        ) == Some(events[k].1) by {
            if k == 0 {
                assert(completion_of(l1, e.0) == Some(e.1));
                assert(forall|j: int| 0 <= j < rest.len() ==> (#[trigger] rest[j]).0 != e.0);
                lemma_apply_terminations_frame(l1, rest, e.0);
                assert(apply_terminations(l0, events) == apply_terminations(l1, rest));
            } else {
                assert(events[k] == rest[k - 1]);
                assert(completion_of(apply_terminations(l1, rest), rest[k - 1].0) == Some(
                    rest[k - 1].1,
                ));
            }
        }
    }
}

} // verus!

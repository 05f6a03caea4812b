//! The process manager: control blocks, the round-robin ready queue, the
//! wait map, shared per-group process data, and the operations the syscall
//! layer drives.

use vstd::prelude::*;

use crate::procvm::{
    ProcessVm, KSTACK_DEF_PAGES, KSTACK_SLOT, STACK_DEF_PAGES, STACK_INIT_TOP, USER_SLOT_MAX,
    USER_SLOT_MIN,
};
use crate::sem::{SemaphoreResult, SemaphoreSet};
use crate::vm::MemoryManager;

verus! {

/// The kernel's own process id.
pub const KERNEL_PID: u16 = 1;

/// Where a process stands in its life.
#[derive(Debug, Clone, Copy, PartialEq, Eq, Structural)]
pub enum ProgramStatus {
    Running,
    Ready,
    Blocked,
    Dead,
}

/// A process identifier.
#[derive(Debug, Clone, Copy, PartialEq, Eq, Structural)]
pub struct ProcessId(pub u16);

/// The saved register state the scheduler swaps on a switch: the parts the
/// decisions read and write.
#[derive(Debug, Clone, Copy, PartialEq, Eq, Structural)]
pub struct ProcessContext {
    pub rax: u64,
    pub rip: u64,
    pub rsp: u64,
}

impl ProcessContext {
    pub fn new() -> (r: ProcessContext)
        ensures
            r == (ProcessContext { rax: 0, rip: 0, rsp: 0 }),
    {
        ProcessContext { rax: 0, rip: 0, rsp: 0 }
    }

    /// Writes a syscall's result where the process will read it.
    pub fn set_rax(&mut self, v: u64)
        ensures
            *final(self) == (ProcessContext { rax: v, ..*old(self) }),
    {
        self.rax = v;
    }

    /// The state a fresh program starts from.
    pub fn init_stack_frame(&mut self, entry: u64, stack_top: u64)
        ensures
            *final(self) == (ProcessContext { rax: 0, rip: entry, rsp: stack_top }),
    {
        self.rax = 0;
        self.rip = entry;
        self.rsp = stack_top;
    }
}

/// What a process group shares: an environment, its open resources, and
/// its semaphores.
pub struct ProcessData {
    pub env: Vec<(Vec<u8>, Vec<u8>)>,
    pub resources: crate::resource::ResourceSet,
    pub semaphores: SemaphoreSet,
}

/// A shared data slot and the number of processes holding it.
pub struct DataSlot {
    pub refs: usize,
    pub data: ProcessData,
}

/// One loadable program segment, as page ranges.
#[derive(Debug, Clone, Copy, PartialEq, Eq, Structural)]
pub struct Segment {
    pub start_page: u64,
    pub pages: u64,
    pub writable: bool,
}

/// A loadable program: its entry point and segments.
pub struct Program {
    pub entry: u64,
    pub segments: Vec<Segment>,
}

/// A process control block.
pub struct Process {
    pub pid: u16,
    pub name: Vec<u8>,
    pub parent: u16,
    pub children: Vec<u16>,
    pub ticks_passed: u64,
    pub status: ProgramStatus,
    pub context: ProcessContext,
    pub exit_code: Option<i64>,
    pub proc_vm: Option<ProcessVm>,
    pub data_id: Option<usize>,
}

/// The index of `pid` among `procs`, from `i` on.
pub open spec fn spec_pid_index(procs: Seq<Process>, i: int, pid: u16) -> Option<int>
    decreases procs.len() - i,
{
    if i < 0 || i >= procs.len() {
        None
    } else if procs[i].pid == pid {
        Some(i)
    } else {
        spec_pid_index(procs, i + 1, pid)
    }
}

/// The first wait-map entry that records waiters for `pid`, from `i` on.
pub open spec fn spec_wm_index(wm: Seq<(u16, Vec<u16>)>, i: int, pid: u16) -> Option<int>
    decreases wm.len() - i,
{
    if i < 0 || i >= wm.len() {
        None
    } else if wm[i].0 == pid {
        Some(i)
    } else {
        spec_wm_index(wm, i + 1, pid)
    }
}

/// The processes recorded as waiting on `pid`, if any.
pub open spec fn spec_kill_waiters(wm: Seq<(u16, Vec<u16>)>, pid: u16) -> Seq<u16> {
    match spec_wm_index(wm, 0, pid) {
        Some(j) => wm[j].1@,
        None => Seq::empty(),
    }
}

/// After `victim` is killed with code `ret`, a process `w` that was blocked
/// waiting on it has been woken: it is no longer blocked and, while it sits
/// ready, its saved context carries the exit code in `rax`.
pub open spec fn spec_woken(pre: ProcessManager, post: ProcessManager, w: u16, ret: i64, victim: u16) -> bool {
    match spec_pid_index(pre.spec_procs(), 0, w) {
        Some(i) => (w != victim && pre.spec_procs()[i].status is Blocked) ==> {
            &&& !(post.spec_procs()[i].status is Blocked)
            &&& !(post.spec_procs()[i].status is Dead)
            &&& (post.spec_procs()[i].status is Ready ==> post.spec_procs()[i].context.rax
                == ret as u64)
        },
        None => true,
    }
}

/// The process manager: every control block, the ready queue, the wait map,
/// the shared data slots, and the memory manager, all in one place.
pub struct ProcessManager {
    mm: MemoryManager,
    procs: Vec<Process>,
    ready_queue: Vec<u16>,
    wait_map: Vec<(u16, Vec<u16>)>,
    datas: Vec<DataSlot>,
    current: u16,
    next_pid: u16,
    app_list: Vec<(Vec<u8>, Program)>,
}

impl ProcessManager {
    pub closed spec fn spec_mm(&self) -> MemoryManager {
        self.mm
    }

    pub closed spec fn spec_procs(&self) -> Seq<Process> {
        self.procs@
    }

    pub closed spec fn spec_ready_queue(&self) -> Seq<u16> {
        self.ready_queue@
    }

    pub closed spec fn spec_wait_map(&self) -> Seq<(u16, Vec<u16>)> {
        self.wait_map@
    }

    pub closed spec fn spec_datas(&self) -> Seq<DataSlot> {
        self.datas@
    }

    pub closed spec fn spec_current(&self) -> u16 {
        self.current
    }

    pub closed spec fn spec_next_pid(&self) -> u16 {
        self.next_pid
    }

    pub closed spec fn spec_app_list(&self) -> Seq<(Vec<u8>, Program)> {
        self.app_list@
    }

    /// The index of a process by id.
    pub open spec fn spec_index_of(&self, pid: u16) -> Option<int> {
        spec_pid_index(self.spec_procs(), 0, pid)
    }

    /// Exactly one process is running, and it is the current one: a
    /// process's status is `Running` precisely when its id is the current
    /// id, and the current id names a process.
    pub open spec fn spec_one_running(&self) -> bool {
        &&& self.spec_index_of(self.spec_current()) is Some
        &&& forall|i: int|
            0 <= i < self.spec_procs().len() ==> (((#[trigger] self.spec_procs()[i]).status
                is Running) <==> self.spec_procs()[i].pid == self.spec_current())
    }

    /// Every ready-queue member names a process whose status is `Ready`;
    /// dead processes never appear in the queue.
    pub open spec fn spec_ready_queue_ready(&self) -> bool {
        forall|k: int|
            0 <= k < self.spec_ready_queue().len() ==> {
                let idx = spec_pid_index(
                    self.spec_procs(),
                    0,
                    #[trigger] self.spec_ready_queue()[k],
                );
                &&& idx is Some
                &&& self.spec_procs()[idx->Some_0].status is Ready
            }
    }

    /// A process has an exit code exactly when it is dead, and a dead
    /// process keeps no memory.
    pub open spec fn spec_dead_iff_exited(&self) -> bool {
        forall|i: int|
            0 <= i < self.spec_procs().len() ==> (((#[trigger] self.spec_procs()[i]).exit_code
                is Some) <==> self.spec_procs()[i].status is Dead) && (self.spec_procs()[i].status
                is Dead ==> self.spec_procs()[i].proc_vm is None) && (!(self.spec_procs()[i].status
                is Dead) ==> self.spec_procs()[i].proc_vm is Some && self.spec_procs()[i].data_id
                is Some)
    }

    /// Live processes occupy distinct stack slots, each within a single
    /// slot.
    pub open spec fn spec_slots_distinct(&self) -> bool {
        &&& forall|i: int|
            0 <= i < self.spec_procs().len() && (#[trigger] self.spec_procs()[i].proc_vm)
                is Some ==> self.spec_procs()[i].proc_vm->Some_0.wf()
                && self.spec_procs()[i].proc_vm->Some_0.table_id < self.spec_mm().spec_tables().len()
        &&& forall|i: int, j: int|
            0 <= i < self.spec_procs().len() && 0 <= j < self.spec_procs().len() && i != j && (
            #[trigger] self.spec_procs()[i].proc_vm) is Some && (
            #[trigger] self.spec_procs()[j].proc_vm) is Some
                ==> self.spec_procs()[i].proc_vm->Some_0.spec_slot()
                != self.spec_procs()[j].proc_vm->Some_0.spec_slot()
    }

    /// The kernel process exists, is never blocked or dead, and is either
    /// running or waiting in the ready queue.
    pub open spec fn spec_kernel_alive(&self) -> bool {
        &&& spec_pid_index(self.spec_procs(), 0, KERNEL_PID) is Some
        &&& {
            let k = spec_pid_index(self.spec_procs(), 0, KERNEL_PID)->Some_0;
            ||| self.spec_procs()[k].status is Running
            ||| (self.spec_procs()[k].status is Ready && self.spec_ready_queue().contains(
                KERNEL_PID,
            ))
        }
    }

    /// The manager's invariant: the memory manager is sound, process ids
    /// are distinct and below the next id, data references are valid, and
    /// the scheduling invariants above hold.
    pub open spec fn wf(&self) -> bool {
        &&& self.spec_mm().wf()
        &&& forall|i: int, j: int|
            0 <= i < j < self.spec_procs().len() ==> (#[trigger] self.spec_procs()[i]).pid != (
            #[trigger] self.spec_procs()[j]).pid
        &&& forall|i: int|
            0 <= i < self.spec_procs().len() ==> (#[trigger] self.spec_procs()[i]).pid
                < self.spec_next_pid()
        &&& forall|i: int|
            0 <= i < self.spec_procs().len() && (#[trigger] self.spec_procs()[i].data_id)
                is Some ==> self.spec_procs()[i].data_id->Some_0 < self.spec_datas().len()
        &&& forall|d: int|
            0 <= d < self.spec_datas().len() ==> (#[trigger] self.spec_datas()[d]).data.semaphores.wf()
        &&& self.spec_one_running()
        &&& self.spec_ready_queue_ready()
        &&& self.spec_dead_iff_exited()
        &&& self.spec_slots_distinct()
        &&& self.spec_kernel_alive()
    }

    /// Finds the position of a process by id.
    fn index_of(&self, pid: u16) -> (r: Option<usize>)
        ensures
            match r {
                Some(i) => self.spec_index_of(pid) == Some(i as int) && i < self.spec_procs().len()
                    && self.spec_procs()[i as int].pid == pid,
                None => self.spec_index_of(pid) is None,
            },
    {
        let n = self.procs.len();
        let mut i: usize = 0;
        while i < n
            invariant
                i <= n == self.spec_procs().len(),
                spec_pid_index(self.spec_procs(), 0, pid) == spec_pid_index(
                    self.spec_procs(),
                    i as int,
                    pid,
                ),
            decreases n - i,
        {
            if self.procs[i].pid == pid {
                return Some(i);
            }
            i = i + 1;
        }
        None
    }

    /// The current process id.
    pub fn get_pid(&self) -> (r: u16)
        ensures
            r == self.spec_current(),
    {
        self.current
    }
}

/// Two process sequences with the same ids agree on every id lookup.
proof fn lemma_pid_index_same_pids(a: Seq<Process>, b: Seq<Process>, i0: int, q: u16)
    requires
        a.len() == b.len(),
        forall|k: int| 0 <= k < a.len() ==> (#[trigger] a[k].pid) == b[k].pid,
        0 <= i0 <= a.len(),
    ensures
        spec_pid_index(a, i0, q) == spec_pid_index(b, i0, q),
    decreases a.len() - i0,
{
    if i0 < a.len() {
        assert(a[i0].pid == b[i0].pid);
        lemma_pid_index_same_pids(a, b, i0 + 1, q);
    }
}

/// The scan's result points at a matching process, and nothing before it
/// matches.
proof fn lemma_pid_index_props(procs: Seq<Process>, i0: int, pid: u16)
    requires
        0 <= i0 <= procs.len(),
    ensures
        match spec_pid_index(procs, i0, pid) {
            Some(i) => i0 <= i < procs.len() && procs[i].pid == pid && forall|j: int|
                i0 <= j < i ==> (#[trigger] procs[j].pid) != pid,
            None => forall|j: int| i0 <= j < procs.len() ==> (#[trigger] procs[j].pid) != pid,
        },
    decreases procs.len() - i0,
{
    if i0 < procs.len() && procs[i0].pid != pid {
        lemma_pid_index_props(procs, i0 + 1, pid);
    }
}

/// A scan that sees no match before `d`, and one at `d` unless `d` is the
/// length, resolves accordingly.
proof fn lemma_pid_index_char_from(s: Seq<Process>, i: int, d: int, q: u16)
    requires
        0 <= i <= d <= s.len(),
        forall|j: int| i <= j < d ==> (#[trigger] s[j].pid) != q,
        d < s.len() ==> s[d].pid == q,
    ensures
        spec_pid_index(s, i, q) == if d == s.len() {
            None
        } else {
            Some(d)
        },
    decreases d - i,
{
    if i < d {
        lemma_pid_index_char_from(s, i + 1, d, q);
    }
}

impl ProcessManager {
    /// Replaces the control block at `i`, keeping its id.
    fn set_proc(&mut self, i: usize, p: Process)
        requires
            i < old(self).spec_procs().len(),
        ensures
            final(self).spec_procs() == old(self).spec_procs().update(i as int, p),
            final(self).spec_mm() == old(self).spec_mm(),
            final(self).spec_ready_queue() == old(self).spec_ready_queue(),
            final(self).spec_wait_map() == old(self).spec_wait_map(),
            final(self).spec_datas() == old(self).spec_datas(),
            final(self).spec_current() == old(self).spec_current(),
            final(self).spec_next_pid() == old(self).spec_next_pid(),
            final(self).app_list@ == old(self).app_list@,
    {
        self.procs.remove(i);
        self.procs.insert(i, p);
        proof {
            assert(self.procs@ =~= old(self).procs@.update(i as int, p));
        }
    }

    /// Removes every occurrence of `pid` from the ready queue; everything
    /// else stays, in order.
    fn scrub_ready_queue(&mut self, pid: u16)
        ensures
            final(self).spec_procs() == old(self).spec_procs(),
            final(self).spec_mm() == old(self).spec_mm(),
            final(self).spec_wait_map() == old(self).spec_wait_map(),
            final(self).spec_datas() == old(self).spec_datas(),
            final(self).spec_current() == old(self).spec_current(),
            final(self).spec_next_pid() == old(self).spec_next_pid(),
            final(self).app_list@ == old(self).app_list@,
            forall|k: int|
                0 <= k < final(self).spec_ready_queue().len() ==> (
                #[trigger] final(self).spec_ready_queue()[k]) != pid && old(
                    self,
                ).spec_ready_queue().contains(final(self).spec_ready_queue()[k]),
            forall|k: int|
                0 <= k < old(self).spec_ready_queue().len() && (
                #[trigger] old(self).spec_ready_queue()[k]) != pid ==> final(self).spec_ready_queue().contains(old(self).spec_ready_queue()[k]),
    {
        let n = self.ready_queue.len();
        let mut out: Vec<u16> = Vec::new();
        let mut i: usize = 0;
        while i < n
            invariant
                i <= n == old(self).spec_ready_queue().len(),
                self.ready_queue@ == old(self).spec_ready_queue(),
                self.procs@ == old(self).procs@,
                self.wait_map@ == old(self).wait_map@,
                self.datas@.len() == old(self).datas@.len(),
                forall|k: int|
                    0 <= k < out@.len() ==> (#[trigger] out@[k]) != pid && old(
                        self,
                    ).spec_ready_queue().contains(out@[k]),
                forall|k: int|
                    0 <= k < i && (#[trigger] old(self).spec_ready_queue()[k]) != pid
                        ==> out@.contains(old(self).spec_ready_queue()[k]),
            decreases n - i,
        {
            let v = self.ready_queue[i];
            if v != pid {
                proof {
                    assert(old(self).spec_ready_queue()[i as int] == v);
                }
                let ghost before = out@;
                out.push(v);
                proof {
                    assert(out@.last() == v);
                    assert forall|k: int|
                        0 <= k < i + 1 && (#[trigger] old(self).spec_ready_queue()[k])
                            != pid implies out@.contains(old(self).spec_ready_queue()[k]) by {
                        if k < i {
                            let w = old(self).spec_ready_queue()[k];
                            assert(before.contains(w));
                            let x = choose|x: int| 0 <= x < before.len() && before[x] == w;
                            assert(out@[x] == w);
                        } else {
                            assert(out@[out@.len() - 1] == old(self).spec_ready_queue()[k]);
                        }
                    }
                }
            }
            i = i + 1;
        }
        self.ready_queue = out;
    }

    /// Hands the CPU to the next ready process: the current one is saved,
    /// its tick counter advanced, and it joins the back of the queue; the
    /// front of the queue is restored and becomes the running one. With an
    /// empty queue the current process keeps the CPU.
    #[verifier::rlimit(100)]
    pub fn switch(&mut self, ctx: &mut ProcessContext)
        requires
            old(self).wf(),
        ensures
            final(self).wf(),
            final(self).spec_procs().len() == old(self).spec_procs().len(),
            final(self).spec_current() == if old(self).spec_ready_queue().len() > 0 {
                old(self).spec_ready_queue()[0]
            } else {
                old(self).spec_current()
            },
            ({
                let oi = old(self).spec_index_of(old(self).spec_current())->Some_0;
                &&& final(self).spec_procs()[oi].context == *old(ctx)
                &&& (old(self).spec_procs()[oi].ticks_passed < u64::MAX ==> final(self).spec_procs()[oi].ticks_passed == old(self).spec_procs()[oi].ticks_passed + 1)
                &&& (old(self).spec_procs()[oi].ticks_passed == u64::MAX ==> final(self).spec_procs()[oi].ticks_passed == u64::MAX)
            }),
            ({
                let ni = final(self).spec_index_of(final(self).spec_current())->Some_0;
                *final(ctx) == final(self).spec_procs()[ni].context
            }),
    {
        proof {
            lemma_pid_index_props(self.spec_procs(), 0, self.current);
        }
        let cur = self.current;
        let i = match self.index_of(cur) {
            Some(i) => i,
            None => {
                proof {
                    assert(false);
                }
                return ;
            },
        };
        let ghost entry_procs = self.spec_procs();
        let mut p0 = self.procs.remove(i);
        if p0.ticks_passed < u64::MAX {
            p0.ticks_passed = p0.ticks_passed + 1;
        }
        p0.context = *ctx;
        p0.status = ProgramStatus::Ready;
        self.procs.insert(i, p0);
        proof {
            assert(self.spec_procs() =~= entry_procs.update(i as int, self.spec_procs()[i as int]));
        }
        self.ready_queue.push(cur);
        let nxt = self.ready_queue.remove(0);
        proof {
            if old(self).spec_ready_queue().len() > 0 {
                assert(nxt == old(self).spec_ready_queue()[0]);
            } else {
                assert(nxt == cur);
            }
        }
        let ghost q_after_pop = self.spec_ready_queue();
        self.scrub_ready_queue(nxt);
        let ghost q_scrubbed = self.spec_ready_queue();
        proof {
            assert forall|k: int|
                0 <= k < q_scrubbed.len() implies q_scrubbed[k] != nxt && q_after_pop.contains(
                q_scrubbed[k],
            ) by {
                assert(self.spec_ready_queue()[k] == q_scrubbed[k]);
            }
            assert forall|k: int|
                0 <= k < q_after_pop.len() && q_after_pop[k] != nxt implies q_scrubbed.contains(
                q_after_pop[k],
            ) by {}
        }
        proof {
            lemma_pid_index_same_pids(self.spec_procs(), entry_procs, 0, nxt);
            if nxt != cur {
                lemma_ready_queue_ready(old(self), 0);
            }
            lemma_pid_index_props(entry_procs, 0, nxt);
        }
        let j = match self.index_of(nxt) {
            Some(j) => j,
            None => {
                proof {
                    assert(false);
                }
                return ;
            },
        };
        let ghost procs_mid = self.spec_procs();
        let mut pj = self.procs.remove(j);
        pj.status = ProgramStatus::Running;
        *ctx = pj.context;
        self.procs.insert(j, pj);
        self.current = nxt;
        proof {
            assert(self.spec_procs() =~= procs_mid.update(j as int, self.spec_procs()[j as int]));
            let post = self.spec_procs();
            let pre = old(self).spec_procs();
            assert(post.len() == pre.len());
            assert forall|k: int| 0 <= k < post.len() implies (#[trigger] post[k].pid) == pre[
                k].pid by {}
            assert forall|q: u16| true implies #[trigger] spec_pid_index(post, 0, q)
                == spec_pid_index(pre, 0, q) by {
                lemma_pid_index_same_pids(post, pre, 0, q);
            }
            // Exactly one process runs: the new current.
            assert forall|k: int| 0 <= k < post.len() implies (((#[trigger] post[k]).status
                is Running) <==> post[k].pid == nxt) by {
                if k == j {
                } else if k == i {
                    assert(post[k].status is Ready);
                    assert(pre[k].pid == cur);
                    if post[k].pid == nxt {
                        assert(k == j);
                    }
                } else {
                    assert(post[k].status == pre[k].status);
                    assert(pre[k].pid != cur) by {
                        if pre[k].pid == cur {
                            lemma_pid_index_props(pre, 0, cur);
                        }
                    }
                    if post[k].pid == nxt {
                        assert(k == j) by {
                            lemma_pid_index_props(entry_procs, 0, nxt);
                        }
                    }
                }
            }
            // Every queue member is ready.
            assert forall|k: int| 0 <= k < self.spec_ready_queue().len() implies {
                let idx = spec_pid_index(post, 0, #[trigger] self.spec_ready_queue()[k]);
                &&& idx is Some
                &&& post[idx->Some_0].status is Ready
            } by {
                assert(self.spec_ready_queue() == q_scrubbed);
                let m = self.spec_ready_queue()[k];
                assert(m == q_scrubbed[k]);
                assert(m != nxt);
                assert(q_after_pop.contains(m));
                let x = choose|x: int| 0 <= x < q_after_pop.len() && q_after_pop[x] == m;
                if x < q_after_pop.len() - 1 {
                    assert(old(self).spec_ready_queue()[x + 1] == m);
                    lemma_ready_queue_ready(old(self), x + 1);
                    lemma_pid_index_props(pre, 0, m);
                    let idx = spec_pid_index(pre, 0, m)->Some_0;
                    assert(pre[idx].status is Ready);
                    assert(idx != i) by {
                        if idx == i {
                            assert(pre[i as int].status is Running);
                        }
                    }
                    assert(idx != j) by {
                        if idx == j {
                            assert(pre[idx].pid == nxt);
                        }
                    }
                    assert(post[idx] == pre[idx]);
                } else {
                    assert(m == cur);
                    lemma_pid_index_props(pre, 0, cur);
                    assert(spec_pid_index(pre, 0, cur) == Some(i as int));
                    assert(post[i as int].status is Ready) by {
                        if i == j {
                            assert(cur == nxt);
                            assert(false);
                        }
                    }
                }
            }
            // Dead processes and exit codes are untouched.
            assert forall|k: int| 0 <= k < post.len() implies (((#[trigger] post[k]).exit_code
                is Some) <==> post[k].status is Dead) && (post[k].status is Dead ==> post[
            k].proc_vm is None) && (!(post[k].status is Dead) ==> post[k].proc_vm is Some && post[
            k].data_id is Some) by {
                assert(post[k].data_id == pre[k].data_id);
                assert(post[k].exit_code == pre[k].exit_code);
                assert(post[k].proc_vm == pre[k].proc_vm);
                if k == i || k == j {
                    assert(pre[k].status is Running || pre[k].status is Ready) by {
                        if k == i {
                        } else {
                            lemma_ready_queue_ready(old(self), 0);
                            lemma_pid_index_props(pre, 0, nxt);
                        }
                    }
                    assert(!(post[k].status is Dead) && !(pre[k].status is Dead));
                } else {
                    assert(post[k].status == pre[k].status);
                }
            }
            // Memory images are untouched.
            assert forall|k: int|
                0 <= k < post.len() && (#[trigger] post[k].proc_vm) is Some implies post[
            k].proc_vm->Some_0.wf() && post[k].proc_vm->Some_0.table_id
                < self.spec_mm().spec_tables().len() by {
                assert(post[k].proc_vm == pre[k].proc_vm);
            }
            assert forall|a: int, b: int|
                0 <= a < post.len() && 0 <= b < post.len() && a != b && (
                #[trigger] post[a].proc_vm) is Some && (#[trigger] post[b].proc_vm)
                    is Some implies post[a].proc_vm->Some_0.spec_slot()
                != post[b].proc_vm->Some_0.spec_slot() by {
                assert(post[a].proc_vm == pre[a].proc_vm);
                assert(post[b].proc_vm == pre[b].proc_vm);
            }
            // Ids, data references and semaphore sets are untouched.
            assert forall|a: int, b: int| 0 <= a < b < post.len() implies (
            #[trigger] post[a]).pid != (#[trigger] post[b]).pid by {
                assert(post[a].pid == pre[a].pid && post[b].pid == pre[b].pid);
            }
            assert forall|k: int| 0 <= k < post.len() implies (#[trigger] post[k]).pid
                < self.spec_next_pid() by {
                assert(post[k].pid == pre[k].pid);
            }
            assert forall|k: int|
                0 <= k < post.len() && (#[trigger] post[k].data_id) is Some implies post[
            k].data_id->Some_0 < self.spec_datas().len() by {
                assert(post[k].data_id == pre[k].data_id);
                assert(self.spec_datas() == old(self).spec_datas());
            }
            assert(self.spec_datas() == old(self).spec_datas());
            assert forall|d: int| 0 <= d < self.spec_datas().len() implies (
            #[trigger] self.spec_datas()[d]).data.semaphores.wf() by {
                assert(self.spec_datas()[d] == old(self).spec_datas()[d]);
            }
            // The kernel stays runnable.
            assert(self.spec_kernel_alive()) by {
                lemma_pid_index_props(pre, 0, KERNEL_PID);
                let kk = spec_pid_index(pre, 0, KERNEL_PID)->Some_0;
                if nxt == KERNEL_PID {
                    assert(post[kk].status is Running) by {
                        assert(kk == j);
                    }
                } else if cur == KERNEL_PID {
                    assert(kk == i);
                    assert(i != j);
                    assert(post[kk].status is Ready);
                    assert(q_after_pop.contains(KERNEL_PID)) by {
                        assert(q_after_pop[q_after_pop.len() - 1] == cur);
                    }
                    let x2 = choose|x2: int|
                        0 <= x2 < q_after_pop.len() && q_after_pop[x2] == KERNEL_PID;
                    assert(q_scrubbed.contains(KERNEL_PID));
                    assert(self.spec_ready_queue() == q_scrubbed);
                    assert(self.spec_ready_queue().contains(KERNEL_PID));
                } else {
                    assert(kk != i && kk != j) by {
                        lemma_pid_index_props(entry_procs, 0, nxt);
                    }
                    assert(post[kk].status == pre[kk].status);
                    if pre[kk].status is Ready {
                        assert(old(self).spec_ready_queue().contains(KERNEL_PID));
                        let x = choose|x: int|
                            0 <= x < old(self).spec_ready_queue().len() && old(
                                self,
                            ).spec_ready_queue()[x] == KERNEL_PID;
                        assert(x != 0) by {
                            if x == 0 {
                                assert(old(self).spec_ready_queue().len() > 0);
                                assert(nxt == KERNEL_PID);
                            }
                        }
                        assert(q_after_pop[x - 1] == KERNEL_PID);
                        assert(q_after_pop.contains(KERNEL_PID));
                        assert(q_scrubbed.contains(KERNEL_PID));
                        assert(self.spec_ready_queue() == q_scrubbed);
                        assert(self.spec_ready_queue().contains(KERNEL_PID));
                    } else {
                        assert(pre[kk].status is Running);
                        assert(pre[kk].pid == cur);
                        assert(false);
                    }
                }
            }
        }
    }
}

/// A benign replacement of one control block — same id, status, exit code,
/// data slot, and a memory image in the same slot and address space —
/// together with memory-manager changes that keep its shape, preserves the
/// whole invariant.
proof fn lemma_wf_update_at(pre: &ProcessManager, post: &ProcessManager, i: int)
    requires
        pre.wf(),
        0 <= i < pre.spec_procs().len(),
        post.spec_procs().len() == pre.spec_procs().len(),
        forall|k: int| 0 <= k < pre.spec_procs().len() && k != i ==> (#[trigger] post.spec_procs()[
            k]) == pre.spec_procs()[k],
        post.spec_procs()[i].pid == pre.spec_procs()[i].pid,
        post.spec_procs()[i].status == pre.spec_procs()[i].status,
        post.spec_procs()[i].exit_code == pre.spec_procs()[i].exit_code,
        post.spec_procs()[i].data_id == pre.spec_procs()[i].data_id,
        (post.spec_procs()[i].proc_vm is Some <==> pre.spec_procs()[i].proc_vm is Some),
        post.spec_procs()[i].proc_vm is Some ==> post.spec_procs()[i].proc_vm->Some_0.wf() && post.spec_procs()[i].proc_vm->Some_0.spec_slot()
            == pre.spec_procs()[i].proc_vm->Some_0.spec_slot()
            && post.spec_procs()[i].proc_vm->Some_0.table_id
            == pre.spec_procs()[i].proc_vm->Some_0.table_id,
        post.spec_mm().wf(),
        post.spec_mm().spec_tables().len() == pre.spec_mm().spec_tables().len(),
        post.spec_ready_queue() == pre.spec_ready_queue(),
        post.spec_wait_map() == pre.spec_wait_map(),
        post.spec_datas().len() == pre.spec_datas().len(),
        forall|d: int|
            0 <= d < pre.spec_datas().len() ==> (#[trigger] post.spec_datas()[d]).data.semaphores.wf(),
        post.spec_current() == pre.spec_current(),
        post.spec_next_pid() == pre.spec_next_pid(),
    ensures
        post.wf(),
{
    assert forall|k: int| 0 <= k < post.spec_procs().len() implies (
    #[trigger] post.spec_procs()[k]).pid == pre.spec_procs()[k].pid by {}
    assert forall|q: u16| true implies #[trigger] spec_pid_index(post.spec_procs(), 0, q)
        == spec_pid_index(pre.spec_procs(), 0, q) by {
        lemma_pid_index_same_pids(post.spec_procs(), pre.spec_procs(), 0, q);
    }
    assert(post.spec_one_running()) by {
        assert forall|k: int| 0 <= k < post.spec_procs().len() implies (((
        #[trigger] post.spec_procs()[k]).status is Running) <==> post.spec_procs()[k].pid
            == post.spec_current()) by {
            assert(post.spec_procs()[k].status == pre.spec_procs()[k].status);
            assert(post.spec_procs()[k].pid == pre.spec_procs()[k].pid);
        }
    }
    assert(post.spec_ready_queue_ready()) by {
        assert forall|k: int| 0 <= k < post.spec_ready_queue().len() implies {
            let idx = spec_pid_index(
                post.spec_procs(),
                0,
                #[trigger] post.spec_ready_queue()[k],
            );
            &&& idx is Some
            &&& post.spec_procs()[idx->Some_0].status is Ready
        } by {
            let pid = post.spec_ready_queue()[k];
            assert(pre.spec_ready_queue()[k] == pid);
            lemma_pid_index_props(pre.spec_procs(), 0, pid);
            let idx = spec_pid_index(pre.spec_procs(), 0, pid)->Some_0;
            assert(post.spec_procs()[idx].status == pre.spec_procs()[idx].status);
        }
    }
    assert(post.spec_dead_iff_exited()) by {
        assert forall|k: int| 0 <= k < post.spec_procs().len() implies (((
        #[trigger] post.spec_procs()[k]).exit_code is Some) <==> post.spec_procs()[k].status
            is Dead) && (post.spec_procs()[k].status is Dead ==> post.spec_procs()[k].proc_vm
            is None) && (!(post.spec_procs()[k].status is Dead) ==> post.spec_procs()[k].proc_vm
            is Some && post.spec_procs()[k].data_id is Some) by {
            assert(post.spec_procs()[k].status == pre.spec_procs()[k].status);
            assert(post.spec_procs()[k].exit_code == pre.spec_procs()[k].exit_code);
            assert(post.spec_procs()[k].data_id == pre.spec_procs()[k].data_id);
            if k != i {
                assert(post.spec_procs()[k] == pre.spec_procs()[k]);
            }
        }
    }
    assert(post.spec_slots_distinct()) by {
        assert forall|k: int|
            0 <= k < post.spec_procs().len() && (#[trigger] post.spec_procs()[k].proc_vm)
                is Some implies post.spec_procs()[k].proc_vm->Some_0.wf()
            && post.spec_procs()[k].proc_vm->Some_0.table_id
            < post.spec_mm().spec_tables().len() by {
            if k != i {
                assert(post.spec_procs()[k] == pre.spec_procs()[k]);
            }
        }
        assert forall|a: int, b: int|
            0 <= a < post.spec_procs().len() && 0 <= b < post.spec_procs().len() && a != b && (
            #[trigger] post.spec_procs()[a].proc_vm) is Some && (
            #[trigger] post.spec_procs()[b].proc_vm) is Some implies post.spec_procs()[
        a].proc_vm->Some_0.spec_slot() != post.spec_procs()[b].proc_vm->Some_0.spec_slot() by {
            if a != i {
                assert(post.spec_procs()[a] == pre.spec_procs()[a]);
            }
            if b != i {
                assert(post.spec_procs()[b] == pre.spec_procs()[b]);
            }
        }
    }
    assert(post.spec_kernel_alive()) by {
        lemma_pid_index_props(pre.spec_procs(), 0, KERNEL_PID);
        let k = spec_pid_index(pre.spec_procs(), 0, KERNEL_PID)->Some_0;
        assert(post.spec_procs()[k].status == pre.spec_procs()[k].status);
        assert(post.spec_procs()[k].pid == pre.spec_procs()[k].pid);
    }
}

impl ProcessManager {
    /// Like `wf`, while nothing runs: the state between parking or killing
    /// the current process and restoring the next one.
    pub open spec fn spec_paused(&self) -> bool {
        &&& self.spec_mm().wf()
        &&& forall|i: int, j: int|
            0 <= i < j < self.spec_procs().len() ==> (#[trigger] self.spec_procs()[i]).pid != (
            #[trigger] self.spec_procs()[j]).pid
        &&& forall|i: int|
            0 <= i < self.spec_procs().len() ==> (#[trigger] self.spec_procs()[i]).pid
                < self.spec_next_pid()
        &&& forall|i: int|
            0 <= i < self.spec_procs().len() && (#[trigger] self.spec_procs()[i].data_id)
                is Some ==> self.spec_procs()[i].data_id->Some_0 < self.spec_datas().len()
        &&& forall|d: int|
            0 <= d < self.spec_datas().len() ==> (#[trigger] self.spec_datas()[d]).data.semaphores.wf()
        &&& forall|i: int|
            0 <= i < self.spec_procs().len() ==> !((#[trigger] self.spec_procs()[i]).status
                is Running)
        &&& self.spec_ready_queue_ready()
        &&& self.spec_dead_iff_exited()
        &&& self.spec_slots_distinct()
        &&& spec_pid_index(self.spec_procs(), 0, KERNEL_PID) is Some
        &&& ({
            let k = spec_pid_index(self.spec_procs(), 0, KERNEL_PID)->Some_0;
            self.spec_procs()[k].status is Ready && self.spec_ready_queue().contains(KERNEL_PID)
        })
    }

    /// Boots the manager: a memory manager over the given frame range, and
    /// the kernel process, running, as the only one.
    pub fn new(frame_start: u64, frame_end: u64) -> (r: Result<ProcessManager, crate::vm::MapError>)
        requires
            1 <= frame_start,
            frame_start + KSTACK_DEF_PAGES <= frame_end,
        ensures
            match r {
                Ok(m) => {
                    &&& m.wf()
                    &&& m.spec_current() == KERNEL_PID
                    &&& m.spec_procs().len() == 1
                    &&& m.spec_procs()[0].pid == KERNEL_PID
                    &&& m.spec_procs()[0].status is Running
                    &&& m.spec_ready_queue().len() == 0
                },
                Err(_) => false,
            },
    {
        let mut mm = MemoryManager::new(frame_start, frame_end);
        let vm = match ProcessVm::new_in_slot(&mut mm, KSTACK_SLOT, KSTACK_DEF_PAGES, false) {
            Ok(vm) => vm,
            Err(e) => {
                proof {
                    assert(false);
                }
                return Err(e);
            },
        };
        let mut datas: Vec<DataSlot> = Vec::new();
        datas.push(
            DataSlot {
                refs: 1,
                data: ProcessData {
                    env: Vec::new(),
                    resources: crate::resource::ResourceSet::new(),
                    semaphores: SemaphoreSet::new(),
                },
            },
        );
        let mut name: Vec<u8> = Vec::new();
        name.push(0x6B);
        name.push(0x65);
        name.push(0x72);
        name.push(0x6E);
        name.push(0x65);
        name.push(0x6C);
        let kproc = Process {
            pid: KERNEL_PID,
            name,
            parent: 0,
            children: Vec::new(),
            ticks_passed: 0,
            status: ProgramStatus::Running,
            context: ProcessContext::new(),
            exit_code: None,
            proc_vm: Some(vm),
            data_id: Some(0),
        };
        let mut procs: Vec<Process> = Vec::new();
        procs.push(kproc);
        let m = ProcessManager {
            mm,
            procs,
            ready_queue: Vec::new(),
            wait_map: Vec::new(),
            datas,
            current: KERNEL_PID,
            next_pid: 2,
            app_list: Vec::new(),
        };
        proof {
            assert(m.spec_procs()[0].pid == KERNEL_PID);
            assert(spec_pid_index(m.spec_procs(), 0, KERNEL_PID) == Some(0int));
            assert(spec_pid_index(m.spec_procs(), 0, m.spec_current()) is Some);
        }
        Ok(m)
    }

    /// Wakes a parked process: a blocked process gets the optional return
    /// value written into its saved context, turns ready, and joins the
    /// back of the queue; any other id changes nothing.
    pub fn wake_up(&mut self, pid: u16, ret: Option<u64>)
        requires
            old(self).wf(),
        ensures
            final(self).wf(),
            final(self).spec_procs().len() == old(self).spec_procs().len(),
            final(self).spec_current() == old(self).spec_current(),
            final(self).spec_datas() == old(self).spec_datas(),
            final(self).spec_wait_map() == old(self).spec_wait_map(),
            match old(self).spec_index_of(pid) {
                Some(i) => {
                    if old(self).spec_procs()[i].status is Blocked {
                        &&& final(self).spec_procs()[i].status is Ready
                        &&& final(self).spec_procs()[i].data_id == old(self).spec_procs()[i].data_id
                        &&& (ret matches Some(v) ==> final(self).spec_procs()[i].context.rax == v)
                        &&& (ret is None ==> final(self).spec_procs()[i].context == old(
                            self,
                        ).spec_procs()[i].context)
                        &&& final(self).spec_ready_queue() == old(self).spec_ready_queue().push(
                            pid,
                        )
                        &&& final(self).spec_procs()[i].pid == old(self).spec_procs()[i].pid
                        &&& (forall|k: int|
                            0 <= k < old(self).spec_procs().len() && k != i
                                ==> final(self).spec_procs()[k] == old(self).spec_procs()[k])
                    } else {
                        *final(self) == *old(self)
                    }
                },
                None => *final(self) == *old(self),
            },
    {
        proof {
            lemma_pid_index_props(self.spec_procs(), 0, pid);
        }
        let i = match self.index_of(pid) {
            Some(i) => i,
            None => {
                return ;
            },
        };
        let is_blocked = match self.procs[i].status {
            ProgramStatus::Blocked => true,
            _ => false,
        };
        if !is_blocked {
            return ;
        }
        let ghost pre = *self;
        let mut p = self.procs.remove(i);
        match ret {
            Some(v) => {
                p.context.rax = v;
            },
            None => {},
        }
        p.status = ProgramStatus::Ready;
        self.procs.insert(i, p);
        self.ready_queue.push(pid);
        proof {
            assert(self.spec_procs() =~= pre.spec_procs().update(
                i as int,
                self.spec_procs()[i as int],
            ));
            let post = self.spec_procs();
            let pres = pre.spec_procs();
            assert forall|k: int| 0 <= k < post.len() implies (#[trigger] post[k].pid) == pres[
                k].pid by {}
            assert forall|q: u16| true implies #[trigger] spec_pid_index(post, 0, q)
                == spec_pid_index(pres, 0, q) by {
                lemma_pid_index_same_pids(post, pres, 0, q);
            }
            assert forall|k: int| 0 <= k < post.len() implies (((#[trigger] post[k]).status
                is Running) <==> post[k].pid == self.spec_current()) by {
                if k != i {
                    assert(post[k] == pres[k]);
                }
            }
            assert forall|k: int| 0 <= k < self.spec_ready_queue().len() implies {
                let idx = spec_pid_index(post, 0, #[trigger] self.spec_ready_queue()[k]);
                &&& idx is Some
                &&& post[idx->Some_0].status is Ready
            } by {
                let m = self.spec_ready_queue()[k];
                lemma_pid_index_props(pres, 0, m);
                if k < self.spec_ready_queue().len() - 1 {
                    assert(pre.spec_ready_queue()[k] == m);
                    lemma_ready_queue_ready(&pre, k);
                    let idx = spec_pid_index(pres, 0, m)->Some_0;
                    if idx != i {
                        assert(post[idx] == pres[idx]);
                    }
                } else {
                    assert(m == pid);
                    assert(spec_pid_index(pres, 0, pid) == Some(i as int));
                }
            }
            assert forall|k: int| 0 <= k < post.len() implies (((#[trigger] post[k]).exit_code
                is Some) <==> post[k].status is Dead) && (post[k].status is Dead ==> post[
            k].proc_vm is None) && (!(post[k].status is Dead) ==> post[k].proc_vm is Some && post[
            k].data_id is Some) by {
                if k != i {
                    assert(post[k] == pres[k]);
                }
            }
            assert forall|k: int|
                0 <= k < post.len() && (#[trigger] post[k].proc_vm) is Some implies post[
            k].proc_vm->Some_0.wf() && post[k].proc_vm->Some_0.table_id
                < self.spec_mm().spec_tables().len() by {
                assert(post[k].proc_vm == pres[k].proc_vm);
            }
            assert forall|a: int, b: int|
                0 <= a < post.len() && 0 <= b < post.len() && a != b && (
                #[trigger] post[a].proc_vm) is Some && (#[trigger] post[b].proc_vm)
                    is Some implies post[a].proc_vm->Some_0.spec_slot()
                != post[b].proc_vm->Some_0.spec_slot() by {
                assert(post[a].proc_vm == pres[a].proc_vm);
                assert(post[b].proc_vm == pres[b].proc_vm);
            }
            assert forall|a: int, b: int| 0 <= a < b < post.len() implies (
            #[trigger] post[a]).pid != (#[trigger] post[b]).pid by {
                assert(post[a].pid == pres[a].pid && post[b].pid == pres[b].pid);
            }
            assert forall|k: int| 0 <= k < post.len() implies (#[trigger] post[k]).pid
                < self.spec_next_pid() by {
                assert(post[k].pid == pres[k].pid);
            }
            assert forall|k: int|
                0 <= k < post.len() && (#[trigger] post[k].data_id) is Some implies post[
            k].data_id->Some_0 < self.spec_datas().len() by {
                assert(post[k].data_id == pres[k].data_id);
            }
            assert(self.spec_kernel_alive()) by {
                lemma_pid_index_props(pres, 0, KERNEL_PID);
                let kk = spec_pid_index(pres, 0, KERNEL_PID)->Some_0;
                if kk == i {
                    assert(pres[kk].status is Blocked);
                    assert(false);
                } else {
                    assert(post[kk] == pres[kk]);
                    if pres[kk].status is Ready {
                        assert(pre.spec_ready_queue().contains(KERNEL_PID));
                        let x = choose|x: int|
                            0 <= x < pre.spec_ready_queue().len() && pre.spec_ready_queue()[x]
                                == KERNEL_PID;
                        assert(self.spec_ready_queue()[x] == KERNEL_PID);
                    }
                }
            }
        }
    }

    /// Restores the process at the front of the queue while nothing runs:
    /// it leaves the queue, turns running, becomes current, and its saved
    /// context comes back.
    fn pick_next(&mut self, ctx: &mut ProcessContext)
        requires
            old(self).spec_paused(),
        ensures
            final(self).wf(),
            final(self).spec_procs().len() == old(self).spec_procs().len(),
            final(self).spec_current() == old(self).spec_ready_queue()[0],
            final(self).spec_datas() == old(self).spec_datas(),
            final(self).spec_wait_map() == old(self).spec_wait_map(),
            forall|k: int|
                0 <= k < old(self).spec_procs().len() && !((
                #[trigger] old(self).spec_procs()[k]).status is Ready) ==> final(self).spec_procs()[k] == old(self).spec_procs()[k],
            forall|k: int|
                0 <= k < old(self).spec_procs().len() && ((
                #[trigger] old(self).spec_procs()[k]).status is Ready) ==> final(self).spec_procs()[k] == old(self).spec_procs()[k] || final(self).spec_procs()[k] == (Process {
                    status: ProgramStatus::Running,
                    ..old(self).spec_procs()[k]
                }),
            ({
                let ni = final(self).spec_index_of(final(self).spec_current())->Some_0;
                *final(ctx) == final(self).spec_procs()[ni].context
            }),
    {
        proof {
            let kk = spec_pid_index(self.spec_procs(), 0, KERNEL_PID)->Some_0;
            assert(self.spec_ready_queue().contains(KERNEL_PID));
            assert(self.spec_ready_queue().len() > 0);
        }
        let nxt = self.ready_queue.remove(0);
        let ghost q_after_pop = self.spec_ready_queue();
        self.scrub_ready_queue(nxt);
        let ghost q_scrubbed = self.spec_ready_queue();
        proof {
            assert forall|k: int|
                0 <= k < q_scrubbed.len() implies q_scrubbed[k] != nxt && q_after_pop.contains(
                q_scrubbed[k],
            ) by {
                assert(self.spec_ready_queue()[k] == q_scrubbed[k]);
            }
            assert forall|k: int|
                0 <= k < q_after_pop.len() && q_after_pop[k] != nxt implies q_scrubbed.contains(
                q_after_pop[k],
            ) by {}
            lemma_ready_queue_ready_paused(old(self), 0);
            lemma_pid_index_props(old(self).spec_procs(), 0, nxt);
        }
        let j = match self.index_of(nxt) {
            Some(j) => j,
            None => {
                proof {
                    assert(false);
                }
                return ;
            },
        };
        let ghost procs_mid = self.spec_procs();
        let mut pj = self.procs.remove(j);
        pj.status = ProgramStatus::Running;
        *ctx = pj.context;
        self.procs.insert(j, pj);
        self.current = nxt;
        proof {
            assert(self.spec_procs() =~= procs_mid.update(
                j as int,
                self.spec_procs()[j as int],
            ));
            let post = self.spec_procs();
            let pre = old(self).spec_procs();
            assert(post.len() == pre.len());
            assert forall|k: int| 0 <= k < post.len() implies (#[trigger] post[k].pid) == pre[
                k].pid by {}
            assert forall|q: u16| true implies #[trigger] spec_pid_index(post, 0, q)
                == spec_pid_index(pre, 0, q) by {
                lemma_pid_index_same_pids(post, pre, 0, q);
            }
            assert forall|k: int| 0 <= k < post.len() implies (((#[trigger] post[k]).status
                is Running) <==> post[k].pid == nxt) by {
                if k != j {
                    assert(post[k] == pre[k]);
                    if post[k].pid == nxt {
                        lemma_pid_index_props(pre, 0, nxt);
                    }
                }
            }
            assert forall|k: int| 0 <= k < self.spec_ready_queue().len() implies {
                let idx = spec_pid_index(post, 0, #[trigger] self.spec_ready_queue()[k]);
                &&& idx is Some
                &&& post[idx->Some_0].status is Ready
            } by {
                assert(self.spec_ready_queue() == q_scrubbed);
                let m = self.spec_ready_queue()[k];
                assert(m == q_scrubbed[k]);
                assert(m != nxt);
                assert(q_after_pop.contains(m));
                let x = choose|x: int| 0 <= x < q_after_pop.len() && q_after_pop[x] == m;
                assert(old(self).spec_ready_queue()[x + 1] == m);
                lemma_ready_queue_ready_paused(old(self), x + 1);
                lemma_pid_index_props(pre, 0, m);
                let idx = spec_pid_index(pre, 0, m)->Some_0;
                assert(idx != j) by {
                    if idx == j {
                        assert(pre[idx].pid == nxt);
                    }
                }
                assert(post[idx] == pre[idx]);
            }
            assert forall|k: int| 0 <= k < post.len() implies (((#[trigger] post[k]).exit_code
                is Some) <==> post[k].status is Dead) && (post[k].status is Dead ==> post[
            k].proc_vm is None) && (!(post[k].status is Dead) ==> post[k].proc_vm is Some && post[
            k].data_id is Some) by {
                if k != j {
                    assert(post[k] == pre[k]);
                } else {
                    lemma_ready_queue_ready_paused(old(self), 0);
                    lemma_pid_index_props(pre, 0, nxt);
                    assert(pre[k].status is Ready);
                }
            }
            assert forall|k: int|
                0 <= k < post.len() && (#[trigger] post[k].proc_vm) is Some implies post[
            k].proc_vm->Some_0.wf() && post[k].proc_vm->Some_0.table_id
                < self.spec_mm().spec_tables().len() by {
                assert(post[k].proc_vm == pre[k].proc_vm);
            }
            assert forall|a: int, b: int|
                0 <= a < post.len() && 0 <= b < post.len() && a != b && (
                #[trigger] post[a].proc_vm) is Some && (#[trigger] post[b].proc_vm)
                    is Some implies post[a].proc_vm->Some_0.spec_slot()
                != post[b].proc_vm->Some_0.spec_slot() by {
                assert(post[a].proc_vm == pre[a].proc_vm);
                assert(post[b].proc_vm == pre[b].proc_vm);
            }
            assert forall|a: int, b: int| 0 <= a < b < post.len() implies (
            #[trigger] post[a]).pid != (#[trigger] post[b]).pid by {
                assert(post[a].pid == pre[a].pid && post[b].pid == pre[b].pid);
            }
            assert forall|k: int| 0 <= k < post.len() implies (#[trigger] post[k]).pid
                < self.spec_next_pid() by {
                assert(post[k].pid == pre[k].pid);
            }
            assert forall|k: int|
                0 <= k < post.len() && (#[trigger] post[k].data_id) is Some implies post[
            k].data_id->Some_0 < self.spec_datas().len() by {
                assert(post[k].data_id == pre[k].data_id);
            }
            assert(self.spec_datas() == old(self).spec_datas());
            assert forall|d: int| 0 <= d < self.spec_datas().len() implies (
            #[trigger] self.spec_datas()[d]).data.semaphores.wf() by {
                assert(self.spec_datas()[d] == old(self).spec_datas()[d]);
            }
            assert(self.spec_kernel_alive()) by {
                lemma_pid_index_props(pre, 0, KERNEL_PID);
                let kk = spec_pid_index(pre, 0, KERNEL_PID)->Some_0;
                if nxt == KERNEL_PID {
                    assert(kk == j) by {
                        lemma_pid_index_props(pre, 0, nxt);
                    }
                    assert(post[kk].status is Running);
                } else {
                    assert(kk != j) by {
                        lemma_pid_index_props(pre, 0, nxt);
                    }
                    assert(post[kk] == pre[kk]);
                    assert(pre[kk].status is Ready);
                    assert(old(self).spec_ready_queue().contains(KERNEL_PID));
                    let x = choose|x: int|
                        0 <= x < old(self).spec_ready_queue().len() && old(
                            self,
                        ).spec_ready_queue()[x] == KERNEL_PID;
                    assert(x != 0) by {
                        if x == 0 {
                            assert(nxt == KERNEL_PID);
                        }
                    }
                    assert(q_after_pop[x - 1] == KERNEL_PID);
                    assert(q_after_pop.contains(KERNEL_PID));
                    assert(q_scrubbed.contains(KERNEL_PID));
                    assert(self.spec_ready_queue() == q_scrubbed);
                }
            }
        }
    }
}

impl ProcessManager {
    /// Marks a live process dead: its exit code is recorded, its memory
    /// torn down, its shared data released, and it leaves the ready queue.
    /// When the victim is the current process, nothing runs afterwards.
    fn mark_dead(&mut self, i: usize, ret: i64)
        requires
            old(self).wf(),
            i < old(self).spec_procs().len(),
            !(old(self).spec_procs()[i as int].status is Dead),
            old(self).spec_procs()[i as int].pid != KERNEL_PID,
        ensures
            final(self).spec_procs().len() == old(self).spec_procs().len(),
            final(self).spec_current() == old(self).spec_current(),
            final(self).spec_procs()[i as int].status is Dead,
            final(self).spec_procs()[i as int].exit_code == Some(ret),
            final(self).spec_procs()[i as int].data_id is None,
            final(self).spec_procs()[i as int].pid == old(self).spec_procs()[i as int].pid,
            old(self).spec_procs()[i as int].pid != old(self).spec_current() ==> final(self).wf(),
            old(self).spec_procs()[i as int].pid == old(self).spec_current() ==> final(self).spec_paused(),
            final(self).spec_wait_map() == old(self).spec_wait_map(),
            forall|k: int|
                0 <= k < old(self).spec_procs().len() && k != i ==> final(self).spec_procs()[k]
                    == old(self).spec_procs()[k],
    {
        let ghost pre = *self;
        let pid = self.procs[i].pid;
        let mut p = self.procs.remove(i);
        match p.proc_vm {
            Some(mut vm) => {
                vm.clean_up(&mut self.mm);
                p.proc_vm = None;
            },
            None => {
                proof {
                    assert(false);
                }
            },
        }
        match p.data_id {
            Some(d) => {
                if d < self.datas.len() {
                    let mut slot = self.datas.remove(d);
                    if slot.refs > 0 {
                        slot.refs = slot.refs - 1;
                    }
                    self.datas.insert(d, slot);
                    proof {
                        assert(self.spec_datas() =~= pre.spec_datas().update(
                            d as int,
                            self.spec_datas()[d as int],
                        ));
                    }
                }
                p.data_id = None;
            },
            None => {},
        }
        p.status = ProgramStatus::Dead;
        p.exit_code = Some(ret);
        self.procs.insert(i, p);
        proof {
            assert(self.spec_procs() =~= pre.spec_procs().update(
                i as int,
                self.spec_procs()[i as int],
            ));
        }
        let ghost mid = *self;
        self.scrub_ready_queue(pid);
        let ghost q_scrubbed = self.spec_ready_queue();
        proof {
            assert forall|k: int|
                0 <= k < q_scrubbed.len() implies q_scrubbed[k] != pid && mid.spec_ready_queue().contains(
                q_scrubbed[k],
            ) by {
                assert(self.spec_ready_queue()[k] == q_scrubbed[k]);
            }
            assert forall|k: int|
                0 <= k < mid.spec_ready_queue().len() && mid.spec_ready_queue()[k]
                    != pid implies q_scrubbed.contains(mid.spec_ready_queue()[k]) by {
                assert(old(self).spec_ready_queue()[k] == mid.spec_ready_queue()[k]);
            }
            let post = self.spec_procs();
            let pres = pre.spec_procs();
            assert forall|k: int| 0 <= k < post.len() implies (#[trigger] post[k].pid) == pres[
                k].pid by {}
            assert forall|q: u16| true implies #[trigger] spec_pid_index(post, 0, q)
                == spec_pid_index(pres, 0, q) by {
                lemma_pid_index_same_pids(post, pres, 0, q);
            }
            lemma_pid_index_props(pres, 0, pid);
            assert(spec_pid_index(pres, 0, pid) == Some(i as int)) by {
                lemma_entry_unique_pid(pres, pid, i as int);
            }
            assert forall|k: int| 0 <= k < post.len() && k != i implies #[trigger] post[k]
                == pres[k] by {}
            // Statuses: the victim is dead; everything else is as before.
            if pid != pre.spec_current() {
                assert forall|k: int| 0 <= k < post.len() implies (((#[trigger] post[k]).status
                    is Running) <==> post[k].pid == self.spec_current()) by {
                    if k != i {
                        assert(post[k] == pres[k]);
                    } else {
                        assert(post[k].pid == pid);
                        assert(pid != pre.spec_current());
                    }
                }
                lemma_pid_index_props(pres, 0, pre.spec_current());
            } else {
                assert forall|k: int| 0 <= k < post.len() implies !((
                #[trigger] post[k]).status is Running) by {
                    if k != i {
                        assert(post[k] == pres[k]);
                        if pres[k].status is Running {
                            assert(pres[k].pid == pre.spec_current());
                            lemma_pid_index_props(pres, 0, pid);
                            lemma_entry_unique_pid(pres, pid, i as int);
                            assert(k == i);
                        }
                    }
                }
            }
            // Queue members stay ready.
            assert forall|k: int| 0 <= k < self.spec_ready_queue().len() implies {
                let idx = spec_pid_index(post, 0, #[trigger] self.spec_ready_queue()[k]);
                &&& idx is Some
                &&& post[idx->Some_0].status is Ready
            } by {
                assert(self.spec_ready_queue() == q_scrubbed);
                let m = q_scrubbed[k];
                assert(m != pid);
                assert(mid.spec_ready_queue().contains(m));
                let x = choose|x: int|
                    0 <= x < mid.spec_ready_queue().len() && mid.spec_ready_queue()[x] == m;
                assert(old(self).spec_ready_queue()[x] == m);
                lemma_ready_queue_ready(old(self), x);
                lemma_pid_index_props(pres, 0, m);
                let idx = spec_pid_index(pres, 0, m)->Some_0;
                assert(idx != i) by {
                    if idx == i {
                        assert(pres[idx].pid == pid);
                    }
                }
                assert(post[idx] == pres[idx]);
            }
            assert forall|k: int| 0 <= k < post.len() implies (((#[trigger] post[k]).exit_code
                is Some) <==> post[k].status is Dead) && (post[k].status is Dead ==> post[
            k].proc_vm is None) && (!(post[k].status is Dead) ==> post[k].proc_vm is Some && post[
            k].data_id is Some) by {
                if k != i {
                    assert(post[k] == pres[k]);
                }
            }
            assert forall|k: int|
                0 <= k < post.len() && (#[trigger] post[k].proc_vm) is Some implies post[
            k].proc_vm->Some_0.wf() && post[k].proc_vm->Some_0.table_id
                < self.spec_mm().spec_tables().len() by {
                assert(k != i);
                assert(post[k] == pres[k]);
            }
            assert forall|a: int, b: int|
                0 <= a < post.len() && 0 <= b < post.len() && a != b && (
                #[trigger] post[a].proc_vm) is Some && (#[trigger] post[b].proc_vm)
                    is Some implies post[a].proc_vm->Some_0.spec_slot()
                != post[b].proc_vm->Some_0.spec_slot() by {
                assert(a != i && b != i);
                assert(post[a] == pres[a] && post[b] == pres[b]);
            }
            assert forall|a: int, b: int| 0 <= a < b < post.len() implies (
            #[trigger] post[a]).pid != (#[trigger] post[b]).pid by {
                assert(post[a].pid == pres[a].pid && post[b].pid == pres[b].pid);
            }
            assert forall|k: int| 0 <= k < post.len() implies (#[trigger] post[k]).pid
                < self.spec_next_pid() by {
                assert(post[k].pid == pres[k].pid);
            }
            assert forall|k: int|
                0 <= k < post.len() && (#[trigger] post[k].data_id) is Some implies post[
            k].data_id->Some_0 < self.spec_datas().len() by {
                assert(k != i);
                assert(post[k] == pres[k]);
                assert(self.spec_datas().len() == pre.spec_datas().len());
            }
            assert forall|d: int| 0 <= d < self.spec_datas().len() implies (
            #[trigger] self.spec_datas()[d]).data.semaphores.wf() by {
                assert(self.spec_datas()[d].data.semaphores == pre.spec_datas()[d].data.semaphores);
            }
            // The kernel stays runnable.
            lemma_pid_index_props(pres, 0, KERNEL_PID);
            let kk = spec_pid_index(pres, 0, KERNEL_PID)->Some_0;
            assert(kk != i) by {
                assert(pres[i as int].pid == pid);
                assert(pid != KERNEL_PID);
                if kk == i {
                    assert(pres[kk].pid == KERNEL_PID);
                }
            }
            assert(post[kk] == pres[kk]);
            if pres[kk].status is Ready {
                assert(pre.spec_ready_queue().contains(KERNEL_PID));
                let x = choose|x: int|
                    0 <= x < pre.spec_ready_queue().len() && pre.spec_ready_queue()[x]
                        == KERNEL_PID;
                assert(mid.spec_ready_queue()[x] == KERNEL_PID);
                assert(q_scrubbed.contains(KERNEL_PID));
                assert(self.spec_ready_queue() == q_scrubbed);
            }
            if pid == pre.spec_current() {
                assert(!(pres[kk].status is Running)) by {
                    if pres[kk].status is Running {
                        assert(pres[kk].pid == pre.spec_current());
                        assert(KERNEL_PID == pid);
                    }
                }
            }
        }
    }

    /// Parks the current process: it stops running and waits to be woken.
    /// Nothing runs afterwards.
    fn park_current(&mut self)
        requires
            old(self).wf(),
            old(self).spec_current() != KERNEL_PID,
        ensures
            final(self).spec_paused(),
            final(self).spec_procs().len() == old(self).spec_procs().len(),
            final(self).spec_ready_queue() == old(self).spec_ready_queue(),
            final(self).spec_wait_map() == old(self).spec_wait_map(),
            final(self).spec_datas() == old(self).spec_datas(),
            final(self).spec_current() == old(self).spec_current(),
            ({
                let i = old(self).spec_index_of(old(self).spec_current())->Some_0;
                final(self).spec_procs()[i].status is Blocked && forall|k: int|
                    0 <= k < old(self).spec_procs().len() && k != i
                        ==> final(self).spec_procs()[k] == old(self).spec_procs()[k]
            }),
    {
        proof {
            lemma_pid_index_props(self.spec_procs(), 0, self.current);
        }
        let i = match self.index_of(self.current) {
            Some(i) => i,
            None => {
                proof {
                    assert(false);
                }
                return ;
            },
        };
        let ghost pre = *self;
        let mut p = self.procs.remove(i);
        p.status = ProgramStatus::Blocked;
        self.procs.insert(i, p);
        proof {
            assert(self.spec_procs() =~= pre.spec_procs().update(
                i as int,
                self.spec_procs()[i as int],
            ));
            let post = self.spec_procs();
            let pres = pre.spec_procs();
            assert forall|k: int| 0 <= k < post.len() implies (#[trigger] post[k].pid) == pres[
                k].pid by {}
            assert forall|q: u16| true implies #[trigger] spec_pid_index(post, 0, q)
                == spec_pid_index(pres, 0, q) by {
                lemma_pid_index_same_pids(post, pres, 0, q);
            }
            assert forall|k: int| 0 <= k < post.len() && k != i implies #[trigger] post[k]
                == pres[k] by {}
            assert forall|k: int| 0 <= k < post.len() implies !((#[trigger] post[k]).status
                is Running) by {
                if k != i {
                    assert(post[k] == pres[k]);
                    if pres[k].status is Running {
                        assert(pres[k].pid == pre.spec_current());
                        lemma_pid_index_props(pres, 0, pre.spec_current());
                        lemma_entry_unique_pid(pres, pre.spec_current(), i as int);
                    }
                }
            }
            assert forall|k: int| 0 <= k < self.spec_ready_queue().len() implies {
                let idx = spec_pid_index(post, 0, #[trigger] self.spec_ready_queue()[k]);
                &&& idx is Some
                &&& post[idx->Some_0].status is Ready
            } by {
                let m = self.spec_ready_queue()[k];
                assert(pre.spec_ready_queue()[k] == m);
                lemma_ready_queue_ready(&pre, k);
                lemma_pid_index_props(pres, 0, m);
                let idx = spec_pid_index(pres, 0, m)->Some_0;
                assert(idx != i) by {
                    if idx == i {
                        assert(pres[idx].pid == pre.spec_current());
                        assert(pres[idx].status is Running);
                    }
                }
                assert(post[idx] == pres[idx]);
            }
            assert forall|k: int| 0 <= k < post.len() implies (((#[trigger] post[k]).exit_code
                is Some) <==> post[k].status is Dead) && (post[k].status is Dead ==> post[
            k].proc_vm is None) && (!(post[k].status is Dead) ==> post[k].proc_vm is Some && post[
            k].data_id is Some) by {
                if k != i {
                    assert(post[k] == pres[k]);
                }
            }
            assert forall|k: int|
                0 <= k < post.len() && (#[trigger] post[k].proc_vm) is Some implies post[
            k].proc_vm->Some_0.wf() && post[k].proc_vm->Some_0.table_id
                < self.spec_mm().spec_tables().len() by {
                assert(post[k].proc_vm == pres[k].proc_vm);
            }
            assert forall|a: int, b: int|
                0 <= a < post.len() && 0 <= b < post.len() && a != b && (
                #[trigger] post[a].proc_vm) is Some && (#[trigger] post[b].proc_vm)
                    is Some implies post[a].proc_vm->Some_0.spec_slot()
                != post[b].proc_vm->Some_0.spec_slot() by {
                assert(post[a].proc_vm == pres[a].proc_vm);
                assert(post[b].proc_vm == pres[b].proc_vm);
            }
            assert forall|a: int, b: int| 0 <= a < b < post.len() implies (
            #[trigger] post[a]).pid != (#[trigger] post[b]).pid by {
                assert(post[a].pid == pres[a].pid && post[b].pid == pres[b].pid);
            }
            assert forall|k: int| 0 <= k < post.len() implies (#[trigger] post[k]).pid
                < self.spec_next_pid() by {
                assert(post[k].pid == pres[k].pid);
            }
            assert forall|k: int|
                0 <= k < post.len() && (#[trigger] post[k].data_id) is Some implies post[
            k].data_id->Some_0 < self.spec_datas().len() by {
                assert(post[k].data_id == pres[k].data_id);
            }
            lemma_pid_index_props(pres, 0, KERNEL_PID);
            let kk = spec_pid_index(pres, 0, KERNEL_PID)->Some_0;
            assert(kk != i) by {
                assert(pres[i as int].pid == pre.spec_current());
                assert(pre.spec_current() != KERNEL_PID);
                if kk == i {
                    assert(pres[kk].pid == KERNEL_PID);
                }
            }
            assert(post[kk] == pres[kk]);
            assert(pres[kk].status is Ready) by {
                if pres[kk].status is Running {
                    assert(pres[kk].pid == pre.spec_current());
                }
            }
        }
    }
}

impl ProcessManager {
    /// The exit code of a process, when it has exited.
    pub fn get_exit_code(&self, pid: u16) -> (r: Option<i64>)
        ensures
            match self.spec_index_of(pid) {
                Some(i) => r == self.spec_procs()[i].exit_code,
                None => r is None,
            },
    {
        match self.index_of(pid) {
            Some(i) => self.procs[i].exit_code,
            None => None,
        }
    }

    /// The status of a process.
    pub fn get_status(&self, pid: u16) -> (r: Option<ProgramStatus>)
        ensures
            match self.spec_index_of(pid) {
                Some(i) => r == Some(self.spec_procs()[i].status),
                None => r is None,
            },
    {
        match self.index_of(pid) {
            Some(i) => Some(self.procs[i].status),
            None => None,
        }
    }

    /// How many processes the manager knows, dead ones included.
    pub fn process_count(&self) -> (r: usize)
        ensures
            r == self.spec_procs().len(),
    {
        self.procs.len()
    }

    /// How many processes wait in the ready queue.
    pub fn ready_len(&self) -> (r: usize)
        ensures
            r == self.spec_ready_queue().len(),
    {
        self.ready_queue.len()
    }

    /// Registers a loadable program under a name.
    pub fn register_app(&mut self, name: Vec<u8>, program: Program)
        requires
            old(self).wf(),
        ensures
            final(self).wf(),
            final(self).spec_procs() == old(self).spec_procs(),
            final(self).spec_current() == old(self).spec_current(),
    {
        self.app_list.push((name, program));
        proof {
            lemma_wf_same_core(old(self), self);
        }
    }

    /// Kills a process: the victim turns dead with the given exit code, its
    /// memory is torn down, and everyone waiting on it is woken with that
    /// code. Killing the kernel is refused and changes nothing. Killing the
    /// current process hands the CPU to the next ready one.
    #[verifier::rlimit(60)]
    pub fn kill(&mut self, pid: u16, ret: i64, ctx: &mut ProcessContext)
        requires
            old(self).wf(),
        ensures
            final(self).wf(),
            pid == KERNEL_PID ==> *final(self) == *old(self) && *final(ctx) == *old(ctx),
            old(self).spec_index_of(pid) is None ==> *final(self) == *old(self) && *final(ctx)
                == *old(ctx),
            (match old(self).spec_index_of(pid) {
                Some(i) => old(self).spec_procs()[i].status is Dead,
                None => false,
            }) ==> *final(self) == *old(self) && *final(ctx) == *old(ctx),
            pid != KERNEL_PID && (match old(self).spec_index_of(pid) {
                Some(i) => !(old(self).spec_procs()[i].status is Dead),
                None => false,
            }) ==> (match final(self).spec_index_of(pid) {
                Some(k) => final(self).spec_procs()[k].status is Dead && final(self).spec_procs()[k].exit_code == Some(ret) && final(self).spec_procs()[k].data_id is None,
                None => false,
            }) && final(self).spec_current() != pid,
            pid != KERNEL_PID && (match old(self).spec_index_of(pid) {
                Some(i) => !(old(self).spec_procs()[i].status is Dead),
                None => false,
            }) ==> (match spec_wm_index(old(self).spec_wait_map(), 0, pid) {
                Some(j) => final(self).spec_wait_map() == old(self).spec_wait_map().remove(j),
                None => final(self).spec_wait_map() == old(self).spec_wait_map(),
            }) && (forall|q: int|
                0 <= q < spec_kill_waiters(old(self).spec_wait_map(), pid).len() ==> spec_woken(
                    *old(self),
                    *final(self),
                    #[trigger] spec_kill_waiters(old(self).spec_wait_map(), pid)[q],
                    ret,
                    pid,
                )),
    {
        if pid == KERNEL_PID {
            return ;
        }
        let i0 = match self.index_of(pid) {
            Some(i) => i,
            None => {
                return ;
            },
        };
        let is_dead = match self.procs[i0].status {
            ProgramStatus::Dead => true,
            _ => false,
        };
        if is_dead {
            return ;
        }
        let ghost pre0 = *self;
        proof {
            assert(pre0 == *old(self));
        }
        let waiters = self.take_waiters(pid);
        let mut w: usize = 0;
        while w < waiters.len()
            invariant
                self.wf(),
                self.spec_procs().len() == old(self).spec_procs().len(),
                forall|k: int|
                    0 <= k < self.spec_procs().len() ==> (#[trigger] self.spec_procs()[k]).pid
                        == old(self).spec_procs()[k].pid,
                forall|k: int|
                    0 <= k < self.spec_procs().len() ==> ((#[trigger] self.spec_procs()[k]).status
                        is Dead) == (old(self).spec_procs()[k].status is Dead),
                forall|k: int|
                    0 <= k < self.spec_procs().len() ==> (#[trigger] self.spec_procs()[k]).data_id
                        == old(self).spec_procs()[k].data_id,
                forall|k: int|
                    0 <= k < self.spec_procs().len() && old(self).spec_procs()[k].status is Blocked
                        ==> (#[trigger] self.spec_procs()[k]) == old(self).spec_procs()[k] || (
                    self.spec_procs()[k].status is Ready && self.spec_procs()[k].context.rax
                        == ret as u64),
                forall|q: int|
                    0 <= q < w ==> (match spec_pid_index(
                        self.spec_procs(),
                        0,
                        #[trigger] waiters@[q],
                    ) {
                        Some(i) => !(self.spec_procs()[i].status is Blocked),
                        None => true,
                    }),
                (match spec_wm_index(old(self).spec_wait_map(), 0, pid) {
                    Some(j) => self.spec_wait_map() == old(self).spec_wait_map().remove(j)
                        && waiters == old(self).spec_wait_map()[j].1,
                    None => self.spec_wait_map() == old(self).spec_wait_map() && waiters@.len()
                        == 0,
                }),
                self.spec_current() == old(self).spec_current(),
            decreases waiters.len() - w,
        {
            let ghost before = *self;
            self.wake_up(waiters[w], Some(ret as u64));
            proof {
                assert forall|k: int|
                    0 <= k < self.spec_procs().len() implies (#[trigger] self.spec_procs()[k]).pid
                    == old(self).spec_procs()[k].pid && ((self.spec_procs()[k].status is Dead) == (
                old(self).spec_procs()[k].status is Dead)) && (self.spec_procs()[k].data_id == old(
                    self,
                ).spec_procs()[k].data_id) by {
                    match spec_pid_index(before.spec_procs(), 0, waiters[w as int]) {
                        Some(wi) => {
                            if before.spec_procs()[wi].status is Blocked {
                                if k != wi {
                                    assert(self.spec_procs()[k] == before.spec_procs()[k]);
                                }
                            } else {
                                assert(*self == before);
                            }
                        },
                        None => {
                            assert(*self == before);
                        },
                    }
                }
                assert forall|k: int|
                    0 <= k < self.spec_procs().len() && old(self).spec_procs()[k].status is Blocked
                    implies (#[trigger] self.spec_procs()[k]) == old(self).spec_procs()[k] || (
                self.spec_procs()[k].status is Ready && self.spec_procs()[k].context.rax
                    == ret as u64) by {
                    match spec_pid_index(before.spec_procs(), 0, waiters[w as int]) {
                        Some(wi) => {
                            if before.spec_procs()[wi].status is Blocked {
                                if k != wi {
                                    assert(self.spec_procs()[k] == before.spec_procs()[k]);
                                }
                            } else {
                                assert(*self == before);
                            }
                        },
                        None => {
                            assert(*self == before);
                        },
                    }
                }
                assert forall|q: int| 0 <= q < w + 1 implies (match spec_pid_index(
                    self.spec_procs(),
                    0,
                    #[trigger] waiters@[q],
                ) {
                    Some(i) => !(self.spec_procs()[i].status is Blocked),
                    None => true,
                }) by {
                    let x = waiters@[q];
                    lemma_pid_index_same_pids(self.spec_procs(), before.spec_procs(), 0, x);
                    lemma_pid_index_props(before.spec_procs(), 0, x);
                    lemma_pid_index_props(self.spec_procs(), 0, x);
                    match spec_pid_index(before.spec_procs(), 0, waiters[w as int]) {
                        Some(wi) => {
                            if before.spec_procs()[wi].status is Blocked {
                                match spec_pid_index(before.spec_procs(), 0, x) {
                                    Some(ix) => {
                                        if ix != wi {
                                            assert(self.spec_procs()[ix]
                                                == before.spec_procs()[ix]);
                                        }
                                    },
                                    None => {},
                                }
                            } else {
                                assert(*self == before);
                            }
                        },
                        None => {
                            assert(*self == before);
                        },
                    }
                }
            }
            w = w + 1;
        }
        let i = match self.index_of(pid) {
            Some(i) => i,
            None => {
                proof {
                    lemma_pid_index_props(old(self).spec_procs(), 0, pid);
                    lemma_pid_index_same_pids(self.spec_procs(), old(self).spec_procs(), 0, pid);
                    assert(false);
                }
                return ;
            },
        };
        proof {
            lemma_pid_index_props(self.spec_procs(), 0, pid);
            lemma_pid_index_same_pids(self.spec_procs(), old(self).spec_procs(), 0, pid);
            lemma_pid_index_props(old(self).spec_procs(), 0, pid);
        }
        let ghost after_loop = *self;
        let self_kill = pid == self.get_pid();
        self.mark_dead(i, ret);
        let ghost after_dead = *self;
        proof {
            assert forall|k: int| 0 <= k < after_dead.spec_procs().len() implies (
            #[trigger] after_dead.spec_procs()[k].pid) == after_loop.spec_procs()[k].pid by {
                if k != i as int {
                    assert(after_dead.spec_procs()[k] == after_loop.spec_procs()[k]);
                }
            }
        }
        if self_kill {
            self.pick_next(ctx);
        }
        proof {
            assert forall|k: int| 0 <= k < self.spec_procs().len() implies (
            #[trigger] self.spec_procs()[k].pid) == after_dead.spec_procs()[k].pid && ((
            after_dead.spec_procs()[k].status is Dead) ==> self.spec_procs()[k]
                == after_dead.spec_procs()[k]) by {
                if self_kill {
                    if after_dead.spec_procs()[k].status is Ready {
                        assert(self.spec_procs()[k] == after_dead.spec_procs()[k]
                            || self.spec_procs()[k] == (Process {
                            status: ProgramStatus::Running,
                            ..after_dead.spec_procs()[k]
                        }));
                    } else {
                        assert(self.spec_procs()[k] == after_dead.spec_procs()[k]);
                    }
                } else {
                    assert(*self == after_dead);
                }
            }
            lemma_pid_index_same_pids(self.spec_procs(), after_dead.spec_procs(), 0, pid);
            lemma_pid_index_same_pids(after_dead.spec_procs(), after_loop.spec_procs(), 0, pid);
            lemma_pid_index_props(after_loop.spec_procs(), 0, pid);
            lemma_pid_index_props(self.spec_procs(), 0, pid);
            assert(spec_pid_index(after_loop.spec_procs(), 0, pid) == Some(i as int));
            assert(self.spec_procs()[i as int] == after_dead.spec_procs()[i as int]);
            assert(self.spec_procs()[i as int].status is Dead);
            assert(self.spec_wait_map() == after_loop.spec_wait_map());
            assert forall|q: int|
                0 <= q < spec_kill_waiters(old(self).spec_wait_map(), pid).len() implies spec_woken(
                *old(self),
                *self,
                #[trigger] spec_kill_waiters(old(self).spec_wait_map(), pid)[q],
                ret,
                pid,
            ) by {
                match spec_wm_index(old(self).spec_wait_map(), 0, pid) {
                    Some(j) => {
                        let x = spec_kill_waiters(old(self).spec_wait_map(), pid)[q];
                        assert(x == waiters@[q]);
                        lemma_pid_index_props(old(self).spec_procs(), 0, x);
                        lemma_pid_index_same_pids(
                            after_loop.spec_procs(),
                            old(self).spec_procs(),
                            0,
                            x,
                        );
                        match spec_pid_index(old(self).spec_procs(), 0, x) {
                            Some(ix) => {
                                if x != pid && old(self).spec_procs()[ix].status is Blocked {
                                    assert(!(after_loop.spec_procs()[ix].status is Blocked));
                                    assert(after_loop.spec_procs()[ix].status is Ready
                                        && after_loop.spec_procs()[ix].context.rax == ret as u64);
                                    assert(after_loop.spec_procs()[ix].pid == x);
                                    assert(after_loop.spec_procs()[i as int].pid == pid);
                                    assert(ix != i as int);
                                    assert(after_dead.spec_procs()[ix]
                                        == after_loop.spec_procs()[ix]);
                                    if self_kill {
                                        assert(self.spec_procs()[ix] == after_dead.spec_procs()[ix]
                                            || self.spec_procs()[ix] == (Process {
                                            status: ProgramStatus::Running,
                                            ..after_dead.spec_procs()[ix]
                                        }));
                                    } else {
                                        assert(*self == after_dead);
                                    }
                                }
                            },
                            None => {},
                        }
                    },
                    None => {},
                }
            }
        }
    }

    /// Takes the set of processes waiting on `pid` out of the wait map.
    fn take_waiters(&mut self, pid: u16) -> (r: Vec<u16>)
        requires
            old(self).wf(),
        ensures
            final(self).wf(),
            final(self).spec_procs() == old(self).spec_procs(),
            final(self).spec_current() == old(self).spec_current(),
            final(self).spec_ready_queue() == old(self).spec_ready_queue(),
            final(self).spec_procs().len() == old(self).spec_procs().len(),
            (match spec_wm_index(old(self).spec_wait_map(), 0, pid) {
                Some(j) => final(self).spec_wait_map() == old(self).spec_wait_map().remove(j) && r
                    == old(self).spec_wait_map()[j].1,
                None => final(self).spec_wait_map() == old(self).spec_wait_map() && r@.len() == 0,
            }),
    {
        let n = self.wait_map.len();
        let mut i: usize = 0;
        while i < n
            invariant
                old(self).wf(),
                i <= n == self.wait_map@.len(),
                self.procs@ == old(self).procs@,
                self.ready_queue@ == old(self).ready_queue@,
                self.datas@ == old(self).datas@,
                self.wait_map@ == old(self).wait_map@,
                self.mm == old(self).mm,
                self.current == old(self).current,
                self.next_pid == old(self).next_pid,
                spec_wm_index(old(self).wait_map@, 0, pid) == spec_wm_index(
                    old(self).wait_map@,
                    i as int,
                    pid,
                ),
            decreases n - i,
        {
            if self.wait_map[i].0 == pid {
                let entry = self.wait_map.remove(i);
                proof {
                    lemma_wf_same_core(old(self), self);
                    assert(spec_wm_index(old(self).wait_map@, i as int, pid) == Some(i as int));
                }
                return entry.1;
            }
            proof {
                assert(spec_wm_index(old(self).wait_map@, i as int, pid) == spec_wm_index(
                    old(self).wait_map@,
                    i as int + 1,
                    pid,
                ));
            }
            i = i + 1;
        }
        proof {
            lemma_wf_same_core(old(self), self);
            assert(spec_wm_index(old(self).wait_map@, 0, pid) is None);
        }
        Vec::new()
    }

    /// Waits for a process to exit: one that has already exited hands its
    /// exit code back at once and nothing changes; otherwise the caller is
    /// recorded as a waiter, parked, and the CPU goes to the next ready
    /// process. The call reports whether the code came back at once.
    pub fn wait_pid(&mut self, pid: u16, ctx: &mut ProcessContext) -> (r: bool)
        requires
            old(self).wf(),
            old(self).spec_current() != KERNEL_PID,
        ensures
            final(self).wf(),
            (match old(self).spec_index_of(pid) {
                Some(i) => old(self).spec_procs()[i].exit_code matches Some(c) ==> r == true && (
                *final(self)) == *old(self) && *final(ctx) == (ProcessContext {
                    rax: c as u64,
                    ..*old(ctx)
                }),
                None => true,
            }),
            !r ==> final(self).spec_current() == old(self).spec_ready_queue()[0],
    {
        match self.get_exit_code(pid) {
            Some(c) => {
                ctx.set_rax(c as u64);
                true
            },
            None => {
                let cur = self.get_pid();
                self.add_waiter(pid, cur);
                self.park_current();
                self.pick_next(ctx);
                false
            },
        }
    }

    /// Records `waiter` as waiting on `pid`.
    fn add_waiter(&mut self, pid: u16, waiter: u16)
        requires
            old(self).wf(),
        ensures
            final(self).wf(),
            final(self).spec_procs() == old(self).spec_procs(),
            final(self).spec_current() == old(self).spec_current(),
            final(self).spec_ready_queue() == old(self).spec_ready_queue(),
    {
        let n = self.wait_map.len();
        let mut i: usize = 0;
        while i < n
            invariant
                old(self).wf(),
                i <= n == self.wait_map@.len(),
                self.procs@ == old(self).procs@,
                self.ready_queue@ == old(self).ready_queue@,
                self.datas@ == old(self).datas@,
                self.mm == old(self).mm,
                self.current == old(self).current,
                self.next_pid == old(self).next_pid,
            decreases n - i,
        {
            if self.wait_map[i].0 == pid {
                let mut entry = self.wait_map.remove(i);
                entry.1.push(waiter);
                self.wait_map.insert(i, entry);
                proof {
                    lemma_wf_same_core(old(self), self);
                }
                return ;
            }
            i = i + 1;
        }
        let mut waiters: Vec<u16> = Vec::new();
        waiters.push(waiter);
        self.wait_map.push((pid, waiters));
        proof {
            lemma_wf_same_core(old(self), self);
        }
    }
}


impl ProcessManager {
    /// The index of the current process's shared data slot.
    pub open spec fn spec_current_data(&self) -> int
        recommends
            self.wf(),
    {
        self.spec_procs()[self.spec_index_of(self.spec_current())->Some_0].data_id->Some_0 as int
    }

    /// The current group's semaphores.
    pub open spec fn spec_current_sems(&self) -> Seq<(u32, crate::sem::Semaphore)>
        recommends
            self.wf(),
    {
        self.spec_datas()[self.spec_current_data()].data.semaphores@
    }

    /// The index of the current process's shared data slot.
    fn current_data(&self) -> (r: usize)
        requires
            self.wf(),
        ensures
            r < self.spec_datas().len(),
            r == self.spec_current_data(),
    {
        proof {
            lemma_pid_index_props(self.spec_procs(), 0, self.current);
        }
        let i = match self.index_of(self.current) {
            Some(i) => i,
            None => {
                proof {
                    assert(false);
                }
                return 0;
            },
        };
        match self.procs[i].data_id {
            Some(d) => d,
            None => {
                proof {
                    assert(false);
                }
                0
            },
        }
    }

    /// Runs one semaphore-set operation on the current process's shared
    /// data, keeping everything else as it is: `0` creates, `1` takes a
    /// unit or parks `pid`, `2` releases a unit or picks the oldest parked
    /// process, `3` removes the key.
    #[verifier::rlimit(30)]
    fn with_current_sems(&mut self, op: u8, key: u32, value: usize, pid: u16) -> (r:
        SemaphoreResult)
        requires
            old(self).wf(),
            op <= 3,
        ensures
            final(self).wf(),
            final(self).spec_procs() == old(self).spec_procs(),
            final(self).spec_current() == old(self).spec_current(),
            final(self).spec_ready_queue() == old(self).spec_ready_queue(),
            final(self).spec_wait_map() == old(self).spec_wait_map(),
            final(self).spec_datas().len() == old(self).spec_datas().len(),
            forall|dd: int|
                0 <= dd < old(self).spec_datas().len() && dd != old(self).spec_current_data()
                    ==> final(self).spec_datas()[dd] == old(self).spec_datas()[dd],
            ({
                let d = old(self).spec_current_data();
                &&& final(self).spec_datas()[d].refs == old(self).spec_datas()[d].refs
                &&& final(self).spec_datas()[d].data.env == old(self).spec_datas()[d].data.env
                &&& final(self).spec_datas()[d].data.resources == old(
                    self,
                ).spec_datas()[d].data.resources
            }),
            ({
                let sems = old(self).spec_current_sems();
                let sems2 = final(self).spec_current_sems();
                let idx = crate::sem::spec_key_index(sems, 0, key);
                &&& (op == 0 ==> match idx {
                    Some(_) => r == SemaphoreResult::NotExist && sems2 == sems,
                    None => r == SemaphoreResult::Done && sems2.len() == sems.len() + 1
                        && sems2.subrange(0, sems.len() as int) == sems && sems2.last().0 == key
                        && sems2.last().1.count == value && sems2.last().1.waiters@.len() == 0,
                })
                &&& (op == 1 ==> match idx {
                    None => r == SemaphoreResult::NotExist && sems2 == sems,
                    Some(i) => {
                        let sem = sems[i].1;
                        &&& sems2.len() == sems.len()
                        &&& (forall|j: int|
                            0 <= j < sems.len() && j != i ==> sems2[j] == sems[j])
                        &&& sems2[i].0 == key
                        &&& if sem.count > 0 {
                            &&& r == SemaphoreResult::Done
                            &&& sems2[i].1.count == sem.count - 1
                            &&& sems2[i].1.waiters@ == sem.waiters@
                        } else {
                            &&& r == SemaphoreResult::Block(pid)
                            &&& sems2[i].1.count == 0
                            &&& sems2[i].1.waiters@ == sem.waiters@.push(pid)
                        }
                    },
                })
                &&& (op == 2 ==> match idx {
                    None => r == SemaphoreResult::NotExist && sems2 == sems,
                    Some(i) => {
                        let sem = sems[i].1;
                        &&& sems2.len() == sems.len()
                        &&& (forall|j: int|
                            0 <= j < sems.len() && j != i ==> sems2[j] == sems[j])
                        &&& sems2[i].0 == key
                        &&& if sem.waiters@.len() > 0 {
                            &&& r == SemaphoreResult::WakeUp(sem.waiters@[0])
                            &&& sems2[i].1.count == sem.count
                            &&& sems2[i].1.waiters@ == sem.waiters@.drop_first()
                        } else {
                            &&& r == SemaphoreResult::Done
                            &&& sems2[i].1.count == if sem.count < usize::MAX {
                                sem.count + 1
                            } else {
                                sem.count as int
                            }
                            &&& sems2[i].1.waiters@.len() == 0
                        }
                    },
                })
                &&& (op == 3 ==> match idx {
                    None => r == SemaphoreResult::NotExist && sems2 == sems,
                    Some(i) => r == SemaphoreResult::Done && sems2 == sems.remove(i),
                })
            }),
    {
        let d = self.current_data();
        let ghost pre = *self;
        let mut slot = self.datas.remove(d);
        let r = if op == 0 {
            if slot.data.semaphores.insert(key, value) {
                SemaphoreResult::Done
            } else {
                SemaphoreResult::NotExist
            }
        } else if op == 1 {
            slot.data.semaphores.wait(key, pid)
        } else if op == 2 {
            slot.data.semaphores.signal(key)
        } else {
            if slot.data.semaphores.remove(key) {
                SemaphoreResult::Done
            } else {
                SemaphoreResult::NotExist
            }
        };
        self.datas.insert(d, slot);
        proof {
            assert(self.spec_datas() =~= pre.spec_datas().update(
                d as int,
                self.spec_datas()[d as int],
            ));
            assert forall|dd: int| 0 <= dd < self.spec_datas().len() implies (
            #[trigger] self.spec_datas()[dd]).data.semaphores.wf() by {
                if dd != d {
                    assert(self.spec_datas()[dd] == pre.spec_datas()[dd]);
                }
            }
            lemma_wf_same_datas(&pre, self);
            lemma_pid_index_props(pre.spec_procs(), 0, pre.spec_current());
            lemma_pid_index_same_pids(self.spec_procs(), pre.spec_procs(), 0, pre.spec_current());
        }
        r
    }

    /// Creates a semaphore for the current process group: succeeds, adding
    /// the key with the given count and no waiters, exactly when the key is
    /// not there yet.
    pub fn sem_new(&mut self, key: u32, value: usize) -> (r: bool)
        requires
            old(self).wf(),
        ensures
            final(self).wf(),
            final(self).spec_procs() == old(self).spec_procs(),
            final(self).spec_current() == old(self).spec_current(),
            final(self).spec_ready_queue() == old(self).spec_ready_queue(),
            r == (crate::sem::spec_key_index(old(self).spec_current_sems(), 0, key) is None),
            r ==> ({
                let sems = old(self).spec_current_sems();
                let sems2 = final(self).spec_current_sems();
                &&& sems2.len() == sems.len() + 1
                &&& sems2.subrange(0, sems.len() as int) == sems
                &&& sems2.last().0 == key
                &&& sems2.last().1.count == value
                &&& sems2.last().1.waiters@.len() == 0
            }),
            !r ==> final(self).spec_current_sems() == old(self).spec_current_sems(),
    {
        match self.with_current_sems(0, key, value, 0) {
            SemaphoreResult::Done => true,
            _ => false,
        }
    }

    /// Drops a semaphore of the current process group unconditionally:
    /// succeeds exactly when the key exists; processes still parked on it
    /// are dropped with the entry.
    pub fn sem_remove(&mut self, key: u32) -> (r: bool)
        requires
            old(self).wf(),
        ensures
            final(self).wf(),
            final(self).spec_procs() == old(self).spec_procs(),
            final(self).spec_current() == old(self).spec_current(),
            final(self).spec_ready_queue() == old(self).spec_ready_queue(),
            r == (crate::sem::spec_key_index(old(self).spec_current_sems(), 0, key) is Some),
            r ==> final(self).spec_current_sems() == old(self).spec_current_sems().remove(
                crate::sem::spec_key_index(old(self).spec_current_sems(), 0, key)->Some_0,
            ),
            !r ==> final(self).spec_current_sems() == old(self).spec_current_sems(),
    {
        match self.with_current_sems(3, key, 0, 0) {
            SemaphoreResult::Done => true,
            _ => false,
        }
    }

    /// Takes a unit of a semaphore for the current process: with units left
    /// the count drops and the call returns at once with zero in the result
    /// register; without, the caller joins the back of the key's waiter
    /// queue, parks, and the CPU goes to the head of the ready queue; a
    /// missing key reports one in the result register.
    pub fn sem_wait(&mut self, key: u32, ctx: &mut ProcessContext)
        requires
            old(self).wf(),
            old(self).spec_current() != KERNEL_PID,
        ensures
            final(self).wf(),
            ({
                let sems = old(self).spec_current_sems();
                let d = old(self).spec_current_data();
                let idx = crate::sem::spec_key_index(sems, 0, key);
                match idx {
                    None => {
                        &&& final(self).spec_procs() == old(self).spec_procs()
                        &&& final(self).spec_current() == old(self).spec_current()
                        &&& final(self).spec_ready_queue() == old(self).spec_ready_queue()
                        &&& final(self).spec_current_sems() == old(self).spec_current_sems()
                        &&& *final(ctx) == (ProcessContext { rax: 1, ..*old(ctx) })
                    },
                    Some(i) => {
                        let sem = sems[i].1;
                        let sems2 = final(self).spec_datas()[d].data.semaphores@;
                        &&& sems2.len() == sems.len()
                        &&& (forall|j: int|
                            0 <= j < sems.len() && j != i ==> sems2[j] == sems[j])
                        &&& if sem.count > 0 {
                            &&& sems2[i].1.count == sem.count - 1
                            &&& sems2[i].1.waiters@ == sem.waiters@
                            &&& *final(ctx) == (ProcessContext { rax: 0, ..*old(ctx) })
                            &&& final(self).spec_current() == old(self).spec_current()
                            &&& final(self).spec_procs() == old(self).spec_procs()
                        } else {
                            &&& sems2[i].1.count == 0
                            &&& sems2[i].1.waiters@ == sem.waiters@.push(
                                old(self).spec_current(),
                            )
                            &&& ({
                                let ci = old(self).spec_index_of(old(self).spec_current())->Some_0;
                                final(self).spec_procs()[ci].status is Blocked
                            })
                            &&& final(self).spec_current() == old(self).spec_ready_queue()[0]
                        }
                    },
                }
            }),
    {
        let pid = self.get_pid();
        let ghost pre = *self;
        match self.with_current_sems(1, key, 0, pid) {
            SemaphoreResult::Done => {
                ctx.set_rax(0);
            },
            SemaphoreResult::Block(_) => {
                proof {
                    lemma_pid_index_props(pre.spec_procs(), 0, pre.spec_current());
                }
                self.park_current();
                self.pick_next(ctx);
            },
            _ => {
                ctx.set_rax(1);
            },
        }
    }

    /// Releases a unit of a semaphore for the current process: the oldest
    /// parked process, if any, leaves the waiter queue and, if it was
    /// blocked, turns ready at the back of the ready queue; else the count
    /// rises by one. Zero lands in the result register; a missing key
    /// reports one.
    pub fn sem_signal(&mut self, key: u32, ctx: &mut ProcessContext)
        requires
            old(self).wf(),
        ensures
            final(self).wf(),
            final(self).spec_current() == old(self).spec_current(),
            ({
                let sems = old(self).spec_current_sems();
                let d = old(self).spec_current_data();
                let idx = crate::sem::spec_key_index(sems, 0, key);
                match idx {
                    None => {
                        &&& final(self).spec_procs() == old(self).spec_procs()
                        &&& final(self).spec_ready_queue() == old(self).spec_ready_queue()
                        &&& final(self).spec_current_sems() == old(self).spec_current_sems()
                        &&& *final(ctx) == (ProcessContext { rax: 1, ..*old(ctx) })
                    },
                    Some(i) => {
                        let sem = sems[i].1;
                        let sems2 = final(self).spec_datas()[d].data.semaphores@;
                        &&& sems2.len() == sems.len()
                        &&& (forall|j: int|
                            0 <= j < sems.len() && j != i ==> sems2[j] == sems[j])
                        &&& *final(ctx) == (ProcessContext { rax: 0, ..*old(ctx) })
                        &&& if sem.waiters@.len() > 0 {
                            let h = sem.waiters@[0];
                            &&& sems2[i].1.count == sem.count
                            &&& sems2[i].1.waiters@ == sem.waiters@.drop_first()
                            &&& (match spec_pid_index(old(self).spec_procs(), 0, h) {
                                Some(hi) => old(self).spec_procs()[hi].status
                                    is Blocked ==> final(self).spec_procs()[hi].status is Ready
                                    && final(self).spec_ready_queue() == old(
                                    self,
                                ).spec_ready_queue().push(h),
                                None => final(self).spec_procs() == old(self).spec_procs(),
                            })
                        } else {
                            &&& sems2[i].1.count == if sem.count < usize::MAX {
                                sem.count + 1
                            } else {
                                sem.count as int
                            }
                            &&& sems2[i].1.waiters@.len() == 0
                            &&& final(self).spec_procs() == old(self).spec_procs()
                        }
                    },
                }
            }),
    {
        let ghost pre = *self;
        match self.with_current_sems(2, key, 0, 0) {
            SemaphoreResult::Done => {
                ctx.set_rax(0);
            },
            SemaphoreResult::WakeUp(pid) => {
                proof {
                    lemma_pid_index_same_pids(
                        self.spec_procs(),
                        pre.spec_procs(),
                        0,
                        pid,
                    );
                }
                self.wake_up(pid, None);
                ctx.set_rax(0);
            },
            _ => {
                ctx.set_rax(1);
            },
        }
    }

    /// The current group's open resources.
    pub open spec fn spec_current_resources(&self) -> Seq<(u8, crate::resource::Resource)>
        recommends
            self.wf(),
    {
        self.spec_datas()[self.spec_current_data()].data.resources@
    }

    /// Opens a resource for the current process group; `None` when the
    /// descriptor table is full.
    pub fn open_resource(&mut self, res: crate::resource::Resource) -> (r: Option<u8>)
        requires
            old(self).wf(),
        ensures
            final(self).wf(),
            final(self).spec_procs() == old(self).spec_procs(),
            final(self).spec_current() == old(self).spec_current(),
            final(self).spec_ready_queue() == old(self).spec_ready_queue(),
            final(self).spec_current_sems() == old(self).spec_current_sems(),
            match r {
                Some(fd) => {
                    let rs = old(self).spec_current_resources();
                    let rs2 = final(self).spec_current_resources();
                    &&& rs.len() < 250
                    &&& rs2.len() == rs.len() + 1
                    &&& rs2.subrange(0, rs.len() as int) == rs
                    &&& rs2.last() == (fd, res)
                },
                None => old(self).spec_current_resources().len() >= 250
                    && final(self).spec_current_resources() == old(
                    self,
                ).spec_current_resources(),
            },
    {
        let d = self.current_data();
        let ghost pre = *self;
        let mut slot = self.datas.remove(d);
        let r = if slot.data.resources.len() < 250 {
            Some(slot.data.resources.open(res))
        } else {
            None
        };
        self.datas.insert(d, slot);
        proof {
            assert(self.spec_datas() =~= pre.spec_datas().update(
                d as int,
                self.spec_datas()[d as int],
            ));
            assert forall|dd: int| 0 <= dd < self.spec_datas().len() implies (
            #[trigger] self.spec_datas()[dd]).data.semaphores.wf() by {
                if dd != d {
                    assert(self.spec_datas()[dd] == pre.spec_datas()[dd]);
                }
            }
            lemma_wf_same_datas(&pre, self);
            lemma_pid_index_same_pids(self.spec_procs(), pre.spec_procs(), 0, pre.spec_current());
        }
        r
    }

    /// Closes a descriptor of the current process group; reports whether
    /// it was open.
    pub fn close_resource(&mut self, fd: u8) -> (r: bool)
        requires
            old(self).wf(),
        ensures
            final(self).wf(),
            final(self).spec_procs() == old(self).spec_procs(),
            final(self).spec_current() == old(self).spec_current(),
            final(self).spec_ready_queue() == old(self).spec_ready_queue(),
            final(self).spec_current_sems() == old(self).spec_current_sems(),
            match crate::resource::spec_fd_index(old(self).spec_current_resources(), 0, fd) {
                Some(i) => r == true && final(self).spec_current_resources() == old(
                    self,
                ).spec_current_resources().remove(i),
                None => r == false && final(self).spec_current_resources() == old(
                    self,
                ).spec_current_resources(),
            },
    {
        let d = self.current_data();
        let ghost pre = *self;
        let mut slot = self.datas.remove(d);
        let r = slot.data.resources.close(fd);
        self.datas.insert(d, slot);
        proof {
            assert(self.spec_datas() =~= pre.spec_datas().update(
                d as int,
                self.spec_datas()[d as int],
            ));
            assert forall|dd: int| 0 <= dd < self.spec_datas().len() implies (
            #[trigger] self.spec_datas()[dd]).data.semaphores.wf() by {
                if dd != d {
                    assert(self.spec_datas()[dd] == pre.spec_datas()[dd]);
                }
            }
            lemma_wf_same_datas(&pre, self);
            lemma_pid_index_same_pids(self.spec_procs(), pre.spec_procs(), 0, pre.spec_current());
        }
        r
    }

    /// The resource behind one of the current group's descriptors.
    pub fn get_resource(&self, fd: u8) -> (r: Option<crate::resource::Resource>)
        requires
            self.wf(),
        ensures
            match crate::resource::spec_fd_index(self.spec_current_resources(), 0, fd) {
                Some(i) => r == Some(self.spec_current_resources()[i].1),
                None => r is None,
            },
    {
        let d = self.current_data();
        self.datas[d].data.resources.get(fd)
    }

    /// Replaces the resource behind one of the current group's open
    /// descriptors.
    pub fn update_resource(&mut self, fd: u8, res: crate::resource::Resource) -> (r: bool)
        requires
            old(self).wf(),
        ensures
            final(self).wf(),
            final(self).spec_procs() == old(self).spec_procs(),
            final(self).spec_current() == old(self).spec_current(),
            final(self).spec_ready_queue() == old(self).spec_ready_queue(),
            final(self).spec_current_sems() == old(self).spec_current_sems(),
            match crate::resource::spec_fd_index(old(self).spec_current_resources(), 0, fd) {
                Some(i) => r == true && final(self).spec_current_resources() == old(
                    self,
                ).spec_current_resources().update(i, (fd, res)),
                None => r == false && final(self).spec_current_resources() == old(
                    self,
                ).spec_current_resources(),
            },
    {
        let d = self.current_data();
        let ghost pre = *self;
        let mut slot = self.datas.remove(d);
        let r = slot.data.resources.update(fd, res);
        self.datas.insert(d, slot);
        proof {
            assert(self.spec_datas() =~= pre.spec_datas().update(
                d as int,
                self.spec_datas()[d as int],
            ));
            assert forall|dd: int| 0 <= dd < self.spec_datas().len() implies (
            #[trigger] self.spec_datas()[dd]).data.semaphores.wf() by {
                if dd != d {
                    assert(self.spec_datas()[dd] == pre.spec_datas()[dd]);
                }
            }
            lemma_wf_same_datas(&pre, self);
            lemma_pid_index_same_pids(self.spec_procs(), pre.spec_procs(), 0, pre.spec_current());
        }
        r
    }

    /// The memory image of the current process.
    pub open spec fn spec_current_vm(&self) -> crate::procvm::ProcessVm
        recommends
            self.wf(),
    {
        self.spec_procs()[self.spec_index_of(self.spec_current())->Some_0].proc_vm->Some_0
    }

    /// The `brk` operation of the current process: without an address the
    /// current break lands in the result register and nothing changes;
    /// with one, the heap grows or shrinks to the page-aligned break and
    /// the new break comes back, or the break stays and the result
    /// register reads `u64::MAX`.
    pub fn brk(&mut self, new_addr: Option<u64>, ctx: &mut ProcessContext)
        requires
            old(self).wf(),
        ensures
            final(self).wf(),
            final(self).spec_current() == old(self).spec_current(),
            final(self).spec_procs().len() == old(self).spec_procs().len(),
            ({
                let vm = old(self).spec_current_vm();
                let ci = old(self).spec_index_of(old(self).spec_current())->Some_0;
                let vm2 = final(self).spec_procs()[ci].proc_vm->Some_0;
                match new_addr {
                    None => vm2 == vm && *final(ctx) == (ProcessContext {
                        rax: (vm.heap_end_page * crate::procvm::PAGE_SIZE) as u64,
                        ..*old(ctx)
                    }),
                    Some(addr) => {
                        ||| (*final(ctx) == (ProcessContext {
                            rax: (vm2.heap_end_page * crate::procvm::PAGE_SIZE) as u64,
                            ..*old(ctx)
                        }) && vm2.heap_end_page * crate::procvm::PAGE_SIZE >= addr && addr
                            + crate::procvm::PAGE_SIZE > vm2.heap_end_page
                            * crate::procvm::PAGE_SIZE)
                        ||| (*final(ctx) == (ProcessContext { rax: u64::MAX, ..*old(ctx) })
                            && vm2 == vm)
                    },
                }
            }),
    {
        proof {
            lemma_pid_index_props(self.spec_procs(), 0, self.current);
        }
        let i = match self.index_of(self.get_pid()) {
            Some(i) => i,
            None => {
                proof {
                    assert(false);
                }
                return ;
            },
        };
        if new_addr.is_none() {
            let brk_now = match &self.procs[i].proc_vm {
                Some(vm) => vm.brk_addr(),
                None => {
                    proof {
                        assert(false);
                    }
                    0
                },
            };
            ctx.set_rax(brk_now);
            return ;
        }
        let used = self.mm.frames_used();
        let recycled = self.mm.frames_recycled();
        if used > u64::MAX - crate::procvm::SLOT_PAGES || recycled > u64::MAX
            - crate::procvm::SLOT_PAGES {
            ctx.set_rax(u64::MAX);
            return ;
        }
        let ghost pre = *self;
        let mut p = self.procs.remove(i);
        let r = match p.proc_vm {
            Some(mut vm) => {
                let r = vm.brk(&mut self.mm, new_addr);
                p.proc_vm = Some(vm);
                r
            },
            None => {
                proof {
                    assert(false);
                }
                None
            },
        };
        self.procs.insert(i, p);
        match r {
            Some(b) => {
                ctx.set_rax(b);
            },
            None => {
                ctx.set_rax(u64::MAX);
            },
        }
        proof {
            assert(self.spec_procs() =~= pre.spec_procs().update(
                i as int,
                self.spec_procs()[i as int],
            ));
            lemma_wf_update_at(&pre, self, i as int);
        }
    }

    /// Handles a page fault at `addr` for the current process: a
    /// non-protection fault in the current stack slot below the mapped
    /// stack grows the stack down to the faulting page; a fault on the
    /// already-mapped stack succeeds without change; anything else — a
    /// protection violation, an address outside the slot, or missing
    /// frames — is refused and the process is left as it was.
    pub fn handle_page_fault(&mut self, addr: u64, protection_violation: bool) -> (r: bool)
        requires
            old(self).wf(),
        ensures
            final(self).wf(),
            final(self).spec_current() == old(self).spec_current(),
            final(self).spec_procs().len() == old(self).spec_procs().len(),
            protection_violation ==> r == false && *final(self) == *old(self),
            ({
                let vm = old(self).spec_current_vm();
                let ci = old(self).spec_index_of(old(self).spec_current())->Some_0;
                let vm2 = final(self).spec_procs()[ci].proc_vm->Some_0;
                let page = (addr / crate::procvm::PAGE_SIZE) as u64;
                !protection_violation ==> {
                    &&& (crate::procvm::spec_slot_of(page) != vm.spec_slot() ==> r == false
                        && vm2 == vm)
                    &&& (crate::procvm::spec_slot_of(page) == vm.spec_slot() && page
                        >= vm.stack_low ==> r == true && vm2 == vm)
                    &&& (crate::procvm::spec_slot_of(page) == vm.spec_slot() && page
                        < vm.stack_low ==> {
                        &&& (r ==> vm2.stack_low == page)
                        &&& (!r ==> vm2 == vm && (old(self).spec_mm().spec_alloc().spec_used()
                            > u64::MAX - crate::procvm::SLOT_PAGES || crate::vm::spec_free(
                            old(self).spec_mm().spec_alloc(),
                        ) < vm.stack_low - page || exists|p: u64|
                            page <= p < vm.stack_low && crate::vm::spec_page_index(
                                old(self).spec_mm().spec_pt(vm.table_id as int),
                                0,
                                p,
                            ) is Some))
                    })
                }
            }),
    {
        if protection_violation {
            return false;
        }
        proof {
            lemma_pid_index_props(self.spec_procs(), 0, self.current);
        }
        let i = match self.index_of(self.get_pid()) {
            Some(i) => i,
            None => {
                proof {
                    assert(false);
                }
                return false;
            },
        };
        let used = self.mm.frames_used();
        let guard = used > u64::MAX - crate::procvm::SLOT_PAGES;
        let user = self.get_pid() != KERNEL_PID;
        let ghost pre = *self;
        let mut p = self.procs.remove(i);
        let r = match p.proc_vm {
            Some(mut vm) => {
                let r = if guard {
                    let on_stack = vm.is_on_stack(addr);
                    let page = addr / crate::procvm::PAGE_SIZE;
                    if on_stack && page >= vm.stack_low {
                        true
                    } else {
                        false
                    }
                } else {
                    vm.handle_page_fault(&mut self.mm, addr, user)
                };
                p.proc_vm = Some(vm);
                r
            },
            None => {
                proof {
                    assert(false);
                }
                false
            },
        };
        self.procs.insert(i, p);
        proof {
            assert(self.spec_procs() =~= pre.spec_procs().update(
                i as int,
                self.spec_procs()[i as int],
            ));
            lemma_wf_update_at(&pre, self, i as int);
        }
        r
    }
}

/// A segment no program may carry: empty, larger than the code region, or
/// wrapping around the address space.
pub open spec fn spec_seg_bad(seg: Segment) -> bool {
    seg.pages == 0 || seg.pages > 0x10_0000 || seg.start_page + seg.pages > u64::MAX
}

/// The pages of the first `i` segments, summed.
pub open spec fn spec_seg_sum(segs: Seq<Segment>, i: int) -> int
    decreases i,
{
    if i <= 0 {
        0
    } else {
        spec_seg_sum(segs, i - 1) + segs[i - 1].pages
    }
}

/// The segment sum grows with the prefix.
pub proof fn lemma_seg_sum_mono(segs: Seq<Segment>, i: int, j: int)
    requires
        0 <= i <= j,
    ensures
        spec_seg_sum(segs, i) <= spec_seg_sum(segs, j),
    decreases j,
{
    if i < j {
        lemma_seg_sum_mono(segs, i, j - 1);
    }
}

/// Segments that cannot all be mapped into one fresh address space: two of
/// them overlap, or one reaches into the stack-slot region.
pub open spec fn spec_segs_conflict(segs: Seq<Segment>) -> bool {
    ||| exists|k1: int, k2: int|
        0 <= k1 < k2 < segs.len() && (#[trigger] segs[k1]).start_page < (
        #[trigger] segs[k2]).start_page + segs[k2].pages && segs[k2].start_page < segs[
            k1].start_page + segs[k1].pages
    ||| exists|k: int|
        0 <= k < segs.len() && (#[trigger] segs[k]).start_page + segs[k].pages > USER_SLOT_MIN
            * crate::procvm::SLOT_PAGES
}

/// Why loading a program must fail: a bad segment, a conflict among the
/// segments, fewer free frames than the stack and segments need, or sizes
/// past the counters' range.
pub open spec fn spec_program_rejected(segs: Seq<Segment>, free0: int, used0: int) -> bool {
    ||| exists|k: int| 0 <= k < segs.len() && spec_seg_bad(#[trigger] segs[k])
    ||| spec_segs_conflict(segs)
    ||| free0 < STACK_DEF_PAGES + spec_seg_sum(segs, segs.len() as int)
    ||| used0 + STACK_DEF_PAGES + spec_seg_sum(segs, segs.len() as int) > u64::MAX
    ||| spec_seg_sum(segs, segs.len() as int) * crate::procvm::PAGE_SIZE > 0x100_0000_0000
}

impl ProcessManager {
    /// The stack slot a new process gets: the highest user slot no live
    /// process occupies, scanning from `s` down.
    pub open spec fn spec_pick_slot_from(&self, s: u64) -> Option<u64>
        decreases s,
    {
        if s < USER_SLOT_MIN || s > USER_SLOT_MAX {
            None
        } else if !self.spec_slot_taken(s) {
            Some(s)
        } else if s == USER_SLOT_MIN {
            None
        } else {
            self.spec_pick_slot_from((s - 1) as u64)
        }
    }

    /// Whether some live process's stack sits in `slot`.
    pub open spec fn spec_slot_taken(&self, slot: u64) -> bool {
        exists|i: int|
            0 <= i < self.spec_procs().len() && (#[trigger] self.spec_procs()[i].proc_vm) is Some
                && self.spec_procs()[i].proc_vm->Some_0.spec_slot() == slot
    }

    /// Whether some live process's stack sits in `slot`.
    fn slot_occupied(&self, slot: u64) -> (r: bool)
        ensures
            r == exists|i: int|
                0 <= i < self.spec_procs().len() && (#[trigger] self.spec_procs()[i].proc_vm)
                    is Some && self.spec_procs()[i].proc_vm->Some_0.spec_slot() == slot,
    {
        let n = self.procs.len();
        let mut i: usize = 0;
        while i < n
            invariant
                i <= n == self.spec_procs().len(),
                forall|k: int|
                    0 <= k < i ==> !((#[trigger] self.spec_procs()[k].proc_vm) is Some
                        && self.spec_procs()[k].proc_vm->Some_0.spec_slot() == slot),
            decreases n - i,
        {
            match &self.procs[i].proc_vm {
                Some(vm) => {
                    if vm.stack_low / crate::procvm::SLOT_PAGES == slot {
                        proof {
                            assert((self.spec_procs()[i as int].proc_vm) is Some
                                && self.spec_procs()[i as int].proc_vm->Some_0.spec_slot()
                                == slot);
                        }
                        return true;
                    }
                },
                None => {},
            }
            i = i + 1;
        }
        false
    }

    /// A stack slot no live process uses, highest first.
    fn free_slot(&self) -> (r: Option<u64>)
        ensures
            r == self.spec_pick_slot_from(USER_SLOT_MAX),
            match r {
                Some(s) => USER_SLOT_MIN <= s <= USER_SLOT_MAX && !self.spec_slot_taken(s),
                None => forall|s: u64|
                    USER_SLOT_MIN <= s <= USER_SLOT_MAX ==> #[trigger] self.spec_slot_taken(s),
            },
    {
        let mut s = USER_SLOT_MAX;
        while s >= USER_SLOT_MIN
            invariant
                USER_SLOT_MIN <= s <= USER_SLOT_MAX,
                forall|s2: u64| s < s2 <= USER_SLOT_MAX ==> #[trigger] self.spec_slot_taken(s2),
                self.spec_pick_slot_from(USER_SLOT_MAX) == self.spec_pick_slot_from(s),
            decreases s,
        {
            if !self.slot_occupied(s) {
                return Some(s);
            }
            if s == USER_SLOT_MIN {
                return None;
            }
            s = s - 1;
        }
        None
    }

    /// Spawns the named program as a new process: its segments are loaded
    /// into a fresh address space, a stack is mapped in a free slot, and
    /// the process joins the ready queue. A name no program was registered
    /// under yields zero and changes nothing; zero also reports a failure
    /// to build the process.
    pub fn spawn(&mut self, name: &[u8]) -> (r: u16)
        requires
            old(self).wf(),
        ensures
            final(self).wf(),
            final(self).spec_current() == old(self).spec_current(),
            (forall|a: int|
                0 <= a < old(self).spec_app_list().len() ==> (#[trigger] old(
                    self,
                ).spec_app_list()[a].0@) != name@) ==> r == 0 && *final(self) == *old(self),
            r != 0 ==> {
                &&& r == old(self).spec_next_pid()
                &&& final(self).spec_procs().len() == old(self).spec_procs().len() + 1
                &&& final(self).spec_procs().last().pid == r
                &&& final(self).spec_procs().last().status is Ready
                &&& final(self).spec_procs().last().name@ == name@
                &&& final(self).spec_procs().last().parent == old(self).spec_current()
                &&& final(self).spec_ready_queue() == old(self).spec_ready_queue().push(r)
            },
            r == 0 ==> final(self).spec_procs() == old(self).spec_procs(),
            r == 0 ==> {
                ||| (forall|a: int|
                    0 <= a < old(self).spec_app_list().len() ==> (#[trigger] old(
                        self,
                    ).spec_app_list()[a].0@) != name@)
                ||| old(self).spec_next_pid() == u16::MAX
                ||| old(self).spec_pick_slot_from(USER_SLOT_MAX) is None
                ||| old(self).spec_mm().spec_alloc().spec_used() > u64::MAX
                    - crate::procvm::SLOT_PAGES
                ||| exists|a: int|
                    0 <= a < old(self).spec_app_list().len() && (#[trigger] old(
                        self,
                    ).spec_app_list()[a].0@) == name@ && spec_program_rejected(
                        old(self).spec_app_list()[a].1.segments@,
                        crate::vm::spec_free(old(self).spec_mm().spec_alloc()),
                        old(self).spec_mm().spec_alloc().spec_used() as int,
                    )
            },
    {
        let app = self.find_app(name);
        let (entry, segments) = match app {
            Some(p) => p,
            None => {
                return 0;
            },
        };
        if self.next_pid == u16::MAX {
            return 0;
        }
        let slot = match self.free_slot() {
            Some(s) => s,
            None => {
                return 0;
            },
        };
        let used = self.mm.frames_used();
        if used > u64::MAX - crate::procvm::SLOT_PAGES {
            return 0;
        }
        let ghost pre = *self;
        proof {
            assert(pre == *old(self));
        }
        let ghost segs = segments@;
        let ghost free0 = crate::vm::spec_free(pre.spec_mm().spec_alloc());
        let ghost used0 = pre.spec_mm().spec_alloc().spec_used() as int;
        proof {
            let a0 = choose|a: int|
                0 <= a < old(self).spec_app_list().len() && (#[trigger] old(
                    self,
                ).spec_app_list()[a].0@) == name@ && old(self).spec_app_list()[a].1.entry == entry
                    && old(self).spec_app_list()[a].1.segments@ == segs;
            assert(pre.spec_app_list()[a0].0@ == name@ && pre.spec_app_list()[a0].1.entry == entry
                && pre.spec_app_list()[a0].1.segments@ == segs);
        }
        let ghost appw: int = choose|a: int|
            0 <= a < pre.spec_app_list().len() && (#[trigger] pre.spec_app_list()[a].0@) == name@
                && pre.spec_app_list()[a].1.entry == entry && pre.spec_app_list()[a].1.segments@
                == segs;
        let mut vm = match ProcessVm::new_in_slot(
            &mut self.mm,
            slot,
            STACK_DEF_PAGES,
            true,
        ) {
            Ok(vm) => vm,
            Err(_) => {
                proof {
                    lemma_wf_tables_grow(&pre, self);
                    lemma_seg_sum_mono(segs, 0, segs.len() as int);
                    assert(spec_program_rejected(segs, free0, used0));
                }
                return 0;
            },
        };
        let mut si: usize = 0;
        while si < segments.len()
            invariant
                self.spec_procs() == pre.spec_procs(),
                self.spec_ready_queue() == pre.spec_ready_queue(),
                self.spec_datas() == pre.spec_datas(),
                self.spec_current() == pre.spec_current(),
                self.spec_next_pid() == pre.spec_next_pid(),
                self.spec_wait_map() == pre.spec_wait_map(),
                self.spec_app_list() == pre.spec_app_list(),
                pre.wf(),
                pre == *old(self),
                self.spec_mm().wf(),
                self.spec_mm().spec_tables().len() >= pre.spec_mm().spec_tables().len(),
                vm.wf(),
                vm.table_id < self.spec_mm().spec_tables().len(),
                vm.spec_slot() == slot,
                USER_SLOT_MIN <= slot <= USER_SLOT_MAX,
                vm.stack_low == pre_stack_low_of(slot),
                vm.stack_high == (slot + 1) * crate::procvm::SLOT_PAGES,
                si <= segments@.len(),
                segs == segments@,
                0 <= appw < pre.spec_app_list().len(),
                pre.spec_app_list()[appw].0@ == name@,
                pre.spec_app_list()[appw].1.segments@ == segs,
                free0 == crate::vm::spec_free(pre.spec_mm().spec_alloc()),
                used0 == pre.spec_mm().spec_alloc().spec_used() as int,
                vm.code_usage == crate::procvm::PAGE_SIZE * spec_seg_sum(segs, si as int),
                crate::vm::spec_free(self.spec_mm().spec_alloc()) == free0 - STACK_DEF_PAGES
                    - spec_seg_sum(segs, si as int),
                self.spec_mm().spec_alloc().spec_used() == used0 + STACK_DEF_PAGES
                    + spec_seg_sum(segs, si as int),
                forall|p: u64|
                    (#[trigger] crate::vm::spec_page_index(
                        self.spec_mm().spec_pt(vm.table_id as int),
                        0,
                        p,
                    )) is Some <==> (vm.stack_low <= p < vm.stack_high || exists|k: int|
                        0 <= k < si && (#[trigger] segs[k]).start_page <= p < segs[k].start_page
                            + segs[k].pages),
            decreases segments@.len() - si,
        {
            let seg = segments[si];
            let used2 = self.mm.frames_used();
            let bad_seg = seg.pages == 0 || seg.pages > 0x10_0000 || seg.start_page > u64::MAX
                - seg.pages;
            if bad_seg {
                proof {
                    assert(spec_seg_bad(segs[si as int]));
                }
                vm.clean_up(&mut self.mm);
                proof {
                    lemma_wf_tables_grow(&pre, self);
                }
                return 0;
            }
            if used2 > u64::MAX - seg.pages {
                proof {
                    lemma_seg_sum_mono(segs, si as int + 1, segs.len() as int);
                    assert(spec_seg_sum(segs, si as int + 1) == spec_seg_sum(segs, si as int)
                        + segs[si as int].pages);
                    assert(used0 + STACK_DEF_PAGES + spec_seg_sum(segs, segs.len() as int)
                        > u64::MAX);
                }
                vm.clean_up(&mut self.mm);
                proof {
                    lemma_wf_tables_grow(&pre, self);
                }
                return 0;
            }
            if vm.code_usage > 0x100_0000_0000 - seg.pages * crate::procvm::PAGE_SIZE {
                proof {
                    lemma_seg_sum_mono(segs, si as int + 1, segs.len() as int);
                    assert(spec_seg_sum(segs, si as int + 1) == spec_seg_sum(segs, si as int)
                        + segs[si as int].pages);
                    assert(spec_seg_sum(segs, segs.len() as int) * crate::procvm::PAGE_SIZE
                        > 0x100_0000_0000) by (nonlinear_arith)
                        requires
                            spec_seg_sum(segs, segs.len() as int) >= spec_seg_sum(
                                segs,
                                si as int + 1,
                            ),
                            spec_seg_sum(segs, si as int + 1) * crate::procvm::PAGE_SIZE
                                > 0x100_0000_0000,
                            crate::procvm::PAGE_SIZE == 0x1000,
                    ;
                }
                vm.clean_up(&mut self.mm);
                proof {
                    lemma_wf_tables_grow(&pre, self);
                }
                return 0;
            }
            let ghost mm_before = self.spec_mm();
            match vm.load_segment(&mut self.mm, seg.start_page, seg.pages, seg.writable) {
                Ok(()) => {
                    proof {
                        assert(spec_seg_sum(segs, si as int + 1) == spec_seg_sum(
                            segs,
                            si as int,
                        ) + segs[si as int].pages);
                        assert forall|p: u64|
                            (#[trigger] crate::vm::spec_page_index(
                                self.spec_mm().spec_pt(vm.table_id as int),
                                0,
                                p,
                            )) is Some <==> (vm.stack_low <= p < vm.stack_high || exists|k: int|
                                0 <= k < si + 1 && (#[trigger] segs[k]).start_page <= p < segs[
                                    k].start_page + segs[k].pages) by {
                            if seg.start_page <= p < seg.start_page + seg.pages {
                                assert(segs[si as int].start_page <= p < segs[si as int].start_page
                                    + segs[si as int].pages);
                            } else {
                                assert(crate::vm::spec_same_mapping(
                                    mm_before.spec_pt(vm.table_id as int),
                                    self.spec_mm().spec_pt(vm.table_id as int),
                                    p,
                                ));
                            }
                        }
                    }
                },
                Err(e) => {
                    proof {
                        lemma_seg_sum_mono(segs, si as int + 1, segs.len() as int);
                        assert(spec_seg_sum(segs, si as int + 1) == spec_seg_sum(
                            segs,
                            si as int,
                        ) + segs[si as int].pages);
                        if e is FrameAllocationFailed {
                            assert(free0 < STACK_DEF_PAGES + spec_seg_sum(
                                segs,
                                segs.len() as int,
                            ));
                        } else {
                            let p = choose|p: u64|
                                seg.start_page <= p < seg.start_page + seg.pages
                                    && crate::vm::spec_page_index(
                                    mm_before.spec_pt(vm.table_id as int),
                                    0,
                                    p,
                                ) is Some;
                            if vm.stack_low <= p < vm.stack_high {
                                assert(slot * crate::procvm::SLOT_PAGES <= vm.stack_low)
                                    by (nonlinear_arith)
                                    requires
                                        vm.stack_low == pre_stack_low_of(slot),
                                        crate::procvm::SLOT_PAGES == 0x100000,
                                        STACK_DEF_PAGES == 1,
                                        slot <= USER_SLOT_MAX,
                                        USER_SLOT_MAX == 0x3FFF,
                                ;
                                assert(USER_SLOT_MIN * crate::procvm::SLOT_PAGES <= slot
                                    * crate::procvm::SLOT_PAGES) by (nonlinear_arith)
                                    requires
                                        USER_SLOT_MIN <= slot,
                                        crate::procvm::SLOT_PAGES == 0x100000,
                                ;
                                assert(segs[si as int].start_page + segs[si as int].pages
                                    > USER_SLOT_MIN * crate::procvm::SLOT_PAGES);
                                assert(spec_segs_conflict(segs));
                            } else {
                                let k = choose|k: int|
                                    0 <= k < si && (#[trigger] segs[k]).start_page <= p < segs[
                                        k].start_page + segs[k].pages;
                                assert(segs[k].start_page < segs[si as int].start_page + segs[
                                    si as int].pages && segs[si as int].start_page < segs[
                                    k].start_page + segs[k].pages);
                                assert(spec_segs_conflict(segs));
                            }
                        }
                        assert(spec_program_rejected(segs, free0, used0));
                    }
                    vm.clean_up(&mut self.mm);
                    proof {
                        lemma_wf_tables_grow(&pre, self);
                    }
                    return 0;
                },
            }
            si = si + 1;
        }
        let pid = self.next_pid;
        self.next_pid = self.next_pid + 1;
        self.datas.push(
            DataSlot {
                refs: 1,
                data: ProcessData {
                    env: Vec::new(),
                    resources: crate::resource::ResourceSet::new(),
                    semaphores: SemaphoreSet::new(),
                },
            },
        );
        let mut ctx = ProcessContext::new();
        ctx.init_stack_frame(entry, STACK_INIT_TOP);
        let mut name_copy: Vec<u8> = Vec::new();
        let mut bi: usize = 0;
        while bi < name.len()
            invariant
                bi <= name@.len(),
                name_copy@ == name@.subrange(0, bi as int),
            decreases name@.len() - bi,
        {
            name_copy.push(name[bi]);
            proof {
                assert(name_copy@ =~= name@.subrange(0, bi + 1));
            }
            bi = bi + 1;
        }
        proof {
            assert(name_copy@ =~= name@);
        }
        let p = Process {
            pid,
            name: name_copy,
            parent: self.current,
            children: Vec::new(),
            ticks_passed: 0,
            status: ProgramStatus::Ready,
            context: ctx,
            exit_code: None,
            proc_vm: Some(vm),
            data_id: Some(self.datas.len() - 1),
        };
        let ghost before_push = *self;
        self.procs.push(p);
        self.ready_queue.push(pid);
        proof {
            assert(self.spec_procs().subrange(0, before_push.spec_procs().len() as int)
                =~= before_push.spec_procs());
            assert(self.spec_ready_queue() =~= before_push.spec_ready_queue().push(pid));
            assert forall|d: int| 0 <= d < before_push.spec_datas().len() implies (
            #[trigger] before_push.spec_datas()[d]).data.semaphores.wf() by {
                if d < pre.spec_datas().len() {
                    assert(before_push.spec_datas()[d] == pre.spec_datas()[d]);
                }
            }
            assert forall|k: int|
                0 <= k < pre.spec_procs().len() && (#[trigger] pre.spec_procs()[k].proc_vm)
                    is Some implies pre.spec_procs()[k].proc_vm->Some_0.spec_slot()
                != self.spec_procs().last().proc_vm->Some_0.spec_slot() by {
                if pre.spec_procs()[k].proc_vm->Some_0.spec_slot() == slot {
                    assert(exists|i2: int|
                        0 <= i2 < pre.spec_procs().len() && (
                        #[trigger] pre.spec_procs()[i2].proc_vm) is Some
                            && pre.spec_procs()[i2].proc_vm->Some_0.spec_slot() == slot);
                }
            }
            lemma_wf_push_proc(&pre, &before_push, self, pid);
        }
        self.record_child(pid);
        pid
    }

    /// Looks a program up by name.
    fn find_app(&self, name: &[u8]) -> (r: Option<(u64, Vec<Segment>)>)
        ensures
            r is None ==> forall|a: int|
                0 <= a < self.spec_app_list().len() ==> (#[trigger] self.spec_app_list()[a].0@)
                    != name@,
            r matches Some(p) ==> exists|a: int|
                0 <= a < self.spec_app_list().len() && (#[trigger] self.spec_app_list()[a].0@)
                    == name@ && self.spec_app_list()[a].1.entry == p.0
                    && self.spec_app_list()[a].1.segments@ == p.1@,
    {
        let n = self.app_list.len();
        let mut i: usize = 0;
        while i < n
            invariant
                i <= n == self.spec_app_list().len(),
                forall|a: int| 0 <= a < i ==> (#[trigger] self.spec_app_list()[a].0@) != name@,
            decreases n - i,
        {
            if bytes_eq(self.app_list[i].0.as_slice(), name) {
                proof {
                    assert(self.spec_app_list()[i as int].0@ == name@);
                }
                let entry = self.app_list[i].1.entry;
                let mut segs: Vec<Segment> = Vec::new();
                let m = self.app_list[i].1.segments.len();
                let mut j: usize = 0;
                while j < m
                    invariant
                        j <= m,
                        i < self.spec_app_list().len(),
                        m == self.spec_app_list()[i as int].1.segments@.len(),
                        segs@ == self.spec_app_list()[i as int].1.segments@.subrange(0, j as int),
                    decreases m - j,
                {
                    segs.push(self.app_list[i].1.segments[j]);
                    proof {
                        assert(segs@ =~= self.spec_app_list()[i as int].1.segments@.subrange(
                            0,
                            j + 1,
                        ));
                    }
                    j = j + 1;
                }
                proof {
                    assert(segs@ =~= self.spec_app_list()[i as int].1.segments@);
                }
                return Some((entry, segs));
            }
            i = i + 1;
        }
        None
    }

    /// Duplicates the current process: the child shares the address space
    /// and gets a copy of the parent's stack in another slot; the child is
    /// ready with zero in its result register, and the parent reads the
    /// child's id. Zero reports a failure to build the child.
    pub fn vfork(&mut self, ctx: &mut ProcessContext) -> (r: u16)
        requires
            old(self).wf(),
        ensures
            final(self).wf(),
            final(self).spec_current() == old(self).spec_current(),
            r != 0 ==> ({
                let parent_vm = old(self).spec_current_vm();
                let child = final(self).spec_procs().last();
                let sl = old(self).spec_pick_slot_from(USER_SLOT_MAX)->Some_0;
                let offset = (parent_vm.spec_slot() - sl) * crate::procvm::SLOT_PAGES
                    * crate::procvm::PAGE_SIZE;
                &&& r == old(self).spec_next_pid()
                &&& final(self).spec_procs().len() == old(self).spec_procs().len() + 1
                &&& child.pid == r
                &&& child.status is Ready
                &&& child.context == (ProcessContext {
                    rax: 0,
                    rsp: (old(ctx).rsp - offset) as u64,
                    ..*old(ctx)
                })
                &&& child.data_id == old(self).spec_procs()[old(self).spec_index_of(
                    old(self).spec_current(),
                )->Some_0].data_id
                &&& child.proc_vm is Some
                &&& ({
                    let cvm = child.proc_vm->Some_0;
                    &&& cvm.table_id == parent_vm.table_id
                    &&& cvm.spec_slot() == sl
                    &&& !old(self).spec_slot_taken(sl)
                    &&& cvm.stack_high - cvm.stack_low == parent_vm.stack_high
                        - parent_vm.stack_low
                })
                &&& *final(ctx) == (ProcessContext { rax: r as u64, ..*old(ctx) })
            }),
            r == 0 ==> final(self).spec_procs() == old(self).spec_procs(),
            r == 0 ==> ({
                let parent_vm = old(self).spec_current_vm();
                let slot_opt = old(self).spec_pick_slot_from(USER_SLOT_MAX);
                ||| old(self).spec_next_pid() == u16::MAX
                ||| slot_opt is None
                ||| old(self).spec_mm().spec_alloc().spec_used() > u64::MAX
                    - crate::procvm::SLOT_PAGES
                ||| (slot_opt matches Some(sl) && {
                    let pages = parent_vm.stack_high - parent_vm.stack_low;
                    let low = (sl + 1) * crate::procvm::SLOT_PAGES - pages;
                    ||| parent_vm.spec_slot() <= sl
                    ||| parent_vm.spec_slot() > USER_SLOT_MAX
                    ||| old(ctx).rsp < (parent_vm.spec_slot() - sl)
                        * crate::procvm::SLOT_PAGES * crate::procvm::PAGE_SIZE
                    ||| old(self).spec_mm().spec_tables()[parent_vm.table_id as int].refs
                        == usize::MAX
                    ||| crate::vm::spec_free(old(self).spec_mm().spec_alloc()) < pages
                    ||| exists|p: u64|
                        low <= p < low + pages && crate::vm::spec_page_index(
                            old(self).spec_mm().spec_pt(parent_vm.table_id as int),
                            0,
                            p,
                        ) is Some
                })
            }),
    {
        proof {
            lemma_pid_index_props(self.spec_procs(), 0, self.current);
        }
        let i = match self.index_of(self.get_pid()) {
            Some(i) => i,
            None => {
                proof {
                    assert(false);
                }
                return 0;
            },
        };
        proof {
            assert(self.spec_procs()[i as int].status is Running);
            assert(self.spec_procs()[i as int].proc_vm is Some);
            assert(old(self).spec_current_vm() == self.spec_procs()[i as int].proc_vm->Some_0);
        }
        if self.next_pid == u16::MAX {
            return 0;
        }
        let slot = match self.free_slot() {
            Some(s) => s,
            None => {
                return 0;
            },
        };
        let used = self.mm.frames_used();
        if used > u64::MAX - crate::procvm::SLOT_PAGES {
            return 0;
        }
        let parent_slot: u64;
        let parent_refs_ok: bool;
        let parent_data: usize;
        match (&self.procs[i].proc_vm, self.procs[i].data_id) {
            (Some(vm), Some(d)) => {
                parent_slot = vm.stack_low / crate::procvm::SLOT_PAGES;
                parent_refs_ok = self.mm.table_refs(vm.table_id) < usize::MAX;
                parent_data = d;
            },
            _ => {
                proof {
                    assert(false);
                }
                return 0;
            },
        }
        if !parent_refs_ok {
            return 0;
        }
        if parent_slot <= slot || parent_slot > USER_SLOT_MAX {
            return 0;
        }
        let offset = (parent_slot - slot) * crate::procvm::SLOT_PAGES * crate::procvm::PAGE_SIZE;
        if ctx.rsp < offset {
            return 0;
        }
        let ghost pre = *self;
        let child_vm = match &self.procs[i].proc_vm {
            Some(vm) => {
                proof {
                    assert(pre.spec_procs()[i as int].proc_vm is Some);
                }
                let pvm = vm;
                match pvm_vfork(pvm, &mut self.mm, slot) {
                    Ok(cvm) => cvm,
                    Err(e) => {
                        proof {
                            lemma_wf_tables_grow(&pre, self);
                            let pvm_g = old(self).spec_current_vm();
                            let pages = pvm_g.stack_high - pvm_g.stack_low;
                            let low = (slot + 1) * crate::procvm::SLOT_PAGES - pages;
                            assert(old(self).spec_mm() == pre.spec_mm());
                            if e is PageAlreadyMapped {
                                let p = choose|p: u64|
                                    low <= p < low + pages && crate::vm::spec_page_index(
                                        pre.spec_mm().spec_pt(pvm_g.table_id as int),
                                        0,
                                        p,
                                    ) is Some;
                                assert(low <= p < low + pages && crate::vm::spec_page_index(
                                    old(self).spec_mm().spec_pt(pvm_g.table_id as int),
                                    0,
                                    p,
                                ) is Some);
                            }
                        }
                        return 0;
                    },
                }
            },
            None => {
                proof {
                    assert(false);
                }
                return 0;
            },
        };
        let pid = self.next_pid;
        self.next_pid = self.next_pid + 1;
        let mut child_ctx = *ctx;
        child_ctx.rax = 0;
        child_ctx.rsp = ctx.rsp - offset;
        let mut slot_d = self.datas.remove(parent_data);
        if slot_d.refs < usize::MAX {
            slot_d.refs = slot_d.refs + 1;
        }
        self.datas.insert(parent_data, slot_d);
        proof {
            assert(self.spec_datas() =~= pre.spec_datas().update(
                parent_data as int,
                self.spec_datas()[parent_data as int],
            ));
        }
        let p = Process {
            pid,
            name: Vec::new(),
            parent: self.current,
            children: Vec::new(),
            ticks_passed: 0,
            status: ProgramStatus::Ready,
            context: child_ctx,
            exit_code: None,
            proc_vm: Some(child_vm),
            data_id: Some(parent_data),
        };
        let ghost before_push = *self;
        self.procs.push(p);
        self.ready_queue.push(pid);
        ctx.set_rax(pid as u64);
        proof {
            assert(self.spec_procs().subrange(0, before_push.spec_procs().len() as int)
                =~= before_push.spec_procs());
            assert(self.spec_ready_queue() =~= before_push.spec_ready_queue().push(pid));
            assert forall|d: int| 0 <= d < before_push.spec_datas().len() implies (
            #[trigger] before_push.spec_datas()[d]).data.semaphores.wf() by {
                assert(before_push.spec_datas()[d].data.semaphores
                    == pre.spec_datas()[d].data.semaphores);
            }
            assert forall|k: int|
                0 <= k < pre.spec_procs().len() && (#[trigger] pre.spec_procs()[k].proc_vm)
                    is Some implies pre.spec_procs()[k].proc_vm->Some_0.spec_slot()
                != self.spec_procs().last().proc_vm->Some_0.spec_slot() by {
                if pre.spec_procs()[k].proc_vm->Some_0.spec_slot() == slot {
                    assert(exists|i2: int|
                        0 <= i2 < pre.spec_procs().len() && (
                        #[trigger] pre.spec_procs()[i2].proc_vm) is Some
                            && pre.spec_procs()[i2].proc_vm->Some_0.spec_slot() == slot);
                }
            }
            lemma_wf_push_proc(&pre, &before_push, self, pid);
        }
        self.record_child(pid);
        pid
    }

    /// Adds a fresh child to the current process's child list.
    fn record_child(&mut self, child: u16)
        requires
            old(self).wf(),
        ensures
            final(self).wf(),
            final(self).spec_procs().len() == old(self).spec_procs().len(),
            final(self).spec_current() == old(self).spec_current(),
            final(self).spec_ready_queue() == old(self).spec_ready_queue(),
            final(self).spec_next_pid() == old(self).spec_next_pid(),
            forall|k: int|
                0 <= k < old(self).spec_procs().len() ==> {
                    &&& (#[trigger] final(self).spec_procs()[k]).pid == old(self).spec_procs()[
                        k].pid
                    &&& final(self).spec_procs()[k].status == old(self).spec_procs()[k].status
                    &&& final(self).spec_procs()[k].exit_code == old(self).spec_procs()[
                        k].exit_code
                    &&& final(self).spec_procs()[k].context == old(self).spec_procs()[k].context
                    &&& final(self).spec_procs()[k].proc_vm == old(self).spec_procs()[k].proc_vm
                    &&& final(self).spec_procs()[k].name == old(self).spec_procs()[k].name
                    &&& final(self).spec_procs()[k].parent == old(self).spec_procs()[k].parent
                    &&& final(self).spec_procs()[k].data_id == old(self).spec_procs()[k].data_id
                    &&& final(self).spec_procs()[k].ticks_passed == old(self).spec_procs()[
                        k].ticks_passed
                },
    {
        proof {
            lemma_pid_index_props(self.spec_procs(), 0, self.current);
        }
        let i = match self.index_of(self.get_pid()) {
            Some(i) => i,
            None => {
                proof {
                    assert(false);
                }
                return ;
            },
        };
        let ghost pre = *self;
        let mut p = self.procs.remove(i);
        p.children.push(child);
        self.procs.insert(i, p);
        proof {
            assert(self.spec_procs() =~= pre.spec_procs().update(
                i as int,
                self.spec_procs()[i as int],
            ));
            lemma_wf_update_at(&pre, self, i as int);
        }
    }
}

/// The stack bottom page a fresh stack in `slot` starts from.
pub open spec fn pre_stack_low_of(slot: u64) -> u64 {
    (((slot + 1) * crate::procvm::SLOT_PAGES) - STACK_DEF_PAGES) as u64
}

/// Duplicates a process's stack into another slot on the shared table.
fn pvm_vfork(vm: &ProcessVm, mm: &mut MemoryManager, slot: u64) -> (r: Result<
    ProcessVm,
    crate::vm::MapError,
>)
    requires
        vm.wf(),
        old(mm).wf(),
        vm.table_id < old(mm).spec_tables().len(),
        slot < 0x1_0000_0000,
        old(mm).spec_alloc().spec_used() + crate::procvm::SLOT_PAGES <= u64::MAX,
        old(mm).spec_tables()[vm.table_id as int].refs < usize::MAX,
    ensures
        final(mm).wf(),
        final(mm).spec_tables().len() == old(mm).spec_tables().len(),
        match r {
            Ok(cvm) => {
                &&& cvm.wf()
                &&& cvm.spec_slot() == slot
                &&& cvm.table_id == vm.table_id
                &&& cvm.table_id < final(mm).spec_tables().len()
                &&& cvm.stack_high == (slot + 1) * crate::procvm::SLOT_PAGES
                &&& cvm.stack_high - cvm.stack_low == vm.stack_high - vm.stack_low
                &&& cvm.heap_end_page == crate::procvm::HEAP_START_PAGE
                &&& cvm.code@.len() == 0
            },
            Err(e) => {
                let pages = vm.stack_high - vm.stack_low;
                let low = (slot + 1) * crate::procvm::SLOT_PAGES - pages;
                &&& *final(mm) == *old(mm)
                &&& ((e == crate::vm::MapError::FrameAllocationFailed && crate::vm::spec_free(
                    old(mm).spec_alloc(),
                ) < pages) || (e == crate::vm::MapError::PageAlreadyMapped && exists|p: u64|
                    low <= p < low + pages && crate::vm::spec_page_index(
                        old(mm).spec_pt(vm.table_id as int),
                        0,
                        p,
                    ) is Some))
            },
        },
{
    vm.vfork_stack(mm, slot)
}

/// Appending a fresh ready process with a fresh slot, enqueued at the back,
/// preserves the invariant.
proof fn lemma_wf_push_proc(
    pre: &ProcessManager,
    mid: &ProcessManager,
    post: &ProcessManager,
    pid: u16,
)
    requires
        pre.wf(),
        mid.spec_procs() == pre.spec_procs(),
        mid.spec_ready_queue() == pre.spec_ready_queue(),
        mid.spec_current() == pre.spec_current(),
        mid.spec_mm().wf(),
        mid.spec_mm().spec_tables().len() >= pre.spec_mm().spec_tables().len(),
        mid.spec_datas().len() >= pre.spec_datas().len(),
        forall|d: int|
            0 <= d < mid.spec_datas().len() ==> (#[trigger] mid.spec_datas()[d]).data.semaphores.wf(),
        mid.spec_next_pid() > pid,
        pid >= pre.spec_next_pid(),
        pid != 0,
        post.spec_procs().len() == mid.spec_procs().len() + 1,
        post.spec_procs().subrange(0, mid.spec_procs().len() as int) == mid.spec_procs(),
        post.spec_ready_queue() == mid.spec_ready_queue().push(pid),
        post.spec_datas() == mid.spec_datas(),
        post.spec_mm() == mid.spec_mm(),
        post.spec_current() == mid.spec_current(),
        post.spec_next_pid() == mid.spec_next_pid(),
        ({
            let p = post.spec_procs().last();
            &&& p.pid == pid
            &&& p.status is Ready
            &&& p.exit_code is None
            &&& p.proc_vm is Some
            &&& p.proc_vm->Some_0.wf()
            &&& p.proc_vm->Some_0.table_id < post.spec_mm().spec_tables().len()
            &&& p.data_id is Some
            &&& p.data_id->Some_0 < post.spec_datas().len()
            &&& forall|k: int|
                0 <= k < pre.spec_procs().len() && (#[trigger] pre.spec_procs()[k].proc_vm)
                    is Some ==> pre.spec_procs()[k].proc_vm->Some_0.spec_slot()
                    != p.proc_vm->Some_0.spec_slot()
        }),
    ensures
        post.wf(),
{
    let pres = pre.spec_procs();
    let posts = post.spec_procs();
    let n = pres.len() as int;
    assert forall|k: int| 0 <= k < n implies #[trigger] posts[k] == pres[k] by {
        assert(posts.subrange(0, n) == pres);
        assert(posts.subrange(0, n)[k] == posts[k]);
    }
    assert forall|q: u16| q != pid implies #[trigger] spec_pid_index(posts, 0, q)
        == spec_pid_index(pres, 0, q) by {
        lemma_pid_index_props(pres, 0, q);
        match spec_pid_index(pres, 0, q) {
            Some(i) => {
                lemma_pid_index_char_from(posts, 0, i, q);
            },
            None => {
                assert forall|j: int| 0 <= j < posts.len() implies (#[trigger] posts[j].pid)
                    != q by {
                    if j < n {
                        assert(posts[j] == pres[j]);
                    }
                }
                lemma_pid_index_char_from(posts, 0, posts.len() as int, q);
            },
        }
    }
    assert(spec_pid_index(posts, 0, pid) == Some(n)) by {
        assert forall|j: int| 0 <= j < n implies (#[trigger] posts[j].pid) != pid by {
            assert(posts[j] == pres[j]);
            assert(pres[j].pid < pre.spec_next_pid());
        }
        lemma_pid_index_char_from(posts, 0, n, pid);
    }
    assert(post.spec_one_running()) by {
        lemma_pid_index_props(pres, 0, pre.spec_current());
        assert(pre.spec_current() != pid) by {
            let c = spec_pid_index(pres, 0, pre.spec_current())->Some_0;
            assert(pres[c].pid < pre.spec_next_pid());
        }
        assert forall|k: int| 0 <= k < posts.len() implies (((#[trigger] posts[k]).status
            is Running) <==> posts[k].pid == post.spec_current()) by {
            if k < n {
                assert(posts[k] == pres[k]);
            } else {
                assert(posts[k].pid == pid);
                assert(pid != post.spec_current());
                assert(posts[k].status is Ready);
            }
        }
    }
    assert(post.spec_ready_queue_ready()) by {
        assert forall|k: int| 0 <= k < post.spec_ready_queue().len() implies {
            let idx = spec_pid_index(posts, 0, #[trigger] post.spec_ready_queue()[k]);
            &&& idx is Some
            &&& posts[idx->Some_0].status is Ready
        } by {
            let m = post.spec_ready_queue()[k];
            if k < post.spec_ready_queue().len() - 1 {
                assert(pre.spec_ready_queue()[k] == m);
                lemma_ready_queue_ready(pre, k);
                lemma_pid_index_props(pres, 0, m);
                let idx = spec_pid_index(pres, 0, m)->Some_0;
                assert(m != pid) by {
                    assert(pres[idx].pid < pre.spec_next_pid());
                }
                assert(posts[idx] == pres[idx]);
            } else {
                assert(m == pid);
            }
        }
    }
    assert(post.spec_dead_iff_exited()) by {
        assert forall|k: int| 0 <= k < posts.len() implies (((#[trigger] posts[k]).exit_code
            is Some) <==> posts[k].status is Dead) && (posts[k].status is Dead ==> posts[
        k].proc_vm is None) && (!(posts[k].status is Dead) ==> posts[k].proc_vm is Some && posts[
        k].data_id is Some) by {
            if k < n {
                assert(posts[k] == pres[k]);
            }
        }
    }
    assert(post.spec_slots_distinct()) by {
        assert forall|k: int|
            0 <= k < posts.len() && (#[trigger] posts[k].proc_vm) is Some implies posts[
        k].proc_vm->Some_0.wf() && posts[k].proc_vm->Some_0.table_id
            < post.spec_mm().spec_tables().len() by {
            if k < n {
                assert(posts[k] == pres[k]);
            }
        }
        assert forall|a: int, b: int|
            0 <= a < posts.len() && 0 <= b < posts.len() && a != b && (
            #[trigger] posts[a].proc_vm) is Some && (#[trigger] posts[b].proc_vm)
                is Some implies posts[a].proc_vm->Some_0.spec_slot()
            != posts[b].proc_vm->Some_0.spec_slot() by {
            if a < n && b < n {
                assert(posts[a] == pres[a] && posts[b] == pres[b]);
            } else if a < n {
                assert(posts[a] == pres[a]);
            } else if b < n {
                assert(posts[b] == pres[b]);
            }
        }
    }
    assert(post.spec_kernel_alive()) by {
        lemma_pid_index_props(pres, 0, KERNEL_PID);
        let kk = spec_pid_index(pres, 0, KERNEL_PID)->Some_0;
        assert(KERNEL_PID != pid) by {
            assert(pres[kk].pid < pre.spec_next_pid());
        }
        assert(posts[kk] == pres[kk]);
        if pres[kk].status is Ready {
            assert(pre.spec_ready_queue().contains(KERNEL_PID));
            let x = choose|x: int|
                0 <= x < pre.spec_ready_queue().len() && pre.spec_ready_queue()[x] == KERNEL_PID;
            assert(post.spec_ready_queue()[x] == KERNEL_PID);
        }
    }
    assert forall|a: int, b: int| 0 <= a < b < posts.len() implies (#[trigger] posts[a]).pid != (
    #[trigger] posts[b]).pid by {
        if b < n {
            assert(posts[a] == pres[a] && posts[b] == pres[b]);
        } else {
            assert(posts[a] == pres[a]);
            assert(pres[a].pid < pre.spec_next_pid());
        }
    }
    assert forall|k: int| 0 <= k < posts.len() implies (#[trigger] posts[k]).pid
        < post.spec_next_pid() by {
        if k < n {
            assert(posts[k] == pres[k]);
            assert(pres[k].pid < pre.spec_next_pid() <= pid < post.spec_next_pid());
        }
    }
    assert forall|k: int| 0 <= k < posts.len() && (#[trigger] posts[k].data_id) is Some implies
    posts[k].data_id->Some_0 < post.spec_datas().len() by {
        if k < n {
            assert(posts[k] == pres[k]);
        }
    }
}

/// Compares two byte strings.
fn bytes_eq(a: &[u8], b: &[u8]) -> (r: bool)
    ensures
        r == (a@ =~= b@),
{
    if a.len() != b.len() {
        return false;
    }
    let n = a.len();
    let mut i: usize = 0;
    while i < n
        invariant
            i <= n == a@.len() == b@.len(),
            forall|k: int| 0 <= k < i ==> a@[k] == b@[k],
        decreases n - i,
    {
        if a[i] != b[i] {
            return false;
        }
        i = i + 1;
    }
    proof {
        assert(a@ =~= b@);
    }
    true
}

/// A manager with more tables than a well-formed one, everything else
/// equal, is well formed.
proof fn lemma_wf_tables_grow(pre: &ProcessManager, post: &ProcessManager)
    requires
        pre.wf(),
        post.spec_procs() == pre.spec_procs(),
        post.spec_ready_queue() == pre.spec_ready_queue(),
        post.spec_datas() == pre.spec_datas(),
        post.spec_mm().wf(),
        post.spec_mm().spec_tables().len() >= pre.spec_mm().spec_tables().len(),
        post.spec_current() == pre.spec_current(),
        post.spec_next_pid() == pre.spec_next_pid(),
    ensures
        post.wf(),
{
    assert forall|q: u16| true implies #[trigger] spec_pid_index(post.spec_procs(), 0, q)
        == spec_pid_index(pre.spec_procs(), 0, q) by {
        lemma_pid_index_same_pids(post.spec_procs(), pre.spec_procs(), 0, q);
    }
}

/// A manager whose processes, queue, data slots and memory equal a
/// well-formed one, semaphore sets staying well formed, is well formed.
proof fn lemma_wf_same_datas(pre: &ProcessManager, post: &ProcessManager)
    requires
        pre.wf(),
        post.spec_procs() == pre.spec_procs(),
        post.spec_ready_queue() == pre.spec_ready_queue(),
        post.spec_datas().len() == pre.spec_datas().len(),
        forall|d: int|
            0 <= d < post.spec_datas().len() ==> (#[trigger] post.spec_datas()[d]).data.semaphores.wf(),
        post.spec_mm() == pre.spec_mm(),
        post.spec_current() == pre.spec_current(),
        post.spec_next_pid() == pre.spec_next_pid(),
    ensures
        post.wf(),
{
    assert forall|q: u16| true implies #[trigger] spec_pid_index(post.spec_procs(), 0, q)
        == spec_pid_index(pre.spec_procs(), 0, q) by {
        lemma_pid_index_same_pids(post.spec_procs(), pre.spec_procs(), 0, q);
    }
}

/// A manager whose processes, queue, data slots, memory and current id all
/// equal a well-formed one is well formed itself: the wait map and program
/// list play no part in the invariant.
proof fn lemma_wf_same_core(pre: &ProcessManager, post: &ProcessManager)
    requires
        pre.wf(),
        post.spec_procs() == pre.spec_procs(),
        post.spec_ready_queue() == pre.spec_ready_queue(),
        post.spec_datas() == pre.spec_datas(),
        post.spec_mm() == pre.spec_mm(),
        post.spec_current() == pre.spec_current(),
        post.spec_next_pid() == pre.spec_next_pid(),
    ensures
        post.wf(),
{
    assert forall|q: u16| true implies #[trigger] spec_pid_index(post.spec_procs(), 0, q)
        == spec_pid_index(pre.spec_procs(), 0, q) by {
        lemma_pid_index_same_pids(post.spec_procs(), pre.spec_procs(), 0, q);
    }
}

/// In a sequence of distinct ids, any entry holding `q` is the one the scan
/// finds.
proof fn lemma_entry_unique_pid(procs: Seq<Process>, q: u16, j: int)
    requires
        forall|a: int, b: int|
            0 <= a < b < procs.len() ==> (#[trigger] procs[a].pid) != (#[trigger] procs[b].pid),
        0 <= j < procs.len(),
        procs[j].pid == q,
    ensures
        spec_pid_index(procs, 0, q) == Some(j),
{
    lemma_pid_index_props(procs, 0, q);
    match spec_pid_index(procs, 0, q) {
        Some(i) => {
            if i < j {
                assert(procs[i].pid != procs[j].pid);
            } else if j < i {
                assert(procs[j].pid != q);
            }
        },
        None => {
            assert(procs[j].pid != q);
        },
    }
}

/// In a paused manager every ready-queue member is a `Ready` process.
proof fn lemma_ready_queue_ready_paused(m: &ProcessManager, k: int)
    requires
        m.spec_paused(),
        0 <= k < m.spec_ready_queue().len(),
    ensures
        spec_pid_index(m.spec_procs(), 0, m.spec_ready_queue()[k]) is Some,
        ({
            let idx = spec_pid_index(m.spec_procs(), 0, m.spec_ready_queue()[k])->Some_0;
            m.spec_procs()[idx].status is Ready
        }),
{
}

/// Looking a process up by id lands inside the table on its control block.
pub proof fn lemma_index_of_props(m: &ProcessManager, pid: u16)
    ensures
        match m.spec_index_of(pid) {
            Some(i) => 0 <= i < m.spec_procs().len() && m.spec_procs()[i].pid == pid,
            None => true,
        },
{
    lemma_pid_index_props(m.spec_procs(), 0, pid);
}

/// In a well-formed manager exactly one process runs, and the current id
/// names it.
pub proof fn lemma_exactly_one_running(m: &ProcessManager)
    requires
        m.wf(),
    ensures
        m.spec_index_of(m.spec_current()) is Some,
        forall|i: int|
            0 <= i < m.spec_procs().len() ==> (((#[trigger] m.spec_procs()[i]).status is Running)
                <==> m.spec_procs()[i].pid == m.spec_current()),
{
}

/// In a well-formed manager every ready-queue member is a `Ready` process;
/// no dead process sits in the queue.
pub proof fn lemma_ready_queue_ready(m: &ProcessManager, k: int)
    requires
        m.wf(),
        0 <= k < m.spec_ready_queue().len(),
    ensures
        spec_pid_index(m.spec_procs(), 0, m.spec_ready_queue()[k]) is Some,
        ({
            let idx = spec_pid_index(m.spec_procs(), 0, m.spec_ready_queue()[k])->Some_0;
            m.spec_procs()[idx].status is Ready && !(m.spec_procs()[idx].status is Dead)
        }),
{
}

/// In a well-formed manager a process carries an exit code exactly when it
/// is dead, and a dead process keeps no memory.
pub proof fn lemma_dead_iff_exited(m: &ProcessManager, i: int)
    requires
        m.wf(),
        0 <= i < m.spec_procs().len(),
    ensures
        (m.spec_procs()[i].exit_code is Some) <==> (m.spec_procs()[i].status is Dead),
        m.spec_procs()[i].status is Dead ==> m.spec_procs()[i].proc_vm is None,
{
}

/// In a well-formed manager, the stacks of two distinct live processes
/// never share a 4 GiB stack slot, and each stack lies within one slot.
pub proof fn lemma_stack_slots_distinct(m: &ProcessManager, i: int, j: int)
    requires
        m.wf(),
        0 <= i < m.spec_procs().len(),
        0 <= j < m.spec_procs().len(),
        i != j,
        m.spec_procs()[i].proc_vm is Some,
        m.spec_procs()[j].proc_vm is Some,
    ensures
        m.spec_procs()[i].proc_vm->Some_0.spec_slot() != m.spec_procs()[j].proc_vm->Some_0.spec_slot(),
        m.spec_procs()[i].proc_vm->Some_0.wf(),
{
}

} // verus!

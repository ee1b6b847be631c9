//! The kernel's process table: creating, finding, ending and removing
//! processes, and the initial stack frame a new process starts from.
use vstd::prelude::*;

verus! {

/// Bytes of a kernel stack.
pub const KERNEL_STACK_SIZE: usize = 64 * 1024;

/// Slots in the process table.
pub const MAX_PROCESSES: usize = 64;

/// "No current process".
pub const NO_PROCESS: usize = usize::MAX;

/// Scheduling priority, lowest first.
#[derive(Clone, Copy, Debug, PartialEq, Eq, Structural, PartialOrd)]
pub enum Priority {
    Idle,
    Normal,
    High,
    Realtime,
}

/// Where a process stands in its life.
#[derive(Clone, Copy, Debug, PartialEq, Eq, Structural)]
pub enum ProcessState {
    Ready,
    Running,
    Blocked,
    Sleeping,
    Terminated,
}

/// One process. Addresses (stack, entry point, top-level page table) are
/// kept as numbers; zero stands for none.
#[derive(Clone, Copy, Debug)]
pub struct Process {
    pub pid: u64,
    pub rsp: u64,
    pub stack_base: u64,
    pub entry: u64,
    pub pml4: u64,
    pub state: ProcessState,
    pub priority: Priority,
    pub ticks_ready: u64,
    pub wake_at_tick: u64,
}

/// The process table: a slot per process id, the index of the running
/// process, and how many process ids have been handed out.
pub struct ProcessTable {
    pub processes: Vec<Option<Process>>,
    pub current: usize,
    pub count: u64,
}

impl ProcessTable {
    /// The table has its 64 slots, hands out no more ids than it has slots,
    /// and its current index is a slot or "none".
    pub open spec fn wf(self) -> bool {
        &&& self.processes@.len() == MAX_PROCESSES
        &&& self.count <= MAX_PROCESSES
        &&& (self.current < MAX_PROCESSES || self.current == NO_PROCESS)
    }

    /// The process in slot `pid`, if there is one.
    pub open spec fn lookup(self, pid: u64) -> Option<Process> {
        if pid < MAX_PROCESSES {
            self.processes@[pid as int]
        } else {
            None
        }
    }

    /// An empty table: no process, none current, no id handed out.
    pub fn new() -> (t: ProcessTable)
        ensures
            t.wf(),
            t.current == NO_PROCESS,
            t.count == 0,
            forall|i: int| 0 <= i < MAX_PROCESSES ==> #[trigger] t.processes@[i] is None,
    {
        let mut processes: Vec<Option<Process>> = Vec::new();
        let mut i: usize = 0;
        while i < MAX_PROCESSES
            invariant
                i <= MAX_PROCESSES,
                processes@.len() == i,
                forall|k: int| 0 <= k < i ==> #[trigger] processes@[k] is None,
            decreases MAX_PROCESSES - i,
        {
            processes.push(None);
            i = i + 1;
        }
        ProcessTable { processes, current: NO_PROCESS, count: 0 }
    }
}

/// The process that stands for the kernel itself: id 0, running, idle
/// priority, on the stack it is running on.
pub open spec fn kernel_process(rsp: u64, pml4: u64) -> Process {
    Process {
        pid: 0,
        rsp,
        stack_base: 0,
        entry: 0,
        pml4,
        state: ProcessState::Running,
        priority: Priority::Idle,
        ticks_ready: 0,
        wake_at_tick: 0,
    }
}

/// A newly created process: ready, normal priority.
pub open spec fn new_process(pid: u64, entry: u64, stack_base: u64, rsp: u64, pml4: u64) -> Process {
    Process {
        pid,
        rsp,
        stack_base,
        entry,
        pml4,
        state: ProcessState::Ready,
        priority: Priority::Normal,
        ticks_ready: 0,
        wake_at_tick: 0,
    }
}

/// Installs the kernel as process 0, makes it current, and counts one id
/// handed out.
pub fn init_kernel_process(table: &mut ProcessTable, rsp: u64, pml4: u64)
    requires
        old(table).wf(),
    ensures
        final(table).wf(),
        final(table).processes@ == old(table).processes@.update(0, Some(kernel_process(rsp, pml4))),
        final(table).current == 0,
        final(table).count == 1,
{
    let process = Process {
        pid: 0,
        rsp,
        stack_base: 0,
        entry: 0,
        pml4,
        state: ProcessState::Running,
        priority: Priority::Idle,
        ticks_ready: 0,
        wake_at_tick: 0,
    };
    table.processes.set(0, Some(process));
    table.current = 0;
    table.count = 1;
}

/// The id the next process will get, if the table has room for it.
pub fn next_pid(table: &ProcessTable) -> (r: Option<u64>)
    ensures
        r == if table.count < MAX_PROCESSES { Some(table.count) } else { None::<u64> },
{
    if table.count >= MAX_PROCESSES as u64 {
        None
    } else {
        Some(table.count)
    }
}

/// Puts a new process in the slot of the next id and hands that id out;
/// nothing where all ids are used.
pub fn create_process(table: &mut ProcessTable, entry: u64, stack_base: u64, rsp: u64, pml4: u64) -> (r: Option<u64>)
    requires
        old(table).wf(),
    ensures
        final(table).wf(),
        old(table).count >= MAX_PROCESSES ==> r is None && *final(table) == *old(table),
        old(table).count < MAX_PROCESSES ==> {
            &&& r == Some(old(table).count)
            &&& final(table).processes@ == old(table).processes@.update(
                old(table).count as int,
                Some(new_process(old(table).count, entry, stack_base, rsp, pml4)),
            )
            &&& final(table).count == old(table).count + 1
            &&& final(table).current == old(table).current
        },
{
    let pid = table.count;
    if pid >= MAX_PROCESSES as u64 {
        return None;
    }
    let process = Process {
        pid,
        rsp,
        stack_base,
        entry,
        pml4,
        state: ProcessState::Ready,
        priority: Priority::Normal,
        ticks_ready: 0,
        wake_at_tick: 0,
    };
    table.processes.set(pid as usize, Some(process));
    table.count = pid + 1;
    Some(pid)
}

/// Removing process `pid`: the table after, and the process removed. An id
/// past the table, or an empty slot, removes nothing; removing the current
/// process makes slot 0 current.
pub open spec fn spec_destroy(t: ProcessTable, pid: u64) -> (Seq<Option<Process>>, usize, Option<Process>) {
    spec_destroy_parts(t.processes@, t.current, pid)
}

/// Removes a process from the table and returns it, so that its stack can be
/// given back; nothing where the slot is empty or past the table.
pub fn destroy_process(table: &mut ProcessTable, pid: u64) -> (r: Option<Process>)
    requires
        old(table).wf(),
    ensures
        final(table).wf(),
        final(table).count == old(table).count,
        (final(table).processes@, final(table).current, r) == spec_destroy(*old(table), pid),
{
    if pid >= MAX_PROCESSES as u64 {
        return None;
    }
    let slot = table.processes[pid as usize];
    match slot {
        None => None,
        Some(p) => {
            table.processes.set(pid as usize, None);
            if table.current == pid as usize {
                table.current = 0;
            }
            Some(p)
        },
    }
}

/// Removing, slot by slot from `i` below `n`, each process that has
/// terminated (by the id it records): the slots and current index after, and
/// the processes removed in order.
pub open spec fn spec_cleanup(procs: Seq<Option<Process>>, current: usize, i: int, n: int) -> (Seq<Option<Process>>, usize, Seq<Process>)
    decreases n - i,
{
    if i >= n || i < 0 {
        (procs, current, seq![])
    } else {
        match procs[i] {
            Some(p) => if p.state == ProcessState::Terminated {
                let (procs2, current2, removed) = spec_destroy_parts(procs, current, p.pid);
                let (procs3, current3, rest) = spec_cleanup(procs2, current2, i + 1, n);
                (procs3, current3, match removed {
                    Some(q) => seq![q] + rest,
                    None => rest,
                })
            } else {
                spec_cleanup(procs, current, i + 1, n)
            },
            None => spec_cleanup(procs, current, i + 1, n),
        }
    }
}

/// spec_destroy on the parts of a table.
pub open spec fn spec_destroy_parts(procs: Seq<Option<Process>>, current: usize, pid: u64) -> (Seq<Option<Process>>, usize, Option<Process>) {
    if pid >= MAX_PROCESSES {
        (procs, current, None)
    } else {
        match procs[pid as int] {
            None => (procs, current, None),
            Some(p) => (procs.update(pid as int, None), if current == pid { 0 } else { current }, Some(p)),
        }
    }
}

/// Removes every terminated process among the first `count` slots, in slot
/// order, each by the id it records, and returns the processes removed so
/// that their stacks can be given back.
pub fn cleanup_terminated_processes(table: &mut ProcessTable) -> (removed: Vec<Process>)
    requires
        old(table).wf(),
    ensures
        final(table).wf(),
        final(table).count == old(table).count,
        (final(table).processes@, final(table).current, removed@) == spec_cleanup(
            old(table).processes@,
            old(table).current,
            0,
            old(table).count as int,
        ),
{
    let n = table.count as usize;
    let mut removed: Vec<Process> = Vec::new();
    let mut i: usize = 0;
    while i < n
        invariant
            table.wf(),
            n == table.count,
            table.count == old(table).count,
            i <= n,
            ({
                let (p3, c3, rest) = spec_cleanup(table.processes@, table.current, i as int, n as int);
                spec_cleanup(old(table).processes@, old(table).current, 0, n as int) == (p3, c3, removed@ + rest)
            }),
        decreases n - i,
    {
        let slot = table.processes[i];
        let ghost before_procs = table.processes@;
        let ghost before_current = table.current;
        let ghost before_removed = removed@;
        match slot {
            Some(p) => {
                if p.state == ProcessState::Terminated {
                    let r = destroy_process(table, p.pid);
                    match r {
                        Some(q) => {
                            removed.push(q);
                            proof {
                                let (p3, c3, rest) = spec_cleanup(table.processes@, table.current, i + 1, n as int);
                                assert(before_removed + (seq![q] + rest) =~= removed@ + rest);
                            }
                        },
                        None => {},
                    }
                }
            },
            None => {},
        }
        i = i + 1;
    }
    proof {
        assert(removed@ + Seq::<Process>::empty() =~= removed@);
    }
    removed
}

/// Marks the current process terminated, where its slot holds one.
pub fn exit_current_process(table: &mut ProcessTable)
    requires
        old(table).wf(),
        old(table).current < MAX_PROCESSES,
    ensures
        final(table).wf(),
        final(table).current == old(table).current,
        final(table).count == old(table).count,
        final(table).processes@ == match old(table).processes@[old(table).current as int] {
            Some(p) => old(table).processes@.update(
                old(table).current as int,
                Some(Process { state: ProcessState::Terminated, ..p }),
            ),
            None => old(table).processes@,
        },
{
    let current = table.current;
    match table.processes[current] {
        Some(p) => {
            let mut q = p;
            q.state = ProcessState::Terminated;
            table.processes.set(current, Some(q));
        },
        None => {},
    }
}

/// The running process, if there is one.
pub fn get_current_process(table: &ProcessTable) -> (r: Option<&Process>)
    requires
        table.wf(),
    ensures
        table.current == NO_PROCESS ==> r is None,
        table.current != NO_PROCESS ==> match table.processes@[table.current as int] {
            Some(p) => r == Some(&p),
            None => r is None,
        },
{
    if table.current == NO_PROCESS {
        return None;
    }
    table.processes[table.current].as_ref()
}

/// The process with the given id, if its slot holds one.
pub fn get_process(table: &ProcessTable, pid: u64) -> (r: Option<&Process>)
    requires
        table.wf(),
    ensures
        match table.lookup(pid) {
            Some(p) => r == Some(&p),
            None => r is None,
        },
{
    if pid >= MAX_PROCESSES as u64 {
        return None;
    }
    table.processes[pid as usize].as_ref()
}

/// The process with the given id, for changing, if its slot holds one; what
/// is written through it lands in that slot.
pub fn get_process_mut(table: &mut ProcessTable, pid: u64) -> (r: Option<&mut Process>)
    requires
        old(table).wf(),
    ensures
        old(table).lookup(pid) is Some ==> r is Some,
        old(table).lookup(pid) is Some ==> *r->Some_0 == old(table).lookup(pid)->Some_0,
        old(table).lookup(pid) is Some ==> final(table).processes@ == old(table).processes@.update(pid as int, Some(*final(r->Some_0))),
        final(table).current == old(table).current,
        final(table).count == old(table).count,
        old(table).lookup(pid) is None ==> r is None && final(table).processes@ == old(table).processes@,
{
    if pid >= MAX_PROCESSES as u64 {
        return None;
    }
    table.processes[pid as usize].as_mut()
}

/// The running process, for changing, if there is one.
pub fn get_current_process_mut(table: &mut ProcessTable) -> (r: Option<&mut Process>)
    requires
        old(table).wf(),
    ensures
        old(table).current == NO_PROCESS ==> r is None && final(table).processes@ == old(table).processes@,
        old(table).current != NO_PROCESS && old(table).processes@[old(table).current as int] is Some ==> r is Some
            && *r->Some_0 == old(table).processes@[old(table).current as int]->Some_0
            && final(table).processes@ == old(table).processes@.update(old(table).current as int, Some(*final(r->Some_0))),
        old(table).current != NO_PROCESS && old(table).processes@[old(table).current as int] is None ==> r is None
            && final(table).processes@ == old(table).processes@,
        final(table).current == old(table).current,
        final(table).count == old(table).count,
{
    if table.current == NO_PROCESS {
        return None;
    }
    let current = table.current;
    table.processes[current].as_mut()
}

/// The words written below the top of a new process's stack, from the top
/// down: the frame an interrupt return pops (stack segment 0x10, the stack
/// top, flags 0x202 with interrupts on, code segment 0x08, and the entry
/// wrapper as return address), then fifteen saved registers, all zero but
/// the second, which carries the entry point.
pub open spec fn spec_initial_frame(stack_top: u64, entry: u64, wrapper: u64) -> Seq<u64> {
    seq![0x10u64, stack_top, 0x202u64, 0x08u64, wrapper]
        + Seq::new(15, |i: int| if i == 1 { entry } else { 0u64 })
}

/// The initial stack of a new process: the words to write below the top,
/// from the top down, and the stack pointer left below the last of them.
pub fn setup_initial_stack(stack_top: u64, entry: u64, wrapper: u64) -> (r: (Vec<u64>, u64))
    requires
        stack_top >= 160,
    ensures
        r.0@ == spec_initial_frame(stack_top, entry, wrapper),
        r.1 == stack_top - 8 * 20,
{
    let mut words: Vec<u64> = Vec::new();
    words.push(0x10);
    words.push(stack_top);
    words.push(0x202);
    words.push(0x08);
    words.push(wrapper);
    let mut i: usize = 0;
    while i < 15
        invariant
            i <= 15,
            words@ == seq![0x10u64, stack_top, 0x202u64, 0x08u64, wrapper]
                + Seq::new(i as nat, |k: int| if k == 1 { entry } else { 0u64 }),
        decreases 15 - i,
    {
        words.push(if i == 1 { entry } else { 0 });
        assert(words@ =~= seq![0x10u64, stack_top, 0x202u64, 0x08u64, wrapper]
            + Seq::new((i + 1) as nat, |k: int| if k == 1 { entry } else { 0u64 }));
        i = i + 1;
    }
    assert(words@ =~= spec_initial_frame(stack_top, entry, wrapper));
    (words, stack_top - 160)
}

/// Every process sits in the slot of its own id.
pub open spec fn ids_match_slots(procs: Seq<Option<Process>>) -> bool {
    forall|i: int| 0 <= i < procs.len() && #[trigger] procs[i] is Some ==> procs[i]->Some_0.pid == i
}

#[verifier::spinoff_prover]
proof fn lemma_cleanup_from(procs: Seq<Option<Process>>, current: usize, i: int, n: int)
    requires
        procs.len() == MAX_PROCESSES,
        0 <= i <= n <= MAX_PROCESSES,
        ids_match_slots(procs),
    ensures
        ({
            let (after, c, removed) = spec_cleanup(procs, current, i, n);
            &&& after.len() == procs.len()
            &&& forall|j: int| i <= j < n && #[trigger] after[j] is Some ==> after[j]->Some_0.state != ProcessState::Terminated
            &&& forall|j: int| 0 <= j < after.len() && #[trigger] after[j] is Some ==> after[j] == procs[j]
            &&& forall|j: int| 0 <= j < after.len() && !(i <= j < n) ==> #[trigger] after[j] == procs[j]
            &&& forall|j: int| i <= j < n && #[trigger] procs[j] is Some && procs[j]->Some_0.state != ProcessState::Terminated
                ==> after[j] == procs[j]
            &&& forall|k: int| 0 <= k < removed.len() ==> (#[trigger] removed[k]).state == ProcessState::Terminated
        }),
    decreases n - i,
{
    if i < n {
        match procs[i] {
            Some(p) => {
                if p.state == ProcessState::Terminated {
                    assert(p.pid == i);
                    let (procs2, current2, removed) = spec_destroy_parts(procs, current, p.pid);
                    assert(procs2 == procs.update(i, None));
                    assert(ids_match_slots(procs2)) by {
                        assert forall|j: int| 0 <= j < procs2.len() && #[trigger] procs2[j] is Some implies procs2[j]->Some_0.pid == j by {
                            assert(procs[j] is Some);
                        }
                    }
                    lemma_cleanup_from(procs2, current2, i + 1, n);
                    let (after, c, rest) = spec_cleanup(procs2, current2, i + 1, n);
                    assert(removed == Some(p));
                    assert(spec_cleanup(procs, current, i, n) == (after, c, seq![p] + rest));
                    assert forall|k: int| 0 <= k < rest.len() + 1 implies (#[trigger] (seq![p] + rest)[k]).state
                        == ProcessState::Terminated by {
                        if k > 0 {
                            assert((seq![p] + rest)[k] == rest[k - 1]);
                        }
                    }
                    assert forall|j: int| 0 <= j < after.len() && #[trigger] after[j] is Some implies after[j] == procs[j] by {
                        assert(after[j] == procs2[j]);
                    }
                    assert forall|j: int| i <= j < n && #[trigger] procs[j] is Some
                        && procs[j]->Some_0.state != ProcessState::Terminated implies after[j] == procs[j] by {
                        assert(j != i);
                        assert(procs2[j] == procs[j]);
                    }
                } else {
                    lemma_cleanup_from(procs, current, i + 1, n);
                    let (after, c, rest) = spec_cleanup(procs, current, i + 1, n);
                    assert forall|j: int| i <= j < n && #[trigger] procs[j] is Some
                        && procs[j]->Some_0.state != ProcessState::Terminated implies after[j] == procs[j] by {
                        if j == i {
                            assert(after[i] == procs[i]);
                        }
                    }
                }
            },
            None => {
                lemma_cleanup_from(procs, current, i + 1, n);
                let (after, c, rest) = spec_cleanup(procs, current, i + 1, n);
                assert forall|j: int| i <= j < n && #[trigger] procs[j] is Some
                    && procs[j]->Some_0.state != ProcessState::Terminated implies after[j] == procs[j] by {
                    assert(j != i);
                }
            },
        }
    }
}

/// Where every process sits in the slot of its own id, cleaning up removes
/// exactly the terminated processes among the first `n` slots: none is left
/// there, every other process stays where it was, and everything removed had
/// terminated.
pub proof fn law_cleanup_removes_terminated(procs: Seq<Option<Process>>, current: usize, n: int)
    requires
        procs.len() == MAX_PROCESSES,
        0 <= n <= MAX_PROCESSES,
        ids_match_slots(procs),
    ensures
        ({
            let (after, c, removed) = spec_cleanup(procs, current, 0, n);
            &&& forall|j: int| 0 <= j < n && #[trigger] after[j] is Some ==> after[j]->Some_0.state != ProcessState::Terminated
            &&& forall|j: int| 0 <= j < procs.len() && #[trigger] procs[j] is Some
                && (procs[j]->Some_0.state != ProcessState::Terminated || j >= n) ==> after[j] == procs[j]
            &&& forall|j: int| 0 <= j < after.len() && #[trigger] after[j] is Some ==> after[j] == procs[j]
            &&& forall|k: int| 0 <= k < removed.len() ==> (#[trigger] removed[k]).state == ProcessState::Terminated
        }),
{
    lemma_cleanup_from(procs, current, 0, n);
}

/// A process just created is found under the id handed out for it, and
/// destroying that id gives it back and empties its slot.
pub proof fn law_created_process_found(procs: Seq<Option<Process>>, current: usize, count: u64, entry: u64, stack_base: u64, rsp: u64, pml4: u64)
    requires
        procs.len() == MAX_PROCESSES,
        count < MAX_PROCESSES,
    ensures
        ({
            let np = new_process(count, entry, stack_base, rsp, pml4);
            let created = procs.update(count as int, Some(np));
            &&& created[count as int] == Some(np)
            &&& np.pid == count
            &&& spec_destroy_parts(created, current, count).2 == Some(np)
            &&& spec_destroy_parts(created, current, count).0 == procs.update(count as int, None)
        }),
{
    let np = new_process(count, entry, stack_base, rsp, pml4);
    assert(procs.update(count as int, Some(np)).update(count as int, None) =~= procs.update(count as int, None));
}

/// Destroying a process gives back exactly the process in its slot and
/// empties that slot alone. The running process stays current unless it is
/// the one destroyed, which hands the processor to the kernel (slot 0); an
/// id with no process changes nothing.
pub proof fn law_destroy_keeps_current(t: ProcessTable, pid: u64)
    requires
        t.wf(),
    ensures
        ({
            let (procs, current, r) = spec_destroy(t, pid);
            &&& r == t.lookup(pid)
            &&& procs.len() == t.processes@.len()
            &&& forall|q: int| 0 <= q < procs.len() && q != pid ==> #[trigger] procs[q] == t.processes@[q]
            &&& r is Some ==> procs[pid as int] is None
            &&& r is None ==> procs == t.processes@ && current == t.current
            &&& t.current != pid ==> current == t.current
            &&& t.current == pid && r is Some ==> current == 0
        }),
{
}

} // verus!

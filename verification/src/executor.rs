//! The stage-list interpreter: a register machine that validates every
//! allocation, computation and release of a schedule.

use crate::text::decimal;
use crate::text::decimal_string;
use crate::text::texts;
use std::collections::HashMap;
use vstd::prelude::*;
use vstd::string::StringExecFns;

verus! {

broadcast use vstd::std_specs::hash::group_hash_axioms;

/// The ways in which a stage list can be rejected by the executor.
#[derive(Debug, PartialEq, Eq, Structural, Clone, Copy)]
pub enum ExecutorError {
    /// The register to allocate already holds something.
    MemoryOverwrite,
    /// The register to release is empty.
    MemoryFreeingEmpty,
    /// The operation to release was never allocated.
    MemoryFreeingUnallocated,
    /// The operation to release has not been executed yet.
    MemoryFreeingUnexecuted,
    /// The stage places an operation at another register than the one it was
    /// allocated at.
    MemoryMapError,
    /// The address index and the register contents disagree.
    MemoryMapErrorInternal,
    /// A register address lies outside the register file.
    MemoryHitResourceLimit,
    /// The operation was already allocated during this run.
    OperationReallocated,
    /// The operation to execute has no register.
    OperationNotAllocated,
    /// The operation to execute was executed before.
    OperationRunTwice,
    /// A dependency of the operation to execute has no register.
    DependencyNotAllocated,
    /// A dependency of the operation to execute has not been executed.
    DependencyNotExecuted,
}

/// An operation together with the register that holds its result.
#[derive(Debug, PartialEq, Eq, Structural, Clone, Copy)]
pub struct LocatedOperation {
    pub id: u64,
    pub addr: usize,
}

/// An operation of a schedule: its identity and the operations whose results
/// it reads, in operand order.
#[derive(Debug, PartialEq, Eq)]
pub struct Operation {
    pub id: u64,
    pub depends_on: Vec<u64>,
}

/// One unit of a schedule: the registers to reserve, the operation to run and
/// its register, and the registers to release afterwards.
#[derive(Debug, PartialEq, Eq)]
pub struct OperationStage {
    pub operation: (Operation, usize),
    pub allocate_before: Vec<LocatedOperation>,
    pub delete_after: Vec<LocatedOperation>,
}

/// The mathematical value of an [`Operation`].
pub struct OperationView {
    pub id: u64,
    pub depends_on: Seq<u64>,
}

/// The mathematical value of an [`OperationStage`].
pub struct StageView {
    pub operation: OperationView,
    pub addr: usize,
    pub allocate_before: Seq<LocatedOperation>,
    pub delete_after: Seq<LocatedOperation>,
}

impl View for Operation {
    type V = OperationView;

    open spec fn view(&self) -> OperationView {
        OperationView { id: self.id, depends_on: self.depends_on@ }
    }
}

impl View for OperationStage {
    type V = StageView;

    open spec fn view(&self) -> StageView {
        StageView {
            operation: self.operation.0@,
            addr: self.operation.1,
            allocate_before: self.allocate_before@,
            delete_after: self.delete_after@,
        }
    }
}

impl Clone for Operation {
    fn clone(&self) -> (r: Self)
        ensures
            r@ == self@,
    {
        Operation { id: self.id, depends_on: self.depends_on.clone() }
    }
}

impl Clone for OperationStage {
    fn clone(&self) -> (r: Self)
        ensures
            r@ == self@,
    {
        OperationStage {
            operation: (self.operation.0.clone(), self.operation.1),
            allocate_before: self.allocate_before.clone(),
            delete_after: self.delete_after.clone(),
        }
    }
}

/// The values of a list of stages, in order.
pub open spec fn stage_views(stages: Seq<OperationStage>) -> Seq<StageView> {
    stages.map_values(|s: OperationStage| s@)
}

/// A request made to the backend.
pub enum CallView {
    /// Prepare the register of an operation.
    Load(LocatedOperation),
    /// Produce an operation's result from its located dependencies; the last
    /// list names the registers that the backend may overwrite.
    Compute(LocatedOperation, Seq<LocatedOperation>, Seq<LocatedOperation>),
    /// Release the register of an operation.
    Unload(LocatedOperation),
}

/// The register machine that the executor drives.
///
/// `memory` holds, for each register, its occupant and whether the occupant
/// has been executed. `memory_map` records the register of every operation
/// allocated so far during the run; entries are never removed. `calls` is the
/// sequence of backend requests made so far, and `error` is the first check
/// that failed, after which the machine no longer moves.
pub struct Machine {
    pub memory: Seq<(Option<u64>, bool)>,
    pub memory_map: Map<u64, usize>,
    pub calls: Seq<CallView>,
    pub error: Option<ExecutorError>,
}

impl Machine {
    /// The machine before the first stage: every register empty.
    pub open spec fn initial(register_count: usize) -> Machine {
        Machine {
            memory: Seq::new(register_count as nat, |i: int| (None::<u64>, false)),
            memory_map: Map::empty(),
            calls: Seq::empty(),
            error: None,
        }
    }

    /// Every recorded address lies inside the register file.
    pub open spec fn wf(self) -> bool {
        forall|id: u64| #[trigger]
            self.memory_map.contains_key(id) ==> self.memory_map[id] < self.memory.len()
    }

    pub open spec fn fail(self, e: ExecutorError) -> Machine {
        Machine { error: Some(e), ..self }
    }

    /// Reserves a register for an operation and asks the backend to load it.
    pub open spec fn allocate(self, op: LocatedOperation) -> Machine {
        if self.error.is_some() {
            self
        } else if op.addr >= self.memory.len() {
            self.fail(ExecutorError::MemoryHitResourceLimit)
        } else if self.memory[op.addr as int] != (None::<u64>, false) {
            self.fail(ExecutorError::MemoryOverwrite)
        } else if self.memory_map.contains_key(op.id) {
            self.fail(ExecutorError::OperationReallocated)
        } else {
            Machine {
                memory: self.memory.update(op.addr as int, (Some(op.id), false)),
                memory_map: self.memory_map.insert(op.id, op.addr),
                calls: self.calls.push(CallView::Load(op)),
                error: None,
            }
        }
    }

    /// Reserves registers in list order, stopping at the first failure.
    pub open spec fn allocate_all(self, ops: Seq<LocatedOperation>) -> Machine
        decreases ops.len(),
    {
        if ops.len() == 0 {
            self
        } else {
            self.allocate(ops[0]).allocate_all(ops.drop_first())
        }
    }

    /// What is wrong with one dependency of the operation to execute, if
    /// anything.
    pub open spec fn dependency_error(self, dep: u64) -> Option<ExecutorError> {
        if !self.memory_map.contains_key(dep) {
            Some(ExecutorError::DependencyNotAllocated)
        } else if self.memory[self.memory_map[dep] as int].0 != Some(dep) {
            Some(ExecutorError::MemoryMapErrorInternal)
        } else if !self.memory[self.memory_map[dep] as int].1 {
            Some(ExecutorError::DependencyNotExecuted)
        } else {
            None
        }
    }

    /// The error of the first dependency, in operand order, that has one.
    pub open spec fn first_dependency_error(self, deps: Seq<u64>) -> Option<ExecutorError>
        decreases deps.len(),
    {
        if deps.len() == 0 {
            None
        } else if self.dependency_error(deps[0]).is_some() {
            self.dependency_error(deps[0])
        } else {
            self.first_dependency_error(deps.drop_first())
        }
    }

    /// The dependencies with the registers that hold them.
    pub open spec fn locate(self, deps: Seq<u64>) -> Seq<LocatedOperation> {
        Seq::new(
            deps.len(),
            |i: int| LocatedOperation { id: deps[i], addr: self.memory_map[deps[i]] },
        )
    }

    /// Checks the dependencies and the operation's own register, marks the
    /// operation executed and asks the backend to compute it.
    pub open spec fn execute(
        self,
        op: OperationView,
        addr: usize,
        may_consume: Seq<LocatedOperation>,
    ) -> Machine {
        if self.error.is_some() {
            self
        } else if self.first_dependency_error(op.depends_on).is_some() {
            self.fail(self.first_dependency_error(op.depends_on).unwrap())
        } else if !self.memory_map.contains_key(op.id) {
            self.fail(ExecutorError::OperationNotAllocated)
        } else if addr >= self.memory.len() {
            self.fail(ExecutorError::MemoryHitResourceLimit)
        } else if self.memory_map[op.id] != addr {
            self.fail(ExecutorError::MemoryMapError)
        } else if self.memory[addr as int].0 != Some(op.id) {
            self.fail(ExecutorError::MemoryMapErrorInternal)
        } else if self.memory[addr as int].1 {
            self.fail(ExecutorError::OperationRunTwice)
        } else {
            Machine {
                memory: self.memory.update(addr as int, (Some(op.id), true)),
                memory_map: self.memory_map,
                calls: self.calls.push(
                    CallView::Compute(
                        LocatedOperation { id: op.id, addr },
                        self.locate(op.depends_on),
                        may_consume,
                    ),
                ),
                error: None,
            }
        }
    }

    /// Releases a register and asks the backend to unload it.
    pub open spec fn free(self, op: LocatedOperation) -> Machine {
        if self.error.is_some() {
            self
        } else if !self.memory_map.contains_key(op.id) {
            self.fail(ExecutorError::MemoryFreeingUnallocated)
        } else if op.addr >= self.memory.len() {
            self.fail(ExecutorError::MemoryHitResourceLimit)
        } else if self.memory[op.addr as int].0.is_none() {
            self.fail(ExecutorError::MemoryFreeingEmpty)
        } else if self.memory[op.addr as int].0 != Some(op.id) {
            self.fail(ExecutorError::MemoryMapErrorInternal)
        } else if !self.memory[op.addr as int].1 {
            self.fail(ExecutorError::MemoryFreeingUnexecuted)
        } else {
            Machine {
                memory: self.memory.update(op.addr as int, (None::<u64>, false)),
                memory_map: self.memory_map,
                calls: self.calls.push(CallView::Unload(op)),
                error: None,
            }
        }
    }

    /// Releases registers in list order, stopping at the first failure.
    pub open spec fn free_all(self, ops: Seq<LocatedOperation>) -> Machine
        decreases ops.len(),
    {
        if ops.len() == 0 {
            self
        } else {
            self.free(ops[0]).free_all(ops.drop_first())
        }
    }

    /// One stage: allocate, then execute, then free.
    pub open spec fn stage(self, stage: StageView) -> Machine {
        self.allocate_all(stage.allocate_before).execute(
            stage.operation,
            stage.addr,
            stage.delete_after,
        ).free_all(stage.delete_after)
    }

    /// The stages in list order.
    pub open spec fn run(self, stages: Seq<StageView>) -> Machine
        decreases stages.len(),
    {
        if stages.len() == 0 {
            self
        } else {
            self.stage(stages[0]).run(stages.drop_first())
        }
    }

    /// The verdict of a run.
    pub open spec fn outcome(self) -> Result<(), ExecutorError> {
        match self.error {
            Some(e) => Err(e),
            None => Ok(()),
        }
    }
}


/// Once a check has failed, allocating changes nothing.
pub proof fn lemma_allocate_all_stuck(m: Machine, ops: Seq<LocatedOperation>)
    requires
        m.error.is_some(),
    ensures
        m.allocate_all(ops) == m,
    decreases ops.len(),
{
    if ops.len() > 0 {
        lemma_allocate_all_stuck(m, ops.drop_first());
    }
}

/// Once a check has failed, freeing changes nothing.
pub proof fn lemma_free_all_stuck(m: Machine, ops: Seq<LocatedOperation>)
    requires
        m.error.is_some(),
    ensures
        m.free_all(ops) == m,
    decreases ops.len(),
{
    if ops.len() > 0 {
        lemma_free_all_stuck(m, ops.drop_first());
    }
}

/// Once a check has failed, no later stage changes anything.
pub proof fn lemma_run_stuck(m: Machine, stages: Seq<StageView>)
    requires
        m.error.is_some(),
    ensures
        m.run(stages) == m,
    decreases stages.len(),
{
    if stages.len() > 0 {
        lemma_allocate_all_stuck(m, stages[0].allocate_before);
        lemma_free_all_stuck(m, stages[0].delete_after);
        lemma_run_stuck(m, stages.drop_first());
    }
}

/// No step changes the number of registers.
pub proof fn lemma_allocate_all_len(m: Machine, ops: Seq<LocatedOperation>)
    ensures
        m.allocate_all(ops).memory.len() == m.memory.len(),
    decreases ops.len(),
{
    if ops.len() > 0 {
        lemma_allocate_all_len(m.allocate(ops[0]), ops.drop_first());
    }
}

/// No step changes the number of registers.
pub proof fn lemma_free_all_len(m: Machine, ops: Seq<LocatedOperation>)
    ensures
        m.free_all(ops).memory.len() == m.memory.len(),
    decreases ops.len(),
{
    if ops.len() > 0 {
        lemma_free_all_len(m.free(ops[0]), ops.drop_first());
    }
}

/// No step changes the number of registers.
pub proof fn lemma_run_len(m: Machine, stages: Seq<StageView>)
    ensures
        m.run(stages).memory.len() == m.memory.len(),
    decreases stages.len(),
{
    if stages.len() > 0 {
        let s = stages[0];
        lemma_allocate_all_len(m, s.allocate_before);
        let m1 = m.allocate_all(s.allocate_before);
        let m2 = m1.execute(s.operation, s.addr, s.delete_after);
        lemma_free_all_len(m2, s.delete_after);
        lemma_run_len(m.stage(s), stages.drop_first());
    }
}

/// Allocating a list is allocating a first part and then the rest.
pub proof fn lemma_allocate_all_append(
    m: Machine,
    a: Seq<LocatedOperation>,
    b: Seq<LocatedOperation>,
)
    ensures
        m.allocate_all(a + b) == m.allocate_all(a).allocate_all(b),
    decreases a.len(),
{
    if a.len() == 0 {
        assert(a + b =~= b);
    } else {
        assert((a + b)[0] == a[0]);
        assert((a + b).drop_first() =~= a.drop_first() + b);
        lemma_allocate_all_append(m.allocate(a[0]), a.drop_first(), b);
    }
}

/// Running a stage list is running a first part and then the rest.
pub proof fn lemma_run_append(m: Machine, a: Seq<StageView>, b: Seq<StageView>)
    ensures
        m.run(a + b) == m.run(a).run(b),
    decreases a.len(),
{
    if a.len() == 0 {
        assert(a + b =~= b);
    } else {
        assert((a + b)[0] == a[0]);
        assert((a + b).drop_first() =~= a.drop_first() + b);
        lemma_run_append(m.stage(a[0]), a.drop_first(), b);
    }
}

/// An allocation at an address outside the register file fails the run
/// with a hit resource limit, provided the run gets as far as that
/// allocation: stage `i` asks for it as its allocation number `k`, and no
/// check before it has failed.
pub proof fn law_allocation_outside_register_file(
    registers: usize,
    stages: Seq<StageView>,
    i: int,
    k: int,
)
    requires
        0 <= i < stages.len(),
        0 <= k < stages[i].allocate_before.len(),
        stages[i].allocate_before[k].addr >= registers,
        Machine::initial(registers).run(stages.take(i)).allocate_all(
            stages[i].allocate_before.take(k),
        ).error.is_none(),
    ensures
        Machine::initial(registers).run(stages).outcome() == Err::<(), ExecutorError>(
            ExecutorError::MemoryHitResourceLimit,
        ),
{
    let start = Machine::initial(registers);
    let reached = start.run(stages.take(i));
    let stage = stages[i];
    let ops = stage.allocate_before;
    let ready = reached.allocate_all(ops.take(k));
    lemma_run_len(start, stages.take(i));
    lemma_allocate_all_len(reached, ops.take(k));
    assert(ready.memory.len() == registers);
    let failed = ready.allocate(ops[k]);
    assert(failed.error == Some(ExecutorError::MemoryHitResourceLimit));
    assert(ops =~= ops.take(k) + ops.skip(k));
    lemma_allocate_all_append(reached, ops.take(k), ops.skip(k));
    assert(ops.skip(k)[0] == ops[k]);
    lemma_allocate_all_stuck(failed, ops.skip(k).drop_first());
    assert(reached.allocate_all(ops) == failed);
    lemma_free_all_stuck(failed, stage.delete_after);
    assert(reached.stage(stage) == failed);
    assert(stages =~= stages.take(i) + stages.skip(i));
    lemma_run_append(start, stages.take(i), stages.skip(i));
    assert(stages.skip(i)[0] == stage);
    lemma_run_stuck(failed, stages.skip(i).drop_first());
}

/// The compute-side collaborator of the executor. The executor makes its
/// requests in order and waits for each to return.
pub trait Backend {
    /// The requests received so far.
    spec fn calls(&self) -> Seq<CallView>;

    /// Prepares the register `op.addr` to receive the result of `op.id`.
    fn load(&mut self, op: LocatedOperation)
        ensures
            final(self).calls() == old(self).calls().push(CallView::Load(op)),
    ;

    /// Releases the register `op.addr`.
    fn unload(&mut self, op: LocatedOperation)
        ensures
            final(self).calls() == old(self).calls().push(CallView::Unload(op)),
    ;

    /// Produces the result of `op` at its register from `deps`, given in
    /// operand order. The registers in `may_consume` may be overwritten; all
    /// others are read-only.
    fn compute(
        &mut self,
        op: LocatedOperation,
        deps: &Vec<LocatedOperation>,
        may_consume: &Vec<LocatedOperation>,
    )
        ensures
            final(self).calls() == old(self).calls().push(
                CallView::Compute(op, deps@, may_consume@),
            ),
    ;
}

/// A backend that does nothing.
pub struct NullBackend {
    pub history: Ghost<Seq<CallView>>,
}

impl NullBackend {
    pub fn new() -> (r: Self)
        ensures
            r.calls() == Seq::<CallView>::empty(),
    {
        NullBackend { history: Ghost(Seq::empty()) }
    }
}

impl Backend for NullBackend {
    open spec fn calls(&self) -> Seq<CallView> {
        self.history@
    }

    fn load(&mut self, op: LocatedOperation) {
        self.history = Ghost(self.history@.push(CallView::Load(op)));
    }

    fn unload(&mut self, op: LocatedOperation) {
        self.history = Ghost(self.history@.push(CallView::Unload(op)));
    }

    fn compute(
        &mut self,
        op: LocatedOperation,
        deps: &Vec<LocatedOperation>,
        may_consume: &Vec<LocatedOperation>,
    ) {
        self.history = Ghost(self.history@.push(CallView::Compute(op, deps@, may_consume@)));
    }
}

/// A request made to the backend, as recorded.
#[derive(Debug, PartialEq, Eq, Clone)]
pub enum BackendCall {
    Load(LocatedOperation),
    Compute(LocatedOperation, Vec<LocatedOperation>, Vec<LocatedOperation>),
    Unload(LocatedOperation),
}

impl View for BackendCall {
    type V = CallView;

    open spec fn view(&self) -> CallView {
        match self {
            BackendCall::Load(op) => CallView::Load(*op),
            BackendCall::Compute(op, deps, may_consume) => CallView::Compute(
                *op,
                deps@,
                may_consume@,
            ),
            BackendCall::Unload(op) => CallView::Unload(*op),
        }
    }
}

/// A backend that records the requests it receives and does nothing else.
pub struct RecordingBackend {
    pub log: Vec<BackendCall>,
}

impl RecordingBackend {
    pub fn new() -> (r: Self)
        ensures
            r.calls() == Seq::<CallView>::empty(),
    {
        let r = RecordingBackend { log: Vec::new() };
        assert(r.calls() =~= Seq::<CallView>::empty());
        r
    }
}

impl Backend for RecordingBackend {
    open spec fn calls(&self) -> Seq<CallView> {
        self.log@.map_values(|c: BackendCall| c@)
    }

    fn load(&mut self, op: LocatedOperation) {
        self.log.push(BackendCall::Load(op));
        assert(self.calls() =~= old(self).calls().push(CallView::Load(op)));
    }

    fn unload(&mut self, op: LocatedOperation) {
        self.log.push(BackendCall::Unload(op));
        assert(self.calls() =~= old(self).calls().push(CallView::Unload(op)));
    }

    fn compute(
        &mut self,
        op: LocatedOperation,
        deps: &Vec<LocatedOperation>,
        may_consume: &Vec<LocatedOperation>,
    ) {
        self.log.push(BackendCall::Compute(op, deps.clone(), may_consume.clone()));
        assert(self.calls() =~= old(self).calls().push(
            CallView::Compute(op, deps@, may_consume@),
        ));
    }
}

/// The executor's registers: the occupants with their executed flags, and the
/// index from operation to register.
struct Registers {
    memory: Vec<(Option<u64>, bool)>,
    memory_map: HashMap<u64, usize>,
}

impl Registers {
    spec fn models(&self, m: Machine) -> bool {
        &&& self.memory@ == m.memory
        &&& self.memory_map@ == m.memory_map
        &&& m.error.is_none()
        &&& m.wf()
    }

    fn new(register_count: usize) -> (r: Self)
        ensures
            r.models(Machine::initial(register_count)),
    {
        let mut memory: Vec<(Option<u64>, bool)> = Vec::new();
        let mut i: usize = 0;
        while i < register_count
            invariant
                i <= register_count,
                memory@.len() == i,
                forall|k: int| 0 <= k < i ==> memory@[k] == (None::<u64>, false),
            decreases register_count - i,
        {
            memory.push((None, false));
            i = i + 1;
        }
        assert(memory@ =~= Machine::initial(register_count).memory);
        Registers { memory, memory_map: HashMap::new() }
    }
}


fn allocate_phase<B: Backend>(
    regs: &mut Registers,
    backend: &mut B,
    ops: &Vec<LocatedOperation>,
    Ghost(m): Ghost<Machine>,
    Ghost(prefix): Ghost<Seq<CallView>>,
) -> (r: Result<(), ExecutorError>)
    requires
        old(regs).models(m),
        old(backend).calls() == prefix + m.calls,
    ensures
        r == m.allocate_all(ops@).outcome(),
        r.is_ok() ==> final(regs).models(m.allocate_all(ops@)),
        final(backend).calls() == prefix + m.allocate_all(ops@).calls,
{
    let ghost mut cur = m;
    let mut i: usize = 0;
    assert(ops@.skip(0) =~= ops@);
    while i < ops.len()
        invariant
            i <= ops.len(),
            regs.models(cur),
            backend.calls() == prefix + cur.calls,
            m.allocate_all(ops@) == cur.allocate_all(ops@.skip(i as int)),
        decreases ops.len() - i,
    {
        let op = ops[i];
        proof {
            assert(ops@.skip(i as int).drop_first() =~= ops@.skip(i + 1));
            assert(ops@.skip(i as int)[0] == op);
            if cur.allocate(op).error.is_some() {
                lemma_allocate_all_stuck(cur.allocate(op), ops@.skip(i + 1));
            }
        }
        if op.addr >= regs.memory.len() {
            return Err(ExecutorError::MemoryHitResourceLimit);
        }
        let slot = regs.memory[op.addr];
        if slot.0.is_some() || slot.1 {
            return Err(ExecutorError::MemoryOverwrite);
        }
        if regs.memory_map.contains_key(&op.id) {
            return Err(ExecutorError::OperationReallocated);
        }
        regs.memory.set(op.addr, (Some(op.id), false));
        regs.memory_map.insert(op.id, op.addr);
        backend.load(op);
        proof {
            assert(prefix + cur.calls.push(CallView::Load(op)) =~= (prefix + cur.calls).push(
                CallView::Load(op),
            ));
            cur = cur.allocate(op);
        }
        i = i + 1;
    }
    Ok(())
}

#[verifier::loop_isolation(false)]
fn execute_phase<B: Backend>(
    regs: &mut Registers,
    backend: &mut B,
    stage: &OperationStage,
    Ghost(m): Ghost<Machine>,
    Ghost(prefix): Ghost<Seq<CallView>>,
) -> (r: Result<(), ExecutorError>)
    requires
        old(regs).models(m),
        old(backend).calls() == prefix + m.calls,
    ensures
        r == m.execute(stage@.operation, stage@.addr, stage@.delete_after).outcome(),
        r.is_ok() ==> final(regs).models(
            m.execute(stage@.operation, stage@.addr, stage@.delete_after),
        ),
        final(backend).calls() == prefix + m.execute(
            stage@.operation,
            stage@.addr,
            stage@.delete_after,
        ).calls,
{
    let deps = &stage.operation.0.depends_on;
    let id = stage.operation.0.id;
    let addr = stage.operation.1;
    let mut located: Vec<LocatedOperation> = Vec::new();
    let mut i: usize = 0;
    assert(deps@.skip(0) =~= deps@);
    while i < deps.len()
        invariant
            i <= deps.len(),
            regs.models(m),
            backend.calls() == prefix + m.calls,
            m.first_dependency_error(deps@) == m.first_dependency_error(deps@.skip(i as int)),
            located@.len() == i,
            forall|k: int|
                0 <= k < i ==> located@[k] == (LocatedOperation {
                    id: deps@[k],
                    addr: m.memory_map[deps@[k]],
                }),
        decreases deps.len() - i,
    {
        let dep = deps[i];
        proof {
            assert(deps@.skip(i as int).drop_first() =~= deps@.skip(i + 1));
            assert(deps@.skip(i as int)[0] == dep);
            assert(m.first_dependency_error(deps@) == if m.dependency_error(dep).is_some() {
                m.dependency_error(dep)
            } else {
                m.first_dependency_error(deps@.skip(i + 1))
            });
        }
        match regs.memory_map.get(&dep) {
            None => {
                return Err(ExecutorError::DependencyNotAllocated);
            },
            Some(dep_addr) => {
                let slot = regs.memory[*dep_addr];
                match slot.0 {
                    Some(occupant) => {
                        if occupant != dep {
                            return Err(ExecutorError::MemoryMapErrorInternal);
                        }
                    },
                    None => {
                        return Err(ExecutorError::MemoryMapErrorInternal);
                    },
                }
                if !slot.1 {
                    return Err(ExecutorError::DependencyNotExecuted);
                }
                located.push(LocatedOperation { id: dep, addr: *dep_addr });
            },
        }
        i = i + 1;
    }
    assert(located@ =~= m.locate(deps@));
    let own = match regs.memory_map.get(&id) {
        None => {
            return Err(ExecutorError::OperationNotAllocated);
        },
        Some(a) => *a,
    };
    if addr >= regs.memory.len() {
        return Err(ExecutorError::MemoryHitResourceLimit);
    }
    if own != addr {
        return Err(ExecutorError::MemoryMapError);
    }
    let slot = regs.memory[addr];
    match slot.0 {
        Some(occupant) => {
            if occupant != id {
                return Err(ExecutorError::MemoryMapErrorInternal);
            }
        },
        None => {
            return Err(ExecutorError::MemoryMapErrorInternal);
        },
    }
    if slot.1 {
        return Err(ExecutorError::OperationRunTwice);
    }
    regs.memory.set(addr, (Some(id), true));
    let op = LocatedOperation { id, addr };
    backend.compute(op, &located, &stage.delete_after);
    proof {
        let call = CallView::Compute(op, located@, stage.delete_after@);
        assert(prefix + m.calls.push(call) =~= (prefix + m.calls).push(call));
    }
    Ok(())
}

fn free_phase<B: Backend>(
    regs: &mut Registers,
    backend: &mut B,
    ops: &Vec<LocatedOperation>,
    Ghost(m): Ghost<Machine>,
    Ghost(prefix): Ghost<Seq<CallView>>,
) -> (r: Result<(), ExecutorError>)
    requires
        old(regs).models(m),
        old(backend).calls() == prefix + m.calls,
    ensures
        r == m.free_all(ops@).outcome(),
        r.is_ok() ==> final(regs).models(m.free_all(ops@)),
        final(backend).calls() == prefix + m.free_all(ops@).calls,
{
    let ghost mut cur = m;
    let mut i: usize = 0;
    assert(ops@.skip(0) =~= ops@);
    while i < ops.len()
        invariant
            i <= ops.len(),
            regs.models(cur),
            backend.calls() == prefix + cur.calls,
            m.free_all(ops@) == cur.free_all(ops@.skip(i as int)),
        decreases ops.len() - i,
    {
        let op = ops[i];
        proof {
            assert(ops@.skip(i as int).drop_first() =~= ops@.skip(i + 1));
            assert(ops@.skip(i as int)[0] == op);
            if cur.free(op).error.is_some() {
                lemma_free_all_stuck(cur.free(op), ops@.skip(i + 1));
            }
        }
        if !regs.memory_map.contains_key(&op.id) {
            return Err(ExecutorError::MemoryFreeingUnallocated);
        }
        if op.addr >= regs.memory.len() {
            return Err(ExecutorError::MemoryHitResourceLimit);
        }
        let slot = regs.memory[op.addr];
        match slot.0 {
            None => {
                return Err(ExecutorError::MemoryFreeingEmpty);
            },
            Some(occupant) => {
                if occupant != op.id {
                    return Err(ExecutorError::MemoryMapErrorInternal);
                }
            },
        }
        if !slot.1 {
            return Err(ExecutorError::MemoryFreeingUnexecuted);
        }
        regs.memory.set(op.addr, (None, false));
        backend.unload(op);
        proof {
            assert(prefix + cur.calls.push(CallView::Unload(op)) =~= (prefix + cur.calls).push(
                CallView::Unload(op),
            ));
            cur = cur.free(op);
        }
        i = i + 1;
    }
    Ok(())
}

/// Runs a stage list on `register_count` registers against a backend and
/// hands out the registers as the last stage left them.
///
/// The verdict is that of the register machine started with every register
/// empty, and the backend receives exactly the machine's requests, in order,
/// up to the first failing check.
#[verifier::loop_isolation(false)]
pub fn execute_stages<B: Backend>(
    stages: &Vec<OperationStage>,
    register_count: usize,
    backend: &mut B,
) -> (result: Result<Vec<(Option<u64>, bool)>, ExecutorError>)
    ensures
        match Machine::initial(register_count).run(stage_views(stages@)).error {
            Some(e) => result == Err::<Vec<(Option<u64>, bool)>, ExecutorError>(e),
            None => result.is_ok() && result.unwrap()@ == Machine::initial(register_count).run(
                stage_views(stages@),
            ).memory,
        },
        final(backend).calls() == old(backend).calls() + Machine::initial(register_count).run(
            stage_views(stages@),
        ).calls,
{
    let ghost prefix = backend.calls();
    let ghost views = stage_views(stages@);
    let ghost start = Machine::initial(register_count);
    let ghost mut cur = start;
    let mut regs = Registers::new(register_count);
    assert(prefix + cur.calls =~= prefix);
    assert(views.skip(0) =~= views);
    let mut i: usize = 0;
    while i < stages.len()
        invariant
            i <= stages.len(),
            views == stage_views(stages@),
            regs.models(cur),
            backend.calls() == prefix + cur.calls,
            start.run(views) == cur.run(views.skip(i as int)),
        decreases stages.len() - i,
    {
        let stage = &stages[i];
        proof {
            assert(views.skip(i as int).drop_first() =~= views.skip(i + 1));
            assert(views.skip(i as int)[0] == stage@);
        }
        let ghost m1 = cur.allocate_all(stage@.allocate_before);
        let ghost m2 = m1.execute(stage@.operation, stage@.addr, stage@.delete_after);
        let ghost m3 = m2.free_all(stage@.delete_after);
        proof {
            if m1.error.is_some() {
                lemma_free_all_stuck(m2, stage@.delete_after);
            }
            if m2.error.is_some() {
                lemma_free_all_stuck(m2, stage@.delete_after);
            }
            if m3.error.is_some() {
                lemma_run_stuck(m3, views.skip(i + 1));
            }
            assert(cur.run(views.skip(i as int)) == m3.run(views.skip(i + 1)));
        }
        match allocate_phase(&mut regs, backend, &stage.allocate_before, Ghost(cur), Ghost(prefix)) {
            Err(e) => {
                return Err(e);
            },
            Ok(()) => {},
        }
        match execute_phase(&mut regs, backend, stage, Ghost(m1), Ghost(prefix)) {
            Err(e) => {
                return Err(e);
            },
            Ok(()) => {},
        }
        match free_phase(&mut regs, backend, &stage.delete_after, Ghost(m2), Ghost(prefix)) {
            Err(e) => {
                return Err(e);
            },
            Ok(()) => {},
        }
        proof {
            cur = m3;
        }
        i = i + 1;
    }
    Ok(regs.memory)
}

/// Runs a stage list on `register_count` registers against a backend.
///
/// The verdict is that of the register machine started with every register
/// empty, and the backend receives exactly the machine's requests, in order,
/// up to the first failing check.
pub fn default_executor<B: Backend>(
    stages: Vec<OperationStage>,
    register_count: usize,
    backend: &mut B,
) -> (result: Result<(), ExecutorError>)
    ensures
        result == Machine::initial(register_count).run(stage_views(stages@)).outcome(),
        final(backend).calls() == old(backend).calls() + Machine::initial(register_count).run(
            stage_views(stages@),
        ).calls,
{
    match execute_stages(&stages, register_count, backend) {
        Ok(_) => Ok(()),
        Err(e) => Err(e),
    }
}

/// Checks a stage list on `register_count` registers without doing any
/// work: the verdict of the register machine.
pub fn debug_executor(stages: Vec<OperationStage>, register_count: usize) -> (result: Result<
    (),
    ExecutorError,
>)
    ensures
        result == Machine::initial(register_count).run(stage_views(stages@)).outcome(),
{
    let mut backend = NullBackend::new();
    default_executor(stages, register_count, &mut backend)
}

/// The text of one register: `| id mark ` for an occupied one, where the
/// mark is a ticked box once the occupant has been executed and an empty box
/// before, and a blank cell of the same shape for an empty one.
pub open spec fn cell_text(cell: (Option<u64>, bool)) -> Seq<char> {
    match cell.0 {
        Some(id) => seq!['|', ' '] + decimal(id as nat) + seq![
            ' ',
            if cell.1 {
                '\u{2611}'
            } else {
                '\u{2610}'
            },
            ' ',
        ],
        None => seq!['|', ' ', ' ', ' ', ' ', ' ', ' ', ' '],
    }
}

/// The text of a register file: its cells in address order, closed by `|`.
pub open spec fn memory_text(memory: Seq<(Option<u64>, bool)>) -> Seq<char>
    decreases memory.len(),
{
    if memory.len() == 0 {
        seq!['|']
    } else {
        cell_text(memory[0]) + memory_text(memory.drop_first())
    }
}

/// The text of the cells alone, without the closing `|`.
pub open spec fn cells_text(memory: Seq<(Option<u64>, bool)>) -> Seq<char>
    decreases memory.len(),
{
    if memory.len() == 0 {
        Seq::empty()
    } else {
        cells_text(memory.drop_last()) + cell_text(memory.last())
    }
}

/// The text of a register file is the text of its cells followed by `|`.
pub proof fn lemma_memory_text(memory: Seq<(Option<u64>, bool)>)
    ensures
        memory_text(memory) == cells_text(memory) + seq!['|'],
    decreases memory.len(),
{
    if memory.len() == 0 {
        assert(cells_text(memory) + seq!['|'] =~= seq!['|']);
    } else {
        let rest = memory.drop_first();
        lemma_memory_text(rest);
        if rest.len() == 0 {
            assert(memory.drop_last() =~= rest);
            assert(cells_text(memory) =~= cell_text(memory[0]));
            assert(memory_text(memory) =~= cell_text(memory[0]) + seq!['|']);
        } else {
            lemma_memory_text(memory.drop_last());
            lemma_memory_text(rest.drop_last());
            assert(memory.drop_last().drop_first() =~= rest.drop_last());
            assert(memory.drop_last()[0] == memory[0]);
            assert(rest.last() == memory.last());
            // memory_text(memory) = cell(0) + memory_text(rest)
            //                     = cell(0) + cells(rest.drop_last()) + cell(last) + "|"
            assert(memory_text(memory.drop_last()) == cell_text(memory[0]) + memory_text(
                rest.drop_last(),
            ));
            let a = cell_text(memory[0]);
            let b = cells_text(rest.drop_last());
            let c = cell_text(memory.last());
            let bar = seq!['|'];
            assert(cells_text(memory.drop_last()) + bar == a + (b + bar));
            assert(cells_text(memory.drop_last()) =~= a + b) by {
                let l = cells_text(memory.drop_last());
                assert((l + bar).drop_last() =~= l);
                assert((a + (b + bar)).drop_last() =~= a + b);
            }
            assert(memory_text(memory) =~= (a + b) + c + bar);
        }
    }
}

/// Renders a register file as one line of text.
pub fn fmt_memory(memory: &Vec<(Option<u64>, bool)>) -> (r: String)
    ensures
        r@ == memory_text(memory@),
{
    let mut out = String::new();
    let mut i: usize = 0;
    proof {
        reveal_strlit("| ");
        reveal_strlit(" \u{2611} ");
        reveal_strlit(" \u{2610} ");
        reveal_strlit("|       ");
        reveal_strlit("|");
        assert(memory@.take(0) =~= Seq::empty());
    }
    while i < memory.len()
        invariant
            i <= memory.len(),
            out@ == cells_text(memory@.take(i as int)),
        decreases memory.len() - i,
    {
        let cell = memory[i];
        let ghost before = out@;
        match cell.0 {
            Some(id) => {
                out.append("| ");
                let digits = decimal_string(id);
                out.append(digits.as_str());
                if cell.1 {
                    out.append(" \u{2611} ");
                } else {
                    out.append(" \u{2610} ");
                }
            },
            None => {
                out.append("|       ");
            },
        }
        proof {
            reveal_strlit("| ");
            reveal_strlit(" \u{2611} ");
            reveal_strlit(" \u{2610} ");
            reveal_strlit("|       ");
            assert(memory@.take(i + 1).drop_last() =~= memory@.take(i as int));
            assert(memory@.take(i + 1).last() == cell);
            assert(out@ =~= before + cell_text(cell));
        }
        i = i + 1;
    }
    out.append("|");
    proof {
        reveal_strlit("|");
        assert(memory@.take(memory@.len() as int) =~= memory@);
        lemma_memory_text(memory@);
        assert(out@ =~= cells_text(memory@) + seq!['|']);
    }
    out
}

/// The register file as text after each phase of a stage that passed its
/// checks: after allocating, after executing and after freeing. The lines
/// end where the first check fails.
pub open spec fn stage_trace(m: Machine, stage: StageView) -> Seq<Seq<char>> {
    let allocated = m.allocate_all(stage.allocate_before);
    let executed = allocated.execute(stage.operation, stage.addr, stage.delete_after);
    let freed = executed.free_all(stage.delete_after);
    if allocated.error.is_some() {
        Seq::empty()
    } else if executed.error.is_some() {
        seq![memory_text(allocated.memory)]
    } else if freed.error.is_some() {
        seq![memory_text(allocated.memory), memory_text(executed.memory)]
    } else {
        seq![
            memory_text(allocated.memory),
            memory_text(executed.memory),
            memory_text(freed.memory),
        ]
    }
}

/// The lines of the stages in order, up to the first failing check.
pub open spec fn run_trace(m: Machine, stages: Seq<StageView>) -> Seq<Seq<char>>
    decreases stages.len(),
{
    if stages.len() == 0 || m.error.is_some() {
        Seq::empty()
    } else {
        stage_trace(m, stages[0]) + run_trace(m.stage(stages[0]), stages.drop_first())
    }
}

/// The trace of a run on `register_count` registers: the empty register
/// file, then the register file after each phase of each stage, up to the
/// first failing check.
pub open spec fn trace(stages: Seq<StageView>, register_count: usize) -> Seq<Seq<char>> {
    seq![memory_text(Machine::initial(register_count).memory)] + run_trace(
        Machine::initial(register_count),
        stages,
    )
}

/// Checks a stage list on `register_count` registers and hands out, with
/// the verdict, the register file as text before the first stage and after
/// each phase, up to the first failing check.
#[verifier::loop_isolation(false)]
pub fn trace_stages(stages: &Vec<OperationStage>, register_count: usize) -> (r: (
    Result<(), ExecutorError>,
    Vec<String>,
))
    ensures
        r.0 == Machine::initial(register_count).run(stage_views(stages@)).outcome(),
        texts(r.1@) == trace(stage_views(stages@), register_count),
{
    let mut backend = NullBackend::new();
    let ghost prefix = backend.calls();
    let ghost views = stage_views(stages@);
    let ghost start = Machine::initial(register_count);
    let ghost mut cur = start;
    let mut regs = Registers::new(register_count);
    let mut lines: Vec<String> = Vec::new();
    lines.push(fmt_memory(&regs.memory));
    assert(prefix + cur.calls =~= prefix);
    assert(views.skip(0) =~= views);
    assert(texts(lines@) =~= seq![memory_text(start.memory)]);
    let mut i: usize = 0;
    while i < stages.len()
        invariant
            i <= stages.len(),
            views == stage_views(stages@),
            regs.models(cur),
            backend.calls() == prefix + cur.calls,
            start.run(views) == cur.run(views.skip(i as int)),
            trace(views, register_count) == texts(lines@) + run_trace(cur, views.skip(i as int)),
        decreases stages.len() - i,
    {
        let stage = &stages[i];
        proof {
            assert(views.skip(i as int).drop_first() =~= views.skip(i + 1));
            assert(views.skip(i as int)[0] == stage@);
        }
        let ghost m1 = cur.allocate_all(stage@.allocate_before);
        let ghost m2 = m1.execute(stage@.operation, stage@.addr, stage@.delete_after);
        let ghost m3 = m2.free_all(stage@.delete_after);
        let ghost so_far = texts(lines@);
        proof {
            if m1.error.is_some() {
                lemma_free_all_stuck(m2, stage@.delete_after);
            }
            if m2.error.is_some() {
                lemma_free_all_stuck(m2, stage@.delete_after);
            }
            if m3.error.is_some() {
                lemma_run_stuck(m3, views.skip(i + 1));
            }
            assert(cur.run(views.skip(i as int)) == m3.run(views.skip(i + 1)));
            assert(run_trace(cur, views.skip(i as int)) == stage_trace(cur, stage@) + run_trace(
                m3,
                views.skip(i + 1),
            ));
        }
        match allocate_phase(&mut regs, &mut backend, &stage.allocate_before, Ghost(cur), Ghost(prefix)) {
            Err(e) => {
                assert(so_far + Seq::<Seq<char>>::empty() =~= so_far);
                return (Err(e), lines);
            },
            Ok(()) => {},
        }
        lines.push(fmt_memory(&regs.memory));
        assert(texts(lines@) =~= so_far + seq![memory_text(m1.memory)]);
        match execute_phase(&mut regs, &mut backend, stage, Ghost(m1), Ghost(prefix)) {
            Err(e) => {
                assert(seq![memory_text(m1.memory)] + Seq::<Seq<char>>::empty() =~= seq![
                    memory_text(m1.memory),
                ]);
                return (Err(e), lines);
            },
            Ok(()) => {},
        }
        lines.push(fmt_memory(&regs.memory));
        assert(texts(lines@) =~= so_far + seq![memory_text(m1.memory), memory_text(m2.memory)]);
        match free_phase(&mut regs, &mut backend, &stage.delete_after, Ghost(m2), Ghost(prefix)) {
            Err(e) => {
                assert(seq![memory_text(m1.memory), memory_text(m2.memory)] + Seq::<
                    Seq<char>,
                >::empty() =~= seq![memory_text(m1.memory), memory_text(m2.memory)]);
                return (Err(e), lines);
            },
            Ok(()) => {},
        }
        lines.push(fmt_memory(&regs.memory));
        proof {
            assert(texts(lines@) =~= so_far + stage_trace(cur, stage@));
            assert(texts(lines@) + run_trace(m3, views.skip(i + 1)) =~= so_far + (stage_trace(
                cur,
                stage@,
            ) + run_trace(m3, views.skip(i + 1))));
            cur = m3;
        }
        i = i + 1;
    }
    assert(texts(lines@) + Seq::<Seq<char>>::empty() =~= texts(lines@));
    (Ok(()), lines)
}

} // verus!

//! The scheduler: lowers a dependency graph, a list of output nodes and a
//! register budget into an ordered list of execution stages.
//!
//! The schedule is built backwards from the outputs. At every step the
//! scheduler knows which registers are live going into the stage it built
//! last, picks one live node that no unscheduled node still needs, and makes
//! it the next-earlier stage.

use crate::depgraph::DepGraph;
use crate::executor::LocatedOperation;
use crate::executor::Operation;
use crate::executor::OperationStage;
use crate::executor::OperationView;
use crate::executor::StageView;
use crate::executor::stage_views;
use crate::sequences::vec_contains;
use crate::soundness::law_reported_errors;
use crate::soundness::law_schedule_is_valid;
use crate::soundness::reported;
use crate::soundness::valid_schedule;
use std::collections::HashSet;
use vstd::prelude::*;

verus! {

broadcast use vstd::std_specs::hash::group_hash_axioms;

/// The ways in which scheduling can fail.
#[derive(Debug, PartialEq, Eq)]
pub enum OrderCalculationError {
    /// A live node, or a dependency of a scheduled node, is not in the graph.
    UnknownDependency,
    /// The outputs, or a dependency, found no free register.
    ResourceLimitExceeded,
    /// An inconsistency inside the scheduler. The scheduler never reports it.
    InternalError(String),
    /// Scheduling ended although operations were left. The scheduler never
    /// reports it.
    UnexecutedOperations,
    /// No progress was possible within the iteration bound: every live node
    /// is still needed by an unscheduled one, as happens on a cycle.
    IterationLimitReached,
}

/// The scheduler's state between two steps.
///
/// `memory` is the register occupancy going into the stage built last,
/// `last` the node which that stage allocates, `remaining` the nodes of the
/// graph not scheduled yet, and `stages` the stages built so far in execution
/// order.
pub struct SchedState {
    pub memory: Seq<Option<u64>>,
    pub last: Option<u64>,
    pub remaining: Set<u64>,
    pub stages: Seq<StageView>,
}

/// What one step of the scheduler yields.
pub enum Step {
    /// Nothing is live: the schedule is complete.
    Done,
    /// Live nodes exist, but each is needed by an unscheduled node.
    Stalled,
    /// The step failed.
    Failed(OrderCalculationError),
    /// A stage was built.
    Next(SchedState),
}

/// The occupancy with every register that holds `last` emptied.
pub open spec fn release(memory: Seq<Option<u64>>, last: Option<u64>) -> Seq<Option<u64>> {
    Seq::new(
        memory.len(),
        |i: int|
            if last.is_some() && memory[i] == last {
                None
            } else {
                memory[i]
            },
    )
}

/// Some unscheduled node of the graph depends on `d`.
pub open spec fn blocked(g: Map<u64, Seq<u64>>, remaining: Set<u64>, d: u64) -> bool {
    exists|z: u64| #[trigger] remaining.contains(z) && g.contains_key(z) && g[z].contains(d)
}

/// Register `i` holds a node that no unscheduled node depends on.
pub open spec fn is_candidate(
    g: Map<u64, Seq<u64>>,
    remaining: Set<u64>,
    memory: Seq<Option<u64>>,
    i: int,
) -> bool {
    0 <= i < memory.len() && memory[i].is_some() && !blocked(g, remaining, memory[i].unwrap())
}

/// Some register holds a node that the graph lacks.
pub open spec fn unknown_live(g: Map<u64, Seq<u64>>, memory: Seq<Option<u64>>) -> bool {
    exists|i: int| 0 <= i < memory.len() && (#[trigger] memory[i]).is_some() && !g.contains_key(
        memory[i].unwrap(),
    )
}

/// Some register is occupied.
pub open spec fn any_live(memory: Seq<Option<u64>>) -> bool {
    exists|i: int| 0 <= i < memory.len() && (#[trigger] memory[i]).is_some()
}

/// The number of dependencies of the node in register `i`.
pub open spec fn dep_count(g: Map<u64, Seq<u64>>, memory: Seq<Option<u64>>, i: int) -> nat {
    g[memory[i].unwrap()].len()
}

/// The candidate among the registers below `upto` with the fewest
/// dependencies; of several such, the one at the lowest address.
pub open spec fn best_candidate(
    g: Map<u64, Seq<u64>>,
    remaining: Set<u64>,
    memory: Seq<Option<u64>>,
    upto: int,
) -> Option<int>
    decreases upto,
{
    if upto <= 0 {
        None
    } else {
        let before = best_candidate(g, remaining, memory, upto - 1);
        if is_candidate(g, remaining, memory, upto - 1) && (before.is_none() || dep_count(
            g,
            memory,
            upto - 1,
        ) < dep_count(g, memory, before.unwrap())) {
            Some(upto - 1)
        } else {
            before
        }
    }
}

/// The lowest empty register, or the number of registers if all are occupied.
pub open spec fn first_free(memory: Seq<Option<u64>>) -> int
    decreases memory.len(),
{
    if memory.len() == 0 {
        0
    } else if memory[0].is_none() {
        0
    } else {
        1 + first_free(memory.drop_first())
    }
}

/// Brings the dependencies `deps` into the registers, in operand order. One
/// that is already live stays where it is; any other takes the lowest empty
/// register and is recorded in `placed`.
pub open spec fn place_deps(
    g: Map<u64, Seq<u64>>,
    memory: Seq<Option<u64>>,
    deps: Seq<u64>,
    placed: Seq<LocatedOperation>,
) -> Result<(Seq<Option<u64>>, Seq<LocatedOperation>), OrderCalculationError>
    decreases deps.len(),
{
    if deps.len() == 0 {
        Ok((memory, placed))
    } else if !g.contains_key(deps[0]) {
        Err(OrderCalculationError::UnknownDependency)
    } else if memory.contains(Some(deps[0])) {
        place_deps(g, memory, deps.drop_first(), placed)
    } else if first_free(memory) >= memory.len() {
        Err(OrderCalculationError::ResourceLimitExceeded)
    } else {
        place_deps(
            g,
            memory.update(first_free(memory), Some(deps[0])),
            deps.drop_first(),
            placed.push(LocatedOperation { id: deps[0], addr: first_free(memory) as usize }),
        )
    }
}

/// The stage that runs node `x` at register `addr` and afterwards releases
/// the registers in `placed`.
pub open spec fn make_stage(
    g: Map<u64, Seq<u64>>,
    x: u64,
    addr: int,
    placed: Seq<LocatedOperation>,
) -> StageView {
    StageView {
        operation: OperationView { id: x, depends_on: g[x] },
        addr: addr as usize,
        allocate_before: seq![LocatedOperation { id: x, addr: addr as usize }],
        delete_after: placed,
    }
}

/// One step of the scheduler.
pub open spec fn step(g: Map<u64, Seq<u64>>, st: SchedState) -> Step {
    let memory = release(st.memory, st.last);
    if unknown_live(g, memory) {
        Step::Failed(OrderCalculationError::UnknownDependency)
    } else {
        match best_candidate(g, st.remaining, memory, memory.len() as int) {
            None => if any_live(memory) {
                Step::Stalled
            } else {
                Step::Done
            },
            Some(c) => {
                let x = memory[c].unwrap();
                match place_deps(g, memory, g[x], Seq::empty()) {
                    Err(e) => Step::Failed(e),
                    Ok((filled, placed)) => Step::Next(
                        SchedState {
                            memory: filled,
                            last: Some(x),
                            remaining: st.remaining.remove(x),
                            stages: seq![make_stage(g, x, c, placed)] + st.stages,
                        },
                    ),
                }
            },
        }
    }
}

/// At most `fuel` steps from `st`. A stalled step leaves the state as it
/// is, so every later step would stall too: the run ends as it does when
/// the steps are used up, with the reached iteration limit.
pub open spec fn run(g: Map<u64, Seq<u64>>, st: SchedState, fuel: nat) -> Result<
    Seq<StageView>,
    OrderCalculationError,
>
    decreases fuel,
{
    if fuel == 0 {
        Err(OrderCalculationError::IterationLimitReached)
    } else {
        match step(g, st) {
            Step::Done => Ok(st.stages),
            Step::Stalled => Err(OrderCalculationError::IterationLimitReached),
            Step::Failed(e) => Err(e),
            Step::Next(next) => run(g, next, (fuel - 1) as nat),
        }
    }
}

/// The state before the first step: the outputs occupy the lowest registers,
/// one each in list order, and nothing is scheduled.
pub open spec fn initial_state(g: Map<u64, Seq<u64>>, outs: Seq<u64>, registers: nat) -> SchedState {
    SchedState {
        memory: Seq::new(
            registers,
            |i: int|
                if i < outs.len() {
                    Some(outs[i])
                } else {
                    None
                },
        ),
        last: None,
        remaining: g.dom(),
        stages: Seq::empty(),
    }
}

/// The schedule of graph `g` for the outputs `outs` on `registers`
/// registers: the outputs must fit, and the steps are bounded by the number
/// of nodes plus one.
pub open spec fn schedule(g: Map<u64, Seq<u64>>, outs: Seq<u64>, registers: nat) -> Result<
    Seq<StageView>,
    OrderCalculationError,
> {
    if outs.len() > registers {
        Err(OrderCalculationError::ResourceLimitExceeded)
    } else {
        run(g, initial_state(g, outs, registers), g.dom().len() + 1)
    }
}

/// `first_free` finds an empty register exactly when there is one, and every
/// register below the one it gives is occupied.
pub proof fn lemma_first_free(memory: Seq<Option<u64>>)
    ensures
        0 <= first_free(memory) <= memory.len(),
        first_free(memory) < memory.len() ==> memory[first_free(memory)].is_none(),
        forall|i: int| 0 <= i < first_free(memory) ==> (#[trigger] memory[i]).is_some(),
    decreases memory.len(),
{
    if memory.len() == 0 {
    } else if memory[0].is_none() {
    } else {
        let rest = memory.drop_first();
        lemma_first_free(rest);
        assert forall|i: int| 0 <= i < first_free(memory) implies (#[trigger] memory[i]).is_some() by {
            if i > 0 {
                assert(rest[i - 1].is_some());
            }
        }
    }
}

fn release_last(memory: &mut Vec<Option<u64>>, last: Option<u64>)
    ensures
        final(memory)@ == release(old(memory)@, last),
{
    match last {
        None => {
            assert(memory@ =~= release(memory@, last));
        },
        Some(x) => {
            let mut i: usize = 0;
            while i < memory.len()
                invariant
                    i <= memory.len(),
                    last == Some(x),
                    memory@.len() == old(memory)@.len(),
                    forall|k: int| 0 <= k < i ==> memory@[k] == release(old(memory)@, last)[k],
                    forall|k: int| i <= k < memory@.len() ==> memory@[k] == old(memory)@[k],
                decreases memory.len() - i,
            {
                let clear = match memory[i] {
                    Some(d) => d == x,
                    None => false,
                };
                if clear {
                    memory.set(i, None);
                }
                i = i + 1;
            }
            assert(memory@ =~= release(old(memory)@, last));
        },
    }
}

fn has_unknown_live(graph: &DepGraph, memory: &Vec<Option<u64>>) -> (r: bool)
    ensures
        r == unknown_live(graph@, memory@),
{
    let mut i: usize = 0;
    while i < memory.len()
        invariant
            i <= memory.len(),
            forall|k: int|
                0 <= k < i ==> !((#[trigger] memory@[k]).is_some() && !graph@.contains_key(
                    memory@[k].unwrap(),
                )),
        decreases memory.len() - i,
    {
        match memory[i] {
            Some(d) => {
                if !graph.contains(&d) {
                    return true;
                }
            },
            None => {},
        }
        i = i + 1;
    }
    false
}

fn has_live(memory: &Vec<Option<u64>>) -> (r: bool)
    ensures
        r == any_live(memory@),
{
    let mut i: usize = 0;
    while i < memory.len()
        invariant
            i <= memory.len(),
            forall|k: int| 0 <= k < i ==> (#[trigger] memory@[k]).is_none(),
        decreases memory.len() - i,
    {
        if memory[i].is_some() {
            return true;
        }
        i = i + 1;
    }
    false
}

fn is_blocked(graph: &DepGraph, remaining: &HashSet<u64>, d: u64) -> (r: bool)
    requires
        graph.wf(),
    ensures
        r == blocked(graph@, remaining@, d),
{
    let mut i: usize = 0;
    while i < graph.order.len()
        invariant
            i <= graph.order.len(),
            graph.wf(),
            forall|k: int|
                0 <= k < i ==> !(remaining@.contains(#[trigger] graph.order@[k])
                    && graph@.contains_key(graph.order@[k]) && graph@[graph.order@[k]].contains(d)),
        decreases graph.order.len() - i,
    {
        let z = graph.order[i];
        if remaining.contains(&z) {
            match graph.depends_on(&z) {
                Some(deps) => {
                    if vec_contains(deps, d) {
                        return true;
                    }
                },
                None => {},
            }
        }
        i = i + 1;
    }
    proof {
        assert forall|z: u64|
            !(#[trigger] remaining@.contains(z) && graph@.contains_key(z) && graph@[z].contains(
                d,
            )) by {
            if graph@.contains_key(z) {
                assert(graph.order@.contains(z));
                let k = choose|k: int| 0 <= k < graph.order@.len() && graph.order@[k] == z;
                assert(graph.order@[k] == z);
            }
        }
    }
    false
}

fn pick(graph: &DepGraph, remaining: &HashSet<u64>, memory: &Vec<Option<u64>>) -> (r: Option<
    usize,
>)
    requires
        graph.wf(),
        !unknown_live(graph@, memory@),
    ensures
        match best_candidate(graph@, remaining@, memory@, memory@.len() as int) {
            Some(c) => r.is_some() && r.unwrap() as int == c && 0 <= c < memory@.len()
                && memory@[c].is_some(),
            None => r.is_none(),
        },
{
    let mut best: Option<usize> = None;
    let mut best_count: usize = 0;
    let mut i: usize = 0;
    while i < memory.len()
        invariant
            i <= memory.len(),
            graph.wf(),
            !unknown_live(graph@, memory@),
            match best_candidate(graph@, remaining@, memory@, i as int) {
                Some(c) => best.is_some() && best.unwrap() as int == c && 0 <= c < i
                    && memory@[c].is_some()
                    && best_count == dep_count(graph@, memory@, c),
                None => best.is_none(),
            },
        decreases memory.len() - i,
    {
        match memory[i] {
            Some(d) => {
                assert(memory@[i as int].is_some());
                match graph.depends_on(&d) {
                    Some(deps) => {
                        if !is_blocked(graph, remaining, d) {
                            if best.is_none() || deps.len() < best_count {
                                best = Some(i);
                                best_count = deps.len();
                            }
                        }
                    },
                    None => {},
                }
            },
            None => {},
        }
        i = i + 1;
    }
    best
}

fn find_free(memory: &Vec<Option<u64>>) -> (r: usize)
    ensures
        r == first_free(memory@),
{
    let mut i: usize = 0;
    proof {
        lemma_first_free(memory@);
    }
    while i < memory.len()
        invariant
            i <= memory.len(),
            forall|k: int| 0 <= k < i ==> (#[trigger] memory@[k]).is_some(),
        decreases memory.len() - i,
    {
        if memory[i].is_none() {
            proof {
                lemma_first_free(memory@);
            }
            return i;
        }
        i = i + 1;
    }
    proof {
        lemma_first_free(memory@);
    }
    i
}

fn holds(memory: &Vec<Option<u64>>, d: u64) -> (r: bool)
    ensures
        r == memory@.contains(Some(d)),
{
    let mut i: usize = 0;
    while i < memory.len()
        invariant
            i <= memory.len(),
            forall|k: int| 0 <= k < i ==> memory@[k] != Some(d),
        decreases memory.len() - i,
    {
        let found = match memory[i] {
            Some(e) => e == d,
            None => false,
        };
        if found {
            return true;
        }
        i = i + 1;
    }
    false
}

#[verifier::loop_isolation(false)]
fn place(graph: &DepGraph, memory: &mut Vec<Option<u64>>, deps: &Vec<u64>) -> (r: Result<
    Vec<LocatedOperation>,
    OrderCalculationError,
>)
    ensures
        match place_deps(graph@, old(memory)@, deps@, Seq::empty()) {
            Ok((filled, placed)) => r.is_ok() && r.unwrap()@ == placed && final(memory)@ == filled,
            Err(e) => r == Err::<Vec<LocatedOperation>, OrderCalculationError>(e),
        },
{
    let mut placed: Vec<LocatedOperation> = Vec::new();
    let mut i: usize = 0;
    assert(deps@.skip(0) =~= deps@);
    while i < deps.len()
        invariant
            i <= deps.len(),
            place_deps(graph@, old(memory)@, deps@, Seq::empty()) == place_deps(
                graph@,
                memory@,
                deps@.skip(i as int),
                placed@,
            ),
        decreases deps.len() - i,
    {
        let d = deps[i];
        proof {
            assert(deps@.skip(i as int).drop_first() =~= deps@.skip(i + 1));
            assert(deps@.skip(i as int)[0] == d);
        }
        if !graph.contains(&d) {
            return Err(OrderCalculationError::UnknownDependency);
        }
        if !holds(memory, d) {
            let slot = find_free(memory);
            if slot >= memory.len() {
                return Err(OrderCalculationError::ResourceLimitExceeded);
            }
            memory.set(slot, Some(d));
            placed.push(LocatedOperation { id: d, addr: slot });
        }
        i = i + 1;
    }
    Ok(placed)
}

/// Builds the schedule step by step, as [`schedule`] describes it.
#[verifier::loop_isolation(false)]
fn build_schedule(graph: &DepGraph, output_nodes: &Vec<u64>, memory_size: usize) -> (result:
    Result<Vec<OperationStage>, OrderCalculationError>)
    requires
        graph.wf(),
    ensures
        match schedule(graph@, output_nodes@, memory_size as nat) {
            Ok(stages) => result.is_ok() && stage_views(result.unwrap()@) == stages,
            Err(e) => result == Err::<Vec<OperationStage>, OrderCalculationError>(e),
        },
{
    if output_nodes.len() > memory_size {
        return Err(OrderCalculationError::ResourceLimitExceeded);
    }
    let mut memory: Vec<Option<u64>> = Vec::new();
    let mut i: usize = 0;
    while i < memory_size
        invariant
            i <= memory_size,
            memory@.len() == i,
            forall|k: int|
                0 <= k < i ==> memory@[k] == if k < output_nodes@.len() {
                    Some(output_nodes@[k])
                } else {
                    None
                },
        decreases memory_size - i,
    {
        if i < output_nodes.len() {
            memory.push(Some(output_nodes[i]));
        } else {
            memory.push(None);
        }
        i = i + 1;
    }
    let mut remaining: HashSet<u64> = HashSet::new();
    let mut j: usize = 0;
    while j < graph.order.len()
        invariant
            j <= graph.order.len(),
            forall|z: u64|
                remaining@.contains(z) <==> exists|k: int|
                    0 <= k < j && #[trigger] graph.order@[k] == z,
        decreases graph.order.len() - j,
    {
        let z = graph.order[j];
        remaining.insert(z);
        j = j + 1;
    }
    let mut stages: Vec<OperationStage> = Vec::new();
    let mut last: Option<u64> = None;
    let mut fuel: usize = graph.order.len();
    let ghost g = graph@;
    let ghost mut st = initial_state(g, output_nodes@, memory_size as nat);
    proof {
        graph.order@.unique_seq_to_set();
        assert(graph.order@.to_set() =~= g.dom());
        assert(remaining@ =~= g.dom());
        assert(memory@ =~= st.memory);
        assert(stage_views(stages@) =~= st.stages);
    }
    loop
        invariant
            graph.wf(),
            g == graph@,
            st == (SchedState {
                memory: memory@,
                last,
                remaining: remaining@,
                stages: stage_views(stages@),
            }),
            schedule(g, output_nodes@, memory_size as nat) == run(g, st, (fuel + 1) as nat),
        decreases fuel,
    {
        let ghost prev = st;
        release_last(&mut memory, last);
        if has_unknown_live(graph, &memory) {
            return Err(OrderCalculationError::UnknownDependency);
        }
        match pick(graph, &remaining, &memory) {
            None => {
                if has_live(&memory) {
                    return Err(OrderCalculationError::IterationLimitReached);
                } else {
                    return Ok(stages);
                }
            },
            Some(c) => {
                let x = match memory[c] {
                    Some(x) => x,
                    None => 0,
                };
                assert(memory@[c as int] == Some(x));
                let deps = match graph.depends_on(&x) {
                    Some(deps) => deps.clone(),
                    None => Vec::new(),
                };
                assert(g.contains_key(x));
                match place(graph, &mut memory, &deps) {
                    Err(e) => {
                        return Err(e);
                    },
                    Ok(placed) => {
                        remaining.remove(&x);
                        let mut allocate_before: Vec<LocatedOperation> = Vec::new();
                        allocate_before.push(LocatedOperation { id: x, addr: c });
                        let stage = OperationStage {
                            operation: (Operation { id: x, depends_on: deps }, c),
                            allocate_before,
                            delete_after: placed,
                        };
                        let ghost built = stage_views(stages@);
                        proof {
                            assert(stage@.allocate_before =~= seq![
                                LocatedOperation { id: x, addr: c },
                            ]);
                            assert(stage@ == make_stage(g, x, c as int, placed@));
                        }
                        stages.insert(0, stage);
                        last = Some(x);
                        proof {
                            assert(stage_views(stages@) =~= seq![
                                make_stage(g, x, c as int, placed@),
                            ] + built);
                            st = SchedState {
                                memory: memory@,
                                last,
                                remaining: remaining@,
                                stages: stage_views(stages@),
                            };
                        }
                    },
                }
            },
        }
        proof {
            assert(step(g, prev) == Step::Next(st));
            assert(run(g, prev, (fuel + 1) as nat) == run(g, st, fuel as nat));
        }
        if fuel == 0 {
            return Err(OrderCalculationError::IterationLimitReached);
        }
        fuel = fuel - 1;
    }
}

/// Lowers `graph` into a stage list that computes `output_nodes` on
/// `memory_size` registers.
///
/// The result is exactly [`schedule`]: the stages in execution order on
/// success, and otherwise the first failure met while building them. Outputs
/// that do not fit into the registers are a failure. A stage list that is
/// returned is a valid schedule: the executor accepts it on `memory_size`
/// registers, it runs every node reachable from the outputs exactly once and
/// no other, and dependencies run before their dependents. The only
/// failures are an unknown dependency, an exceeded resource limit and a
/// reached iteration limit.
pub fn compute_execution(graph: &DepGraph, output_nodes: Vec<u64>, memory_size: usize) -> (result:
    Result<Vec<OperationStage>, OrderCalculationError>)
    requires
        graph.wf(),
        output_nodes@.len() > 0,
    ensures
        match schedule(graph@, output_nodes@, memory_size as nat) {
            Ok(stages) => result.is_ok() && stage_views(result.unwrap()@) == stages,
            Err(e) => result == Err::<Vec<OperationStage>, OrderCalculationError>(e),
        },
        memory_size < output_nodes@.len() ==> result == Err::<
            Vec<OperationStage>,
            OrderCalculationError,
        >(OrderCalculationError::ResourceLimitExceeded),
        result.is_ok() ==> valid_schedule(
            graph@,
            output_nodes@,
            memory_size,
            stage_views(result.unwrap()@),
        ),
        result.is_err() ==> reported(result->Err_0),
{
    let result = build_schedule(graph, &output_nodes, memory_size);
    proof {
        if schedule(graph@, output_nodes@, memory_size as nat).is_ok() {
            law_schedule_is_valid(graph@, output_nodes@, memory_size);
        } else {
            law_reported_errors(graph@, output_nodes@, memory_size);
        }
    }
    result
}

} // verus!

//! Why the scheduler's output is a valid schedule: the invariant that the
//! backward construction keeps, and the laws that follow from it.

use crate::execution_order::any_live;
use crate::execution_order::best_candidate;
use crate::execution_order::blocked;
use crate::execution_order::dep_count;
use crate::execution_order::first_free;
use crate::execution_order::initial_state;
use crate::execution_order::is_candidate;
use crate::execution_order::lemma_first_free;
use crate::execution_order::make_stage;
use crate::execution_order::place_deps;
use crate::execution_order::release;
use crate::execution_order::run;
use crate::execution_order::schedule;
use crate::execution_order::step;
use crate::execution_order::unknown_live;
use crate::execution_order::OrderCalculationError;
use crate::execution_order::SchedState;
use crate::execution_order::Step;
use crate::executor::ExecutorError;
use crate::executor::LocatedOperation;
use crate::executor::Machine;
use crate::executor::StageView;
use vstd::prelude::*;

verus! {

/// Node `x` is the operation of some stage.
pub open spec fn scheduled(stages: Seq<StageView>, x: u64) -> bool {
    exists|i: int| 0 <= i < stages.len() && (#[trigger] stages[i]).operation.id == x
}

/// Register `i` holds the first occurrence of its occupant.
pub open spec fn first_at(memory: Seq<Option<u64>>, i: int) -> bool {
    memory[i].is_some() && forall|j: int| 0 <= j < i ==> memory[j] != memory[i]
}

/// The machine holds exactly the nodes of `memory`, each executed and at the
/// lowest register at which `memory` lists it.
pub open spec fn matches(m: Machine, memory: Seq<Option<u64>>) -> bool {
    &&& m.error.is_none()
    &&& m.wf()
    &&& m.memory.len() == memory.len()
    &&& forall|i: int|
        0 <= i < memory.len() ==> if first_at(memory, i) {
            &&& (#[trigger] m.memory[i]) == (memory[i], true)
            &&& m.memory_map.contains_key(memory[i].unwrap())
            &&& m.memory_map[memory[i].unwrap()] == i
        } else {
            m.memory[i] == (None::<u64>, false)
        }
}

/// What the best candidate is: a candidate, with no more dependencies than
/// any other candidate, and at a lower address than any other candidate with
/// as few.
pub proof fn lemma_best_candidate(
    g: Map<u64, Seq<u64>>,
    remaining: Set<u64>,
    memory: Seq<Option<u64>>,
    upto: int,
)
    requires
        0 <= upto <= memory.len(),
    ensures
        match best_candidate(g, remaining, memory, upto) {
            Some(c) => {
                &&& 0 <= c < upto
                &&& is_candidate(g, remaining, memory, c)
                &&& forall|j: int|
                    0 <= j < upto && #[trigger] is_candidate(g, remaining, memory, j) ==> dep_count(
                        g,
                        memory,
                        c,
                    ) < dep_count(g, memory, j) || (dep_count(g, memory, c) == dep_count(
                        g,
                        memory,
                        j,
                    ) && c <= j)
            },
            None => forall|j: int|
                0 <= j < upto ==> !#[trigger] is_candidate(g, remaining, memory, j),
        },
    decreases upto,
{
    if upto > 0 {
        lemma_best_candidate(g, remaining, memory, upto - 1);
    }
}

/// The best candidate sits at the first occurrence of its node.
pub proof fn lemma_best_candidate_first(
    g: Map<u64, Seq<u64>>,
    remaining: Set<u64>,
    memory: Seq<Option<u64>>,
)
    ensures
        match best_candidate(g, remaining, memory, memory.len() as int) {
            Some(c) => first_at(memory, c),
            None => true,
        },
{
    lemma_best_candidate(g, remaining, memory, memory.len() as int);
    match best_candidate(g, remaining, memory, memory.len() as int) {
        Some(c) => {
            assert forall|j: int| 0 <= j < c implies memory[j] != memory[c] by {
                if memory[j] == memory[c] {
                    assert(is_candidate(g, remaining, memory, j));
                }
            }
        },
        None => {},
    }
}

/// How the registers `memory` and the record `placed` relate to the
/// registers `start` from which placing began: occupied registers are
/// untouched, every newly occupied register is recorded, and every record
/// names an empty register of `start`, now the only home of a node that
/// `start` did not hold.
pub open spec fn placing(
    start: Seq<Option<u64>>,
    memory: Seq<Option<u64>>,
    placed: Seq<LocatedOperation>,
) -> bool {
    &&& memory.len() == start.len()
    &&& forall|i: int|
        0 <= i < start.len() && (#[trigger] start[i]).is_some() ==> memory[i] == start[i]
    &&& forall|i: int|
        0 <= i < start.len() && start[i].is_none() && (#[trigger] memory[i]).is_some()
            ==> exists|k: int|
            0 <= k < placed.len() && #[trigger] placed[k] == (LocatedOperation {
                id: memory[i].unwrap(),
                addr: i as usize,
            })
    &&& forall|k: int|
        0 <= k < placed.len() ==> {
            &&& (#[trigger] placed[k]).addr < memory.len()
            &&& start[placed[k].addr as int].is_none()
            &&& memory[placed[k].addr as int] == Some(placed[k].id)
            &&& !start.contains(Some(placed[k].id))
        }
    &&& forall|k: int, i: int|
        0 <= k < placed.len() && 0 <= i < memory.len() && #[trigger] memory[i] == Some(
            (#[trigger] placed[k]).id,
        ) ==> i == placed[k].addr
    &&& forall|k1: int, k2: int|
        0 <= k1 < k2 < placed.len() ==> (#[trigger] placed[k1]).addr != (#[trigger] placed[k2]).addr
}

/// Placing dependencies keeps [`placing`], leaves occupied registers alone,
/// brings every dependency into a register, and adds nothing but
/// dependencies.
pub proof fn lemma_place_deps(
    g: Map<u64, Seq<u64>>,
    start: Seq<Option<u64>>,
    memory: Seq<Option<u64>>,
    deps: Seq<u64>,
    acc: Seq<LocatedOperation>,
)
    requires
        placing(start, memory, acc),
        memory.len() <= usize::MAX,
        place_deps(g, memory, deps, acc).is_ok(),
    ensures
        placing(
            start,
            place_deps(g, memory, deps, acc).unwrap().0,
            place_deps(g, memory, deps, acc).unwrap().1,
        ),
        forall|k: int|
            0 <= k < deps.len() ==> g.contains_key(#[trigger] deps[k]) && place_deps(
                g,
                memory,
                deps,
                acc,
            ).unwrap().0.contains(Some(deps[k])),
        forall|i: int|
            0 <= i < memory.len() && (#[trigger] place_deps(
                g,
                memory,
                deps,
                acc,
            ).unwrap().0[i]).is_some() ==> place_deps(g, memory, deps, acc).unwrap().0[i]
                == memory[i] || deps.contains(
                place_deps(g, memory, deps, acc).unwrap().0[i].unwrap(),
            ),
        forall|i: int|
            0 <= i < memory.len() && (#[trigger] memory[i]).is_some() ==> place_deps(
                g,
                memory,
                deps,
                acc,
            ).unwrap().0[i] == memory[i],
    decreases deps.len(),
{
    if deps.len() == 0 {
    } else {
        let d = deps[0];
        let rest = deps.drop_first();
        let filled = place_deps(g, memory, deps, acc).unwrap().0;
        if memory.contains(Some(d)) {
            lemma_place_deps(g, start, memory, rest, acc);
            let at = choose|i: int| 0 <= i < memory.len() && memory[i] == Some(d);
            assert(memory[at].is_some());
            assert(filled[at] == Some(d));
            assert forall|k: int| 0 <= k < deps.len() implies g.contains_key(#[trigger] deps[k])
                && filled.contains(Some(deps[k])) by {
                if k > 0 {
                    assert(rest[k - 1] == deps[k]);
                }
            }
            assert forall|i: int| 0 <= i < memory.len() && (#[trigger] filled[i]).is_some()
                && filled[i] != memory[i] implies deps.contains(filled[i].unwrap()) by {
                let v = filled[i].unwrap();
                assert(rest.contains(v));
                let k = choose|k: int| 0 <= k < rest.len() && rest[k] == v;
                assert(deps[k + 1] == v);
            }
        } else {
            lemma_first_free(memory);
            let slot = first_free(memory);
            let memory2 = memory.update(slot, Some(d));
            let loc = LocatedOperation { id: d, addr: slot as usize };
            let acc2 = acc.push(loc);
            assert(start[slot].is_none());
            assert(!start.contains(Some(d))) by {
                if start.contains(Some(d)) {
                    let i = choose|i: int| 0 <= i < start.len() && start[i] == Some(d);
                    assert(start[i].is_some());
                    assert(memory[i] == Some(d));
                }
            }
            assert forall|i: int|
                0 <= i < start.len() && start[i].is_none() && (#[trigger] memory2[i]).is_some()
                implies exists|k: int|
                0 <= k < acc2.len() && #[trigger] acc2[k] == (LocatedOperation {
                    id: memory2[i].unwrap(),
                    addr: i as usize,
                }) by {
                if i == slot {
                    assert(acc2[acc.len() as int] == loc);
                } else {
                    assert(memory[i].is_some());
                    let k = choose|k: int|
                        0 <= k < acc.len() && #[trigger] acc[k] == (LocatedOperation {
                            id: memory[i].unwrap(),
                            addr: i as usize,
                        });
                    assert(acc2[k] == acc[k]);
                }
            }
            assert forall|k: int| 0 <= k < acc2.len() implies {
                &&& (#[trigger] acc2[k]).addr < memory2.len()
                &&& start[acc2[k].addr as int].is_none()
                &&& memory2[acc2[k].addr as int] == Some(acc2[k].id)
                &&& !start.contains(Some(acc2[k].id))
            } by {
                if k < acc.len() {
                    assert(acc2[k] == acc[k]);
                }
            }
            assert forall|k: int, i: int|
                0 <= k < acc2.len() && 0 <= i < memory2.len() && #[trigger] memory2[i] == Some(
                    (#[trigger] acc2[k]).id,
                ) implies i == acc2[k].addr by {
                if k < acc.len() {
                    assert(acc2[k] == acc[k]);
                    if i == slot {
                        assert(memory[acc[k].addr as int] == Some(d));
                    } else {
                        assert(memory[i] == Some(acc[k].id));
                    }
                } else {
                    if i != slot {
                        assert(memory[i] == Some(d));
                    }
                }
            }
            assert forall|k1: int, k2: int| 0 <= k1 < k2 < acc2.len() implies (
            #[trigger] acc2[k1]).addr != (#[trigger] acc2[k2]).addr by {
                assert(acc2[k1] == acc[k1]);
                if k2 < acc.len() {
                    assert(acc2[k2] == acc[k2]);
                }
            }
            assert(placing(start, memory2, acc2));
            lemma_place_deps(g, start, memory2, rest, acc2);
            assert(memory2[slot].is_some());
            assert(filled[slot] == Some(d));
            assert forall|k: int| 0 <= k < deps.len() implies g.contains_key(#[trigger] deps[k])
                && filled.contains(Some(deps[k])) by {
                if k > 0 {
                    assert(rest[k - 1] == deps[k]);
                }
            }
            assert forall|i: int| 0 <= i < memory.len() && (#[trigger] filled[i]).is_some()
                && filled[i] != memory[i] implies deps.contains(filled[i].unwrap()) by {
                let v = filled[i].unwrap();
                if filled[i] == memory2[i] {
                    assert(i == slot);
                    assert(deps[0] == v);
                } else {
                    assert(rest.contains(v));
                    let k = choose|k: int| 0 <= k < rest.len() && rest[k] == v;
                    assert(deps[k + 1] == v);
                }
            }
            assert forall|i: int| 0 <= i < memory.len() && (#[trigger] memory[i]).is_some()
                implies filled[i] == memory[i] by {
                assert(memory2[i] == memory[i]);
                assert(memory2[i].is_some());
            }
        }
    }
}

/// A list of dependencies passes the executor's check if each of them does.
pub proof fn lemma_dependencies_pass(m: Machine, deps: Seq<u64>)
    requires
        forall|k: int| 0 <= k < deps.len() ==> m.dependency_error(#[trigger] deps[k]).is_none(),
    ensures
        m.first_dependency_error(deps).is_none(),
    decreases deps.len(),
{
    if deps.len() > 0 {
        assert(m.dependency_error(deps[0]).is_none());
        let rest = deps.drop_first();
        assert forall|k: int| 0 <= k < rest.len() implies m.dependency_error(
            #[trigger] rest[k],
        ).is_none() by {
            assert(rest[k] == deps[k + 1]);
        }
        lemma_dependencies_pass(m, rest);
    }
}

/// Releasing registers that each hold the executed node named, at distinct
/// addresses, succeeds; it empties exactly those registers.
pub proof fn lemma_free_placed(m: Machine, placed: Seq<LocatedOperation>)
    requires
        m.error.is_none(),
        m.wf(),
        forall|k: int|
            0 <= k < placed.len() ==> {
                &&& (#[trigger] placed[k]).addr < m.memory.len()
                &&& m.memory[placed[k].addr as int] == (Some(placed[k].id), true)
                &&& m.memory_map.contains_key(placed[k].id)
            },
        forall|k1: int, k2: int|
            0 <= k1 < k2 < placed.len() ==> (#[trigger] placed[k1]).addr != (#[trigger] placed[k2]).addr,
    ensures
        m.free_all(placed).error.is_none(),
        m.free_all(placed).wf(),
        m.free_all(placed).memory_map == m.memory_map,
        m.free_all(placed).memory.len() == m.memory.len(),
        forall|k: int|
            0 <= k < placed.len() ==> m.free_all(placed).memory[(#[trigger] placed[k]).addr as int]
                == (None::<u64>, false),
        forall|i: int|
            0 <= i < m.memory.len() && (forall|k: int|
                0 <= k < placed.len() ==> (#[trigger] placed[k]).addr != i) ==> (
            #[trigger] m.free_all(placed).memory[i]) == m.memory[i],
    decreases placed.len(),
{
    if placed.len() > 0 {
        let p = placed[0];
        let rest = placed.drop_first();
        let m1 = m.free(p);
        assert(m1.error.is_none());
        assert forall|k: int| 0 <= k < rest.len() implies {
            &&& (#[trigger] rest[k]).addr < m1.memory.len()
            &&& m1.memory[rest[k].addr as int] == (Some(rest[k].id), true)
            &&& m1.memory_map.contains_key(rest[k].id)
        } by {
            assert(rest[k] == placed[k + 1]);
            assert(placed[0].addr != placed[k + 1].addr);
        }
        assert forall|k1: int, k2: int| 0 <= k1 < k2 < rest.len() implies (#[trigger] rest[k1]).addr
            != (#[trigger] rest[k2]).addr by {
            assert(rest[k1] == placed[k1 + 1]);
            assert(rest[k2] == placed[k2 + 1]);
        }
        lemma_free_placed(m1, rest);
        let r = m.free_all(placed);
        assert(r == m1.free_all(rest));
        assert forall|k: int| 0 <= k < placed.len() implies r.memory[(#[trigger] placed[k]).addr as int]
            == (None::<u64>, false) by {
            if k == 0 {
                assert forall|j: int| 0 <= j < rest.len() implies (#[trigger] rest[j]).addr
                    != p.addr by {
                    assert(rest[j] == placed[j + 1]);
                    assert(placed[0].addr != placed[j + 1].addr);
                }
                assert(r.memory[p.addr as int] == m1.memory[p.addr as int]);
            } else {
                assert(rest[k - 1] == placed[k]);
            }
        }
        assert forall|i: int|
            0 <= i < m.memory.len() && (forall|k: int|
                0 <= k < placed.len() ==> (#[trigger] placed[k]).addr != i) implies (
        #[trigger] r.memory[i]) == m.memory[i] by {
            assert(placed[0].addr != i);
            assert forall|k: int| 0 <= k < rest.len() implies (#[trigger] rest[k]).addr != i by {
                assert(rest[k] == placed[k + 1]);
            }
            assert(r.memory[i] == m1.memory[i]);
        }
    }
}

/// A value that occurs at `i` also occurs at a first occurrence.
pub proof fn lemma_first_occurrence(memory: Seq<Option<u64>>, i: int) -> (f: int)
    requires
        0 <= i < memory.len(),
        memory[i].is_some(),
    ensures
        0 <= f <= i,
        memory[f] == memory[i],
        first_at(memory, f),
    decreases i,
{
    if forall|j: int| 0 <= j < i ==> memory[j] != memory[i] {
        i
    } else {
        let j = choose|j: int| 0 <= j < i && memory[j] == memory[i];
        lemma_first_occurrence(memory, j)
    }
}

/// The executor accepts a stage that the scheduler built.
///
/// `memory` is the occupancy after the stage, with node `x` at its first
/// occurrence `c`; `filled` and `placed` come from placing the dependencies
/// of `x`. A machine that matches the occupancy before the stage, and has
/// never allocated `x`, runs the stage without error and then matches
/// `memory`.
pub proof fn lemma_accept_stage(
    g: Map<u64, Seq<u64>>,
    memory: Seq<Option<u64>>,
    c: int,
    x: u64,
    filled: Seq<Option<u64>>,
    placed: Seq<LocatedOperation>,
    m: Machine,
)
    requires
        memory.len() <= usize::MAX,
        0 <= c < memory.len(),
        memory[c] == Some(x),
        first_at(memory, c),
        placing(memory, filled, placed),
        forall|k: int| 0 <= k < g[x].len() ==> filled.contains(Some(#[trigger] g[x][k])),
        !g[x].contains(x),
        forall|i: int|
            0 <= i < memory.len() && (#[trigger] filled[i]).is_some() ==> filled[i] == memory[i]
                || g[x].contains(filled[i].unwrap()),
        matches(m, release(filled, Some(x))),
        !m.memory_map.contains_key(x),
    ensures
        matches(m.stage(make_stage(g, x, c, placed)), memory),
        m.stage(make_stage(g, x, c, placed)).memory_map == m.memory_map.insert(x, c as usize),
{
    let before = release(filled, Some(x));
    let stage = make_stage(g, x, c, placed);
    let loc = LocatedOperation { id: x, addr: c as usize };
    assert(filled[c] == Some(x)) by {
        assert(memory[c].is_some());
    }
    // Which registers hold `x`, before and after placing.
    assert forall|i: int| 0 <= i < memory.len() implies (filled[i] == Some(x) <==> memory[i]
        == Some(x)) by {
        if memory[i].is_some() {
            assert(filled[i] == memory[i]);
        } else if filled[i] == Some(x) {
            assert(filled[i].is_some());
            assert(g[x].contains(x));
        }
    }
    assert forall|i: int| 0 <= i < memory.len() implies before[i] == if memory[i] == Some(x) {
        None
    } else {
        filled[i]
    } by {}
    // Allocate.
    assert(!first_at(before, c));
    assert(m.memory[c] == (None::<u64>, false));
    let m1 = m.allocate(loc);
    assert(stage.allocate_before.drop_first() =~= Seq::<LocatedOperation>::empty());
    assert(m.allocate_all(stage.allocate_before) == m1) by {
        assert(stage.allocate_before[0] == loc);
        assert(m1.allocate_all(Seq::<LocatedOperation>::empty()) == m1);
    }
    assert(m1.error.is_none());
    // Execute.
    assert forall|k: int| 0 <= k < g[x].len() implies m1.dependency_error(
        #[trigger] g[x][k],
    ).is_none() by {
        let d = g[x][k];
        assert(d != x);
        assert(filled.contains(Some(d)));
        let i = choose|i: int| 0 <= i < filled.len() && filled[i] == Some(d);
        assert(before[i] == Some(d));
        let f = lemma_first_occurrence(before, i);
        assert(m.memory[f] == (Some(d), true));
        assert(f != c);
    }
    lemma_dependencies_pass(m1, g[x]);
    let m2 = m1.execute(stage.operation, stage.addr, stage.delete_after);
    assert(m2.error.is_none());
    assert(m2.memory == m1.memory.update(c, (Some(x), true)));
    // Free.
    assert forall|k: int| 0 <= k < placed.len() implies {
        &&& (#[trigger] placed[k]).addr < m2.memory.len()
        &&& m2.memory[placed[k].addr as int] == (Some(placed[k].id), true)
        &&& m2.memory_map.contains_key(placed[k].id)
    } by {
        let p = placed[k];
        let a = p.addr as int;
        assert(filled[a] == Some(p.id));
        assert(memory[a].is_none());
        assert(filled[a].is_some());
        assert(g[x].contains(p.id));
        assert(p.id != x);
        assert(before[a] == Some(p.id));
        assert(first_at(before, a)) by {
            assert forall|j: int| 0 <= j < a implies before[j] != before[a] by {
                if before[j] == before[a] {
                    assert(filled[j] == Some(p.id));
                }
            }
        }
        assert(m.memory[a] == (Some(p.id), true));
        assert(a != c);
    }
    lemma_free_placed(m2, placed);
    let m3 = m2.free_all(placed);
    assert(m3 == m.stage(stage));
    assert(m3.memory_map =~= m.memory_map.insert(x, c as usize));
    // The machine now matches the occupancy after the stage.
    assert forall|i: int| 0 <= i < memory.len() implies if first_at(memory, i) {
        &&& (#[trigger] m3.memory[i]) == (memory[i], true)
        &&& m3.memory_map.contains_key(memory[i].unwrap())
        &&& m3.memory_map[memory[i].unwrap()] == i
    } else {
        m3.memory[i] == (None::<u64>, false)
    } by {
        if memory[i].is_some() {
            // An occupied register is no placed slot.
            assert forall|k: int| 0 <= k < placed.len() implies (#[trigger] placed[k]).addr
                != i by {}
            assert(m3.memory[i] == m2.memory[i]);
            assert(filled[i] == memory[i]);
            if memory[i] == Some(x) {
                if first_at(memory, i) {
                    if i < c {
                        assert(memory[i] != memory[c]);
                    }
                    if c < i {
                        assert(memory[c] != memory[i]);
                    }
                    assert(i == c);
                } else {
                    assert(i != c);
                    assert(!first_at(before, i));
                    assert(m.memory[i] == (None::<u64>, false));
                }
            } else {
                assert(i != c);
                assert(before[i] == memory[i]);
                if first_at(memory, i) {
                    assert(first_at(before, i)) by {
                        assert forall|j: int| 0 <= j < i implies before[j] != before[i] by {
                            if before[j] == before[i] {
                                assert(filled[j] == memory[i]);
                                if memory[j].is_some() {
                                    assert(filled[j] == memory[j]);
                                    assert(memory[j] != memory[i]);
                                } else {
                                    // A placed node is no node of `memory`.
                                    assert(filled[j].is_some());
                                    let k = choose|k: int|
                                        0 <= k < placed.len() && #[trigger] placed[k] == (
                                        LocatedOperation {
                                            id: filled[j].unwrap(),
                                            addr: j as usize,
                                        });
                                    assert(!memory.contains(Some(placed[k].id)));
                                    assert(memory[i] == Some(placed[k].id));
                                }
                            }
                        }
                    }
                    assert(m.memory[i] == (memory[i], true));
                } else {
                    let j = choose|j: int| 0 <= j < i && memory[j] == memory[i];
                    assert(memory[j].is_some());
                    assert(filled[j] == memory[j]);
                    assert(before[j] == before[i]);
                    assert(!first_at(before, i));
                    assert(m.memory[i] == (None::<u64>, false));
                }
            }
        } else {
            assert(!first_at(memory, i));
            assert(i != c);
            if filled[i].is_some() {
                let k = choose|k: int|
                    0 <= k < placed.len() && #[trigger] placed[k] == (LocatedOperation {
                        id: filled[i].unwrap(),
                        addr: i as usize,
                    });
                assert(m3.memory[placed[k].addr as int] == (None::<u64>, false));
            } else {
                assert forall|k: int| 0 <= k < placed.len() implies (#[trigger] placed[k]).addr
                    != i by {
                    if placed[k].addr == i {
                        assert(filled[placed[k].addr as int] == Some(placed[k].id));
                    }
                }
                assert(m3.memory[i] == m2.memory[i]);
                assert(before[i].is_none());
                assert(!first_at(before, i));
                assert(m.memory[i] == (None::<u64>, false));
            }
        }
    }
    assert(m3.wf());
    assert(m3.error.is_none());
    assert(m3.memory.len() == memory.len());
    assert(matches(m3, memory));
}

/// The occupancy from which a step starts.
pub open spec fn step_memory(st: SchedState) -> Seq<Option<u64>> {
    release(st.memory, st.last)
}

/// The register that a step picks.
pub open spec fn step_choice(g: Map<u64, Seq<u64>>, st: SchedState) -> int {
    best_candidate(g, st.remaining, step_memory(st), step_memory(st).len() as int).unwrap()
}

/// The node that a step schedules.
pub open spec fn step_node(g: Map<u64, Seq<u64>>, st: SchedState) -> u64 {
    step_memory(st)[step_choice(g, st)].unwrap()
}

/// The dependencies that a step brings into registers.
pub open spec fn step_placed(g: Map<u64, Seq<u64>>, st: SchedState) -> Seq<LocatedOperation> {
    place_deps(g, step_memory(st), g[step_node(g, st)], Seq::empty()).unwrap().1
}

/// The bookkeeping of the scheduler: the scheduled nodes are the nodes of the
/// graph that are no longer remaining, each scheduled once; no remaining node
/// depends on a scheduled one; and apart from the node scheduled last, no
/// live node is scheduled.
pub open spec fn inv_basic(g: Map<u64, Seq<u64>>, registers: usize, st: SchedState) -> bool {
    &&& st.memory.len() == registers
    &&& st.last == if st.stages.len() == 0 {
        None
    } else {
        Some(st.stages[0].operation.id)
    }
    &&& forall|x: u64|
        #![trigger scheduled(st.stages, x)]
        #![trigger st.remaining.contains(x)]
        scheduled(st.stages, x) <==> g.contains_key(x) && !st.remaining.contains(x)
    &&& forall|z: u64, y: u64|
        st.remaining.contains(z) && g.contains_key(z) && #[trigger] scheduled(st.stages, y)
            ==> !(#[trigger] g[z]).contains(y)
    &&& forall|i: int|
        0 <= i < st.memory.len() && (#[trigger] st.memory[i]).is_some() && st.memory[i] != st.last
            ==> !scheduled(st.stages, st.memory[i].unwrap())
    &&& forall|i: int, j: int|
        0 <= i < j < st.stages.len() ==> (#[trigger] st.stages[i]).operation.id != (
        #[trigger] st.stages[j]).operation.id
}

/// Prepending a stage schedules its node and keeps the others.
pub proof fn lemma_scheduled_cons(stage: StageView, stages: Seq<StageView>, y: u64)
    ensures
        scheduled(seq![stage] + stages, y) <==> (y == stage.operation.id || scheduled(stages, y)),
{
    let all = seq![stage] + stages;
    if scheduled(all, y) {
        let i = choose|i: int| 0 <= i < all.len() && (#[trigger] all[i]).operation.id == y;
        if i > 0 {
            assert(stages[i - 1] == all[i]);
        }
    }
    if y == stage.operation.id {
        assert(all[0] == stage);
    }
    if scheduled(stages, y) {
        let i = choose|i: int| 0 <= i < stages.len() && (#[trigger] stages[i]).operation.id == y;
        assert(all[i + 1] == stages[i]);
    }
}

/// What a successful step has chosen and built.
pub proof fn lemma_step_next(g: Map<u64, Seq<u64>>, registers: usize, st: SchedState)
    requires
        inv_basic(g, registers, st),
        step(g, st) is Next,
    ensures
        0 <= step_choice(g, st) < registers,
        step_memory(st).len() == registers,
        step_memory(st)[step_choice(g, st)] == Some(step_node(g, st)),
        st.memory[step_choice(g, st)] == Some(step_node(g, st)),
        first_at(step_memory(st), step_choice(g, st)),
        g.contains_key(step_node(g, st)),
        st.remaining.contains(step_node(g, st)),
        !scheduled(st.stages, step_node(g, st)),
        !g[step_node(g, st)].contains(step_node(g, st)),
        forall|z: u64|
            #[trigger] st.remaining.contains(z) && g.contains_key(z) ==> !g[z].contains(
                step_node(g, st),
            ),
        forall|k: int|
            0 <= k < g[step_node(g, st)].len() ==> !scheduled(
                st.stages,
                #[trigger] g[step_node(g, st)][k],
            ),
        (step(g, st)->Next_0) == (SchedState {
            memory: (step(g, st)->Next_0).memory,
            last: Some(step_node(g, st)),
            remaining: st.remaining.remove(step_node(g, st)),
            stages: seq![
                make_stage(g, step_node(g, st), step_choice(g, st), step_placed(g, st)),
            ] + st.stages,
        }),
        placing(step_memory(st), (step(g, st)->Next_0).memory, step_placed(g, st)),
        forall|k: int|
            0 <= k < g[step_node(g, st)].len() ==> g.contains_key(
                #[trigger] g[step_node(g, st)][k],
            ) && (step(g, st)->Next_0).memory.contains(Some(g[step_node(g, st)][k])),
        forall|i: int|
            0 <= i < registers && (#[trigger] (step(g, st)->Next_0).memory[i]).is_some() ==> (step(
                g,
                st,
            )->Next_0).memory[i] == step_memory(st)[i] || g[step_node(g, st)].contains(
                (step(g, st)->Next_0).memory[i].unwrap(),
            ),
{
    let memory = step_memory(st);
    let c = step_choice(g, st);
    let x = step_node(g, st);
    lemma_best_candidate(g, st.remaining, memory, memory.len() as int);
    lemma_best_candidate_first(g, st.remaining, memory);
    assert(is_candidate(g, st.remaining, memory, c));
    assert(memory[c].is_some());
    assert(g.contains_key(x));
    assert(st.memory[c] == Some(x));
    assert(st.memory[c].is_some() && st.memory[c] != st.last);
    assert(!scheduled(st.stages, x));
    assert(st.remaining.contains(x));
    assert(!blocked(g, st.remaining, x));
    assert forall|z: u64| #[trigger] st.remaining.contains(z) && g.contains_key(z) implies !g[z].contains(
        x,
    ) by {}
    assert forall|k: int| 0 <= k < g[x].len() implies !scheduled(st.stages, #[trigger] g[x][k]) by {
        assert(g[x].contains(g[x][k]));
    }
    let empty = Seq::<LocatedOperation>::empty();
    assert(placing(memory, memory, empty));
    lemma_place_deps(g, memory, memory, g[x], empty);
}

/// A step keeps the bookkeeping.
pub proof fn lemma_step_basic(g: Map<u64, Seq<u64>>, registers: usize, st: SchedState)
    requires
        inv_basic(g, registers, st),
        step(g, st) is Next,
    ensures
        inv_basic(g, registers, step(g, st)->Next_0),
{
    lemma_step_next(g, registers, st);
    let nx = step(g, st)->Next_0;
    let x = step_node(g, st);
    let c = step_choice(g, st);
    let stage = make_stage(g, x, c, step_placed(g, st));
    let memory = step_memory(st);
    assert(nx.stages[0] == stage);
    assert forall|y: u64|
        #![trigger scheduled(nx.stages, y)]
        #![trigger nx.remaining.contains(y)]
        scheduled(nx.stages, y) <==> g.contains_key(y) && !nx.remaining.contains(y) by {
        lemma_scheduled_cons(stage, st.stages, y);
        assert(scheduled(st.stages, y) <==> g.contains_key(y) && !st.remaining.contains(y));
    }
    assert forall|z: u64, y: u64|
        nx.remaining.contains(z) && g.contains_key(z) && #[trigger] scheduled(
            nx.stages,
            y,
        ) implies !(#[trigger] g[z]).contains(y) by {
        lemma_scheduled_cons(stage, st.stages, y);
        assert(st.remaining.contains(z));
    }
    assert forall|i: int|
        0 <= i < nx.memory.len() && (#[trigger] nx.memory[i]).is_some() && nx.memory[i]
            != nx.last implies !scheduled(nx.stages, nx.memory[i].unwrap()) by {
        let d = nx.memory[i].unwrap();
        lemma_scheduled_cons(stage, st.stages, d);
        if nx.memory[i] == memory[i] {
            assert(st.memory[i].is_some() && st.memory[i] != st.last);
        } else {
            assert(g[x].contains(d));
            let k = choose|k: int| 0 <= k < g[x].len() && g[x][k] == d;
            assert(!scheduled(st.stages, g[x][k]));
        }
    }
    assert forall|i: int, j: int| 0 <= i < j < nx.stages.len() implies (
    #[trigger] nx.stages[i]).operation.id != (#[trigger] nx.stages[j]).operation.id by {
        assert(nx.stages[j] == st.stages[j - 1]);
        if i > 0 {
            assert(nx.stages[i] == st.stages[i - 1]);
        }
    }
}

/// A stage as the scheduler builds them: it runs a node of the graph on its
/// dependency list, allocates the node's own register, inside the register
/// file, and releases only registers of dependencies, inside the register
/// file.
pub open spec fn well_shaped(g: Map<u64, Seq<u64>>, registers: usize, s: StageView) -> bool {
    &&& g.contains_key(s.operation.id)
    &&& s.operation.depends_on == g[s.operation.id]
    &&& s.addr < registers
    &&& s.allocate_before == seq![LocatedOperation { id: s.operation.id, addr: s.addr }]
    &&& forall|k: int|
        0 <= k < s.delete_after.len() ==> (#[trigger] s.delete_after[k]).addr < registers
            && s.operation.depends_on.contains(s.delete_after[k].id)
}

/// Every stage is well shaped, and no stage depends on its own node or on
/// the node of a later stage.
pub open spec fn inv_shape(g: Map<u64, Seq<u64>>, registers: usize, st: SchedState) -> bool {
    &&& forall|i: int|
        0 <= i < st.stages.len() ==> well_shaped(g, registers, #[trigger] st.stages[i])
    &&& forall|i: int, j: int|
        0 <= i <= j < st.stages.len() ==> !g[(#[trigger] st.stages[i]).operation.id].contains(
            (#[trigger] st.stages[j]).operation.id,
        )
}

/// A step keeps the shape of the stages.
pub proof fn lemma_step_shape(g: Map<u64, Seq<u64>>, registers: usize, st: SchedState)
    requires
        inv_basic(g, registers, st),
        inv_shape(g, registers, st),
        step(g, st) is Next,
    ensures
        inv_shape(g, registers, step(g, st)->Next_0),
{
    lemma_step_next(g, registers, st);
    let nx = step(g, st)->Next_0;
    let x = step_node(g, st);
    let c = step_choice(g, st);
    let placed = step_placed(g, st);
    let stage = make_stage(g, x, c, placed);
    let memory = step_memory(st);
    assert(nx.stages[0] == stage);
    assert(well_shaped(g, registers, stage)) by {
        assert forall|k: int| 0 <= k < placed.len() implies (#[trigger] placed[k]).addr < registers
            && g[x].contains(placed[k].id) by {
            let a = placed[k].addr as int;
            assert(nx.memory[a] == Some(placed[k].id));
            assert(nx.memory[a].is_some());
            assert(memory[a].is_none());
        }
    }
    assert forall|i: int| 0 <= i < nx.stages.len() implies well_shaped(
        g,
        registers,
        #[trigger] nx.stages[i],
    ) by {
        if i > 0 {
            assert(nx.stages[i] == st.stages[i - 1]);
        }
    }
    assert forall|i: int, j: int| 0 <= i <= j < nx.stages.len() implies !g[(
    #[trigger] nx.stages[i]).operation.id].contains((#[trigger] nx.stages[j]).operation.id) by {
        if i == 0 {
            if j > 0 {
                let y = nx.stages[j].operation.id;
                assert(nx.stages[j] == st.stages[j - 1]);
                assert(scheduled(st.stages, y));
                if g[x].contains(y) {
                    let k = choose|k: int| 0 <= k < g[x].len() && g[x][k] == y;
                    assert(!scheduled(st.stages, g[x][k]));
                }
            }
        } else {
            assert(nx.stages[i] == st.stages[i - 1]);
            assert(nx.stages[j] == st.stages[j - 1]);
        }
    }
}

/// `path` leads from an output to `n` along dependency edges.
pub open spec fn is_path(g: Map<u64, Seq<u64>>, outs: Seq<u64>, path: Seq<u64>, n: u64) -> bool {
    &&& path.len() > 0
    &&& outs.contains(path[0])
    &&& path.last() == n
    &&& forall|i: int|
        0 <= i < path.len() - 1 ==> g.contains_key(#[trigger] path[i]) && g[path[i]].contains(
            path[i + 1],
        )
}

/// `n` is an output or a transitive dependency of one.
pub open spec fn reachable(g: Map<u64, Seq<u64>>, outs: Seq<u64>, n: u64) -> bool {
    exists|path: Seq<u64>| is_path(g, outs, path, n)
}

/// A dependency of a reachable node is reachable.
pub proof fn lemma_reachable_step(g: Map<u64, Seq<u64>>, outs: Seq<u64>, x: u64, d: u64)
    requires
        reachable(g, outs, x),
        g.contains_key(x),
        g[x].contains(d),
    ensures
        reachable(g, outs, d),
{
    let path = choose|path: Seq<u64>| is_path(g, outs, path, x);
    let longer = path.push(d);
    assert forall|i: int| 0 <= i < longer.len() - 1 implies g.contains_key(#[trigger] longer[i])
        && g[longer[i]].contains(longer[i + 1]) by {
        if i < path.len() - 1 {
            assert(longer[i] == path[i]);
            assert(longer[i + 1] == path[i + 1]);
        }
    }
    assert(longer[0] == path[0]);
    assert(is_path(g, outs, longer, d));
}

/// Every live node and every scheduled node is reachable, and every output
/// and every dependency of a scheduled node is scheduled or live.
pub open spec fn inv_reach(g: Map<u64, Seq<u64>>, outs: Seq<u64>, st: SchedState) -> bool {
    &&& forall|i: int|
        0 <= i < st.memory.len() && (#[trigger] st.memory[i]).is_some() ==> reachable(
            g,
            outs,
            st.memory[i].unwrap(),
        )
    &&& forall|x: u64| #[trigger] scheduled(st.stages, x) ==> reachable(g, outs, x)
    &&& forall|k: int|
        0 <= k < outs.len() ==> scheduled(st.stages, #[trigger] outs[k]) || st.memory.contains(
            Some(outs[k]),
        )
    &&& forall|x: u64, d: u64|
        #[trigger] scheduled(st.stages, x) && g.contains_key(x) && #[trigger] g[x].contains(d)
            ==> scheduled(st.stages, d) || st.memory.contains(Some(d))
}

/// A node that was scheduled or live before a step is so after it.
proof fn lemma_step_keeps(g: Map<u64, Seq<u64>>, registers: usize, st: SchedState, d: u64)
    requires
        inv_basic(g, registers, st),
        step(g, st) is Next,
        scheduled(st.stages, d) || st.memory.contains(Some(d)),
    ensures
        scheduled((step(g, st)->Next_0).stages, d) || (step(g, st)->Next_0).memory.contains(
            Some(d),
        ),
{
    lemma_step_next(g, registers, st);
    let nx = step(g, st)->Next_0;
    let x = step_node(g, st);
    let stage = make_stage(g, x, step_choice(g, st), step_placed(g, st));
    let memory = step_memory(st);
    lemma_scheduled_cons(stage, st.stages, d);
    if !scheduled(st.stages, d) {
        let i = choose|i: int| 0 <= i < st.memory.len() && st.memory[i] == Some(d);
        if st.memory[i] == st.last {
            assert(st.stages.len() > 0);
            assert(st.stages[0].operation.id == d);
        } else {
            assert(memory[i] == Some(d));
            assert(memory[i].is_some());
            assert(nx.memory[i] == Some(d));
        }
    }
}

/// A step keeps the reachability invariant.
pub proof fn lemma_step_reach(
    g: Map<u64, Seq<u64>>,
    outs: Seq<u64>,
    registers: usize,
    st: SchedState,
)
    requires
        inv_basic(g, registers, st),
        inv_reach(g, outs, st),
        step(g, st) is Next,
    ensures
        inv_reach(g, outs, step(g, st)->Next_0),
{
    lemma_step_next(g, registers, st);
    let nx = step(g, st)->Next_0;
    let x = step_node(g, st);
    let c = step_choice(g, st);
    let stage = make_stage(g, x, c, step_placed(g, st));
    let memory = step_memory(st);
    assert(st.memory[c].is_some());
    assert(reachable(g, outs, x));
    assert forall|i: int| 0 <= i < nx.memory.len() && (#[trigger] nx.memory[i]).is_some() implies reachable(
        g,
        outs,
        nx.memory[i].unwrap(),
    ) by {
        if nx.memory[i] == memory[i] {
            assert(st.memory[i].is_some());
        } else {
            lemma_reachable_step(g, outs, x, nx.memory[i].unwrap());
        }
    }
    assert forall|y: u64| #[trigger] scheduled(nx.stages, y) implies reachable(g, outs, y) by {
        lemma_scheduled_cons(stage, st.stages, y);
    }
    assert forall|k: int| 0 <= k < outs.len() implies scheduled(nx.stages, #[trigger] outs[k])
        || nx.memory.contains(Some(outs[k])) by {
        lemma_step_keeps(g, registers, st, outs[k]);
    }
    assert forall|y: u64, d: u64|
        #[trigger] scheduled(nx.stages, y) && g.contains_key(y) && #[trigger] g[y].contains(
            d,
        ) implies scheduled(nx.stages, d) || nx.memory.contains(Some(d)) by {
        lemma_scheduled_cons(stage, st.stages, y);
        if y == x {
            let k = choose|k: int| 0 <= k < g[x].len() && g[x][k] == d;
            assert(nx.memory.contains(Some(g[x][k])));
        } else {
            lemma_step_keeps(g, registers, st, d);
        }
    }
}

/// The machine has never allocated a node of `stages`.
pub open spec fn fresh(m: Machine, stages: Seq<StageView>) -> bool {
    forall|x: u64| #[trigger] scheduled(stages, x) ==> !m.memory_map.contains_key(x)
}

/// The executor accepts the stages built so far from every machine that
/// matches the occupancy before them and has allocated none of their nodes.
pub open spec fn inv_accept(st: SchedState) -> bool {
    forall|m: Machine|
        matches(m, step_memory(st)) && fresh(m, st.stages) ==> (#[trigger] m.run(
            st.stages,
        )).error.is_none()
}

/// A step keeps the stages acceptable.
pub proof fn lemma_step_accept(g: Map<u64, Seq<u64>>, registers: usize, st: SchedState)
    requires
        inv_basic(g, registers, st),
        inv_accept(st),
        step(g, st) is Next,
    ensures
        inv_accept(step(g, st)->Next_0),
{
    lemma_step_next(g, registers, st);
    let nx = step(g, st)->Next_0;
    let x = step_node(g, st);
    let c = step_choice(g, st);
    let placed = step_placed(g, st);
    let stage = make_stage(g, x, c, placed);
    let memory = step_memory(st);
    assert forall|m: Machine| matches(m, step_memory(nx)) && fresh(m, nx.stages) implies (
    #[trigger] m.run(nx.stages)).error.is_none() by {
        lemma_scheduled_cons(stage, st.stages, x);
        assert(!m.memory_map.contains_key(x));
        lemma_accept_stage(g, memory, c, x, nx.memory, placed, m);
        let after = m.stage(stage);
        assert forall|y: u64| #[trigger] scheduled(st.stages, y) implies !after.memory_map.contains_key(
            y,
        ) by {
            lemma_scheduled_cons(stage, st.stages, y);
        }
        assert(fresh(after, st.stages));
        assert(nx.stages[0] == stage);
        assert(nx.stages.drop_first() =~= st.stages);
        assert(m.run(nx.stages) == after.run(st.stages));
    }
}

/// Everything that the scheduler keeps true between steps.
pub open spec fn consistent(
    g: Map<u64, Seq<u64>>,
    outs: Seq<u64>,
    registers: usize,
    st: SchedState,
) -> bool {
    &&& inv_basic(g, registers, st)
    &&& inv_shape(g, registers, st)
    &&& inv_reach(g, outs, st)
    &&& inv_accept(st)
}

/// The invariant holds before the first step.
pub proof fn lemma_initial(g: Map<u64, Seq<u64>>, outs: Seq<u64>, registers: usize)
    requires
        outs.len() <= registers,
    ensures
        consistent(g, outs, registers, initial_state(g, outs, registers as nat)),
{
    let st = initial_state(g, outs, registers as nat);
    assert forall|x: u64| !scheduled(st.stages, x) by {}
    assert forall|i: int| 0 <= i < st.memory.len() && (#[trigger] st.memory[i]).is_some() implies reachable(
        g,
        outs,
        st.memory[i].unwrap(),
    ) by {
        let path = seq![outs[i]];
        assert(outs.contains(path[0]));
        assert(is_path(g, outs, path, outs[i]));
    }
    assert forall|k: int| 0 <= k < outs.len() implies scheduled(st.stages, #[trigger] outs[k])
        || st.memory.contains(Some(outs[k])) by {
        assert(st.memory[k] == Some(outs[k]));
    }
    assert forall|m: Machine| matches(m, step_memory(st)) && fresh(m, st.stages) implies (
    #[trigger] m.run(st.stages)).error.is_none() by {}
}

/// A step keeps the invariant.
pub proof fn lemma_step_consistent(
    g: Map<u64, Seq<u64>>,
    outs: Seq<u64>,
    registers: usize,
    st: SchedState,
)
    requires
        consistent(g, outs, registers, st),
        step(g, st) is Next,
    ensures
        consistent(g, outs, registers, step(g, st)->Next_0),
{
    lemma_step_basic(g, registers, st);
    lemma_step_shape(g, registers, st);
    lemma_step_reach(g, outs, registers, st);
    lemma_step_accept(g, registers, st);
}

/// What makes a stage list a valid schedule of `g` for `outs` on
/// `registers` registers.
///
/// The executor accepts it on that many registers, so that at every stage
/// the dependencies are allocated and executed and no address leaves the
/// register file; each stage runs a distinct node on the graph's own
/// dependency list; the nodes run are exactly those reachable from the
/// outputs; and every dependency of a stage is run by an earlier stage.
pub open spec fn valid_schedule(
    g: Map<u64, Seq<u64>>,
    outs: Seq<u64>,
    registers: usize,
    stages: Seq<StageView>,
) -> bool {
    &&& Machine::initial(registers).run(stages).outcome() == Ok::<(), ExecutorError>(())
    &&& forall|i: int, j: int|
        0 <= i < j < stages.len() ==> (#[trigger] stages[i]).operation.id != (
        #[trigger] stages[j]).operation.id
    &&& forall|n: u64| #[trigger] scheduled(stages, n) <==> reachable(g, outs, n)
    &&& forall|i: int| 0 <= i < stages.len() ==> well_shaped(g, registers, #[trigger] stages[i])
    &&& forall|i: int, d: u64|
        0 <= i < stages.len() && #[trigger] g[(#[trigger] stages[i]).operation.id].contains(d)
            ==> exists|j: int| 0 <= j < i && (#[trigger] stages[j]).operation.id == d
}

/// A set of scheduled nodes that holds the outputs and every dependency of
/// its members holds every reachable node.
pub proof fn lemma_closure(
    g: Map<u64, Seq<u64>>,
    outs: Seq<u64>,
    stages: Seq<StageView>,
    path: Seq<u64>,
    n: u64,
)
    requires
        forall|k: int| 0 <= k < outs.len() ==> scheduled(stages, #[trigger] outs[k]),
        forall|x: u64, d: u64|
            #[trigger] scheduled(stages, x) && g.contains_key(x) && #[trigger] g[x].contains(d)
                ==> scheduled(stages, d),
        is_path(g, outs, path, n),
    ensures
        scheduled(stages, n),
    decreases path.len(),
{
    if path.len() == 1 {
        let k = choose|k: int| 0 <= k < outs.len() && outs[k] == path[0];
        assert(scheduled(stages, outs[k]));
    } else {
        let shorter = path.drop_last();
        let x = shorter.last();
        assert forall|i: int| 0 <= i < shorter.len() - 1 implies g.contains_key(
            #[trigger] shorter[i],
        ) && g[shorter[i]].contains(shorter[i + 1]) by {
            assert(shorter[i] == path[i]);
            assert(shorter[i + 1] == path[i + 1]);
        }
        assert(shorter[0] == path[0]);
        assert(is_path(g, outs, shorter, x));
        lemma_closure(g, outs, stages, shorter, x);
        let i = path.len() - 2;
        assert(path[i] == x);
        assert(g.contains_key(path[i]) && g[path[i]].contains(path[i + 1]));
        assert(g[x].contains(n));
    }
}

/// When a step finds nothing live, the stages built are a valid schedule.
pub proof fn lemma_done(g: Map<u64, Seq<u64>>, outs: Seq<u64>, registers: usize, st: SchedState)
    requires
        consistent(g, outs, registers, st),
        step(g, st) is Done,
    ensures
        valid_schedule(g, outs, registers, st.stages),
{
    let memory = step_memory(st);
    let stages = st.stages;
    let start = Machine::initial(registers);
    assert(!any_live(memory));
    assert forall|i: int| 0 <= i < memory.len() implies (#[trigger] memory[i]).is_none() by {}
    assert(matches(start, memory)) by {
        assert forall|i: int| 0 <= i < memory.len() implies !first_at(memory, i) by {
            assert(memory[i].is_none());
        }
    }
    assert(fresh(start, stages));
    assert(start.run(stages).error.is_none());
    // Whatever was live has been scheduled.
    assert forall|d: u64| st.memory.contains(Some(d)) implies scheduled(stages, d) by {
        let i = choose|i: int| 0 <= i < st.memory.len() && st.memory[i] == Some(d);
        assert(memory[i].is_none());
        assert(st.memory[i] == st.last);
        assert(stages[0].operation.id == d);
    }
    assert forall|n: u64| reachable(g, outs, n) implies scheduled(stages, n) by {
        let path = choose|path: Seq<u64>| is_path(g, outs, path, n);
        lemma_closure(g, outs, stages, path, n);
    }
    assert forall|i: int, d: u64|
        0 <= i < stages.len() && #[trigger] g[(#[trigger] stages[i]).operation.id].contains(
            d,
        ) implies exists|j: int| 0 <= j < i && (#[trigger] stages[j]).operation.id == d by {
        let x = stages[i].operation.id;
        assert(well_shaped(g, registers, stages[i]));
        assert(scheduled(stages, x));
        assert(scheduled(stages, d));
        let j = choose|j: int| 0 <= j < stages.len() && (#[trigger] stages[j]).operation.id == d;
        if i <= j {
            assert(!g[stages[i].operation.id].contains(stages[j].operation.id));
        }
        assert(0 <= j < i && stages[j].operation.id == d);
    }
}

/// Whatever the steps yield from a state that satisfies the invariant is a
/// valid schedule.
pub proof fn lemma_run(
    g: Map<u64, Seq<u64>>,
    outs: Seq<u64>,
    registers: usize,
    st: SchedState,
    fuel: nat,
)
    requires
        consistent(g, outs, registers, st),
        run(g, st, fuel).is_ok(),
    ensures
        valid_schedule(g, outs, registers, run(g, st, fuel).unwrap()),
    decreases fuel,
{
    if fuel > 0 {
        match step(g, st) {
            Step::Done => {
                lemma_done(g, outs, registers, st);
            },
            Step::Next(next) => {
                lemma_step_consistent(g, outs, registers, st);
                lemma_run(g, outs, registers, next, (fuel - 1) as nat);
            },
            _ => {},
        }
    }
}

/// Every schedule that the scheduler produces is valid: the executor accepts
/// it on the given number of registers, it runs every node reachable from
/// the outputs exactly once and no other, and dependencies run before their
/// dependents.
pub proof fn law_schedule_is_valid(g: Map<u64, Seq<u64>>, outs: Seq<u64>, registers: usize)
    requires
        schedule(g, outs, registers as nat).is_ok(),
    ensures
        valid_schedule(g, outs, registers, schedule(g, outs, registers as nat).unwrap()),
{
    lemma_initial(g, outs, registers);
    lemma_run(
        g,
        outs,
        registers,
        initial_state(g, outs, registers as nat),
        g.dom().len() + 1,
    );
}

/// The executor, on the same number of registers, accepts every schedule
/// that the scheduler produces.
pub proof fn law_executor_accepts_schedule(g: Map<u64, Seq<u64>>, outs: Seq<u64>, registers: usize)
    requires
        schedule(g, outs, registers as nat).is_ok(),
    ensures
        Machine::initial(registers).run(
            schedule(g, outs, registers as nat).unwrap(),
        ).outcome() == Ok::<(), ExecutorError>(()),
{
    law_schedule_is_valid(g, outs, registers);
}

/// Outputs that do not fit into the registers are refused: in particular,
/// with no register at all and at least one output the scheduler reports
/// that the resource limit is exceeded.
pub proof fn law_outputs_must_fit(g: Map<u64, Seq<u64>>, outs: Seq<u64>, registers: usize)
    requires
        outs.len() > registers,
    ensures
        schedule(g, outs, registers as nat) == Err::<Seq<StageView>, OrderCalculationError>(
            OrderCalculationError::ResourceLimitExceeded,
        ),
{
}

/// The errors that the scheduler reports.
pub open spec fn reported(e: OrderCalculationError) -> bool {
    ||| e == OrderCalculationError::UnknownDependency
    ||| e == OrderCalculationError::ResourceLimitExceeded
    ||| e == OrderCalculationError::IterationLimitReached
}

proof fn lemma_place_errors(
    g: Map<u64, Seq<u64>>,
    memory: Seq<Option<u64>>,
    deps: Seq<u64>,
    acc: Seq<LocatedOperation>,
)
    requires
        place_deps(g, memory, deps, acc).is_err(),
    ensures
        reported(place_deps(g, memory, deps, acc)->Err_0),
    decreases deps.len(),
{
    if deps.len() == 0 {
    } else if !g.contains_key(deps[0]) {
    } else if memory.contains(Some(deps[0])) {
        lemma_place_errors(g, memory, deps.drop_first(), acc);
    } else if first_free(memory) >= memory.len() {
    } else {
        lemma_place_errors(
            g,
            memory.update(first_free(memory), Some(deps[0])),
            deps.drop_first(),
            acc.push(LocatedOperation { id: deps[0], addr: first_free(memory) as usize }),
        );
    }
}

proof fn lemma_run_errors(g: Map<u64, Seq<u64>>, st: SchedState, fuel: nat)
    requires
        run(g, st, fuel).is_err(),
    ensures
        reported(run(g, st, fuel)->Err_0),
    decreases fuel,
{
    if fuel > 0 {
        match step(g, st) {
            Step::Next(next) => {
                lemma_run_errors(g, next, (fuel - 1) as nat);
            },
            Step::Failed(e) => {
                let memory = step_memory(st);
                if !unknown_live(g, memory) {
                    lemma_place_errors(g, memory, g[step_node(g, st)], Seq::empty());
                }
            },
            _ => {},
        }
    }
}

/// The scheduler fails only with an unknown dependency, an exceeded
/// resource limit or a reached iteration limit.
pub proof fn law_reported_errors(g: Map<u64, Seq<u64>>, outs: Seq<u64>, registers: usize)
    requires
        schedule(g, outs, registers as nat).is_err(),
    ensures
        reported(schedule(g, outs, registers as nat)->Err_0),
{
    if outs.len() <= registers {
        lemma_run_errors(g, initial_state(g, outs, registers as nat), g.dom().len() + 1);
    }
}

/// `cycle` leads from `n` back to `n` along at least one dependency edge.
pub open spec fn is_cycle(g: Map<u64, Seq<u64>>, cycle: Seq<u64>, n: u64) -> bool {
    &&& cycle.len() >= 2
    &&& cycle[0] == n
    &&& cycle.last() == n
    &&& forall|i: int|
        0 <= i < cycle.len() - 1 ==> g.contains_key(#[trigger] cycle[i]) && g[cycle[i]].contains(
            cycle[i + 1],
        )
}

/// Along a chain of dependency edges that starts at the node of stage
/// `top`, a valid schedule runs the node `k` edges away at least `k` stages
/// earlier.
proof fn lemma_chain_descends(
    g: Map<u64, Seq<u64>>,
    outs: Seq<u64>,
    registers: usize,
    stages: Seq<StageView>,
    chain: Seq<u64>,
    top: int,
    k: int,
) -> (p: int)
    requires
        valid_schedule(g, outs, registers, stages),
        0 <= top < stages.len(),
        chain.len() > 0,
        stages[top].operation.id == chain[0],
        forall|i: int|
            0 <= i < chain.len() - 1 ==> g.contains_key(#[trigger] chain[i]) && g[chain[i]].contains(
                chain[i + 1],
            ),
        0 <= k < chain.len(),
    ensures
        0 <= p < stages.len(),
        stages[p].operation.id == chain[k],
        p + k <= top,
    decreases k,
{
    if k == 0 {
        top
    } else {
        let q = lemma_chain_descends(g, outs, registers, stages, chain, top, k - 1);
        assert(g.contains_key(chain[k - 1]) && g[chain[k - 1]].contains(chain[k - 1 + 1]));
        assert(g[stages[q].operation.id].contains(chain[k]));
        let j = choose|j: int| 0 <= j < q && (#[trigger] stages[j]).operation.id == chain[k];
        j
    }
}

/// A graph with a cycle that is reachable from the outputs has no schedule:
/// the scheduler fails, with the reached iteration limit unless it meets an
/// unknown dependency or runs out of registers first.
pub proof fn law_cycle_is_rejected(
    g: Map<u64, Seq<u64>>,
    outs: Seq<u64>,
    registers: usize,
    n: u64,
    cycle: Seq<u64>,
)
    requires
        reachable(g, outs, n),
        is_cycle(g, cycle, n),
    ensures
        schedule(g, outs, registers as nat).is_err(),
        reported(schedule(g, outs, registers as nat)->Err_0),
{
    if schedule(g, outs, registers as nat).is_ok() {
        let stages = schedule(g, outs, registers as nat).unwrap();
        law_schedule_is_valid(g, outs, registers);
        assert(scheduled(stages, n));
        let top = choose|i: int| 0 <= i < stages.len() && (#[trigger] stages[i]).operation.id == n;
        let p = lemma_chain_descends(g, outs, registers, stages, cycle, top, cycle.len() - 1);
        if p < top {
            assert(stages[p].operation.id != stages[top].operation.id);
        }
    }
    law_reported_errors(g, outs, registers);
}

/// On a graph with a cycle that is reachable from the outputs, the scheduler
/// reports the reached iteration limit, unless it first meets an unknown
/// dependency or runs out of registers.
pub proof fn law_cycle_reaches_iteration_limit(
    g: Map<u64, Seq<u64>>,
    outs: Seq<u64>,
    registers: usize,
    n: u64,
    cycle: Seq<u64>,
)
    requires
        reachable(g, outs, n),
        is_cycle(g, cycle, n),
        schedule(g, outs, registers as nat) != Err::<Seq<StageView>, OrderCalculationError>(
            OrderCalculationError::UnknownDependency,
        ),
        schedule(g, outs, registers as nat) != Err::<Seq<StageView>, OrderCalculationError>(
            OrderCalculationError::ResourceLimitExceeded,
        ),
    ensures
        schedule(g, outs, registers as nat) == Err::<Seq<StageView>, OrderCalculationError>(
            OrderCalculationError::IterationLimitReached,
        ),
{
    law_cycle_is_rejected(g, outs, registers, n, cycle);
}

/// Every dependency listed in the graph is a node of the graph.
pub open spec fn closed(g: Map<u64, Seq<u64>>) -> bool {
    forall|k: u64, i: int|
        g.contains_key(k) && 0 <= i < g[k].len() ==> g.contains_key(#[trigger] g[k][i])
}

/// The registers cannot run out: there is one for every output and one more
/// for every node, every live node is a node of the graph, and beyond the
/// registers that the outputs started in no node is held twice.
pub open spec fn roomy(g: Map<u64, Seq<u64>>, outs: Seq<u64>, memory: Seq<Option<u64>>) -> bool {
    &&& outs.len() + g.dom().len() <= memory.len()
    &&& forall|i: int|
        0 <= i < memory.len() && (#[trigger] memory[i]).is_some() ==> g.contains_key(
            memory[i].unwrap(),
        )
    &&& forall|i: int, j: int|
        outs.len() <= i < memory.len() && 0 <= j < memory.len() && i != j && (
        #[trigger] memory[i]).is_some() ==> (#[trigger] memory[j]) != memory[i]
}

/// In roomy registers there is an empty one for a node of the graph that
/// they do not hold.
proof fn lemma_room(g: Map<u64, Seq<u64>>, outs: Seq<u64>, memory: Seq<Option<u64>>, d: u64)
    requires
        g.dom().finite(),
        roomy(g, outs, memory),
        g.contains_key(d),
        !memory.contains(Some(d)),
    ensures
        first_free(memory) < memory.len(),
{
    lemma_first_free(memory);
    if first_free(memory) >= memory.len() {
        let lo = outs.len() as int;
        let hi = memory.len() as int;
        let slots = vstd::set_lib::set_int_range(lo, hi);
        let held = |i: int| memory[i].unwrap();
        let nodes = slots.map(held);
        let others = g.dom().remove(d);
        vstd::set_lib::lemma_int_range(lo, hi);
        assert(vstd::relations::injective_on(held, slots)) by {
            assert forall|a: int, b: int|
                slots.contains(a) && slots.contains(b) && #[trigger] held(a) == #[trigger] held(
                    b,
                ) implies a == b by {
                assert(memory[a].is_some());
                assert(memory[b].is_some());
                if a != b {
                    assert(memory[b] != memory[a]);
                }
            }
        }
        vstd::set_lib::lemma_map_size(slots, nodes, held);
        assert(nodes.subset_of(others)) by {
            assert forall|x: u64| nodes.contains(x) implies others.contains(x) by {
                let i = choose|i: int| slots.contains(i) && x == held(i);
                assert(memory[i].is_some());
                assert(memory[i] == Some(x));
            }
        }
        vstd::set_lib::lemma_len_subset(nodes, others);
        assert(others.len() == g.dom().len() - 1);
    }
}

/// In roomy registers, placing nodes of the graph succeeds and leaves the
/// registers roomy.
proof fn lemma_place_roomy(
    g: Map<u64, Seq<u64>>,
    outs: Seq<u64>,
    memory: Seq<Option<u64>>,
    deps: Seq<u64>,
    acc: Seq<LocatedOperation>,
)
    requires
        g.dom().finite(),
        roomy(g, outs, memory),
        forall|k: int| 0 <= k < deps.len() ==> g.contains_key(#[trigger] deps[k]),
    ensures
        place_deps(g, memory, deps, acc).is_ok(),
        roomy(g, outs, place_deps(g, memory, deps, acc).unwrap().0),
    decreases deps.len(),
{
    if deps.len() > 0 {
        let d = deps[0];
        let rest = deps.drop_first();
        assert(g.contains_key(deps[0]));
        assert forall|k: int| 0 <= k < rest.len() implies g.contains_key(#[trigger] rest[k]) by {
            assert(rest[k] == deps[k + 1]);
        }
        if memory.contains(Some(d)) {
            lemma_place_roomy(g, outs, memory, rest, acc);
        } else {
            lemma_room(g, outs, memory, d);
            lemma_first_free(memory);
            let slot = first_free(memory);
            let filled = memory.update(slot, Some(d));
            assert forall|i: int, j: int|
                outs.len() <= i < filled.len() && 0 <= j < filled.len() && i != j && (
                #[trigger] filled[i]).is_some() implies (#[trigger] filled[j]) != filled[i] by {
                if i == slot {
                    assert(memory[j] != Some(d));
                } else if j == slot {
                    assert(memory[i] != Some(d));
                } else {
                    assert(memory[i].is_some());
                    assert(memory[j] != memory[i]);
                }
            }
            assert forall|i: int| 0 <= i < filled.len() && (#[trigger] filled[i]).is_some() implies g.contains_key(
                filled[i].unwrap(),
            ) by {
                if i != slot {
                    assert(memory[i].is_some());
                }
            }
            lemma_place_roomy(
                g,
                outs,
                filled,
                rest,
                acc.push(LocatedOperation { id: d, addr: slot as usize }),
            );
        }
    }
}

/// On a closed graph, with roomy registers, the steps end with a schedule
/// or with the reached iteration limit.
proof fn lemma_run_roomy(g: Map<u64, Seq<u64>>, outs: Seq<u64>, st: SchedState, fuel: nat)
    requires
        g.dom().finite(),
        closed(g),
        roomy(g, outs, st.memory),
    ensures
        run(g, st, fuel).is_ok() || run(g, st, fuel) == Err::<
            Seq<StageView>,
            OrderCalculationError,
        >(OrderCalculationError::IterationLimitReached),
    decreases fuel,
{
    if fuel > 0 {
        let memory = step_memory(st);
        assert(roomy(g, outs, memory)) by {
            assert forall|i: int| 0 <= i < memory.len() && (#[trigger] memory[i]).is_some() implies g.contains_key(
                memory[i].unwrap(),
            ) by {
                assert(st.memory[i].is_some());
            }
            assert forall|i: int, j: int|
                outs.len() <= i < memory.len() && 0 <= j < memory.len() && i != j && (
                #[trigger] memory[i]).is_some() implies (#[trigger] memory[j]) != memory[i] by {
                assert(st.memory[i].is_some());
                assert(st.memory[j] != st.memory[i]);
            }
        }
        assert(!unknown_live(g, memory));
        lemma_best_candidate(g, st.remaining, memory, memory.len() as int);
        match best_candidate(g, st.remaining, memory, memory.len() as int) {
            Some(c) => {
                let x = memory[c].unwrap();
                assert(memory[c].is_some());
                assert(g.contains_key(x));
                lemma_place_roomy(g, outs, memory, g[x], Seq::empty());
                let next = step(g, st)->Next_0;
                lemma_run_roomy(g, outs, next, (fuel - 1) as nat);
            },
            None => {},
        }
    }
}

/// On a graph that lists only its own nodes, with outputs among them and a
/// register for every output and one more for every node, a cycle that is
/// reachable from the outputs makes the scheduler report the reached
/// iteration limit.
pub proof fn law_cycle_on_closed_graph(
    g: Map<u64, Seq<u64>>,
    outs: Seq<u64>,
    registers: usize,
    n: u64,
    cycle: Seq<u64>,
)
    requires
        g.dom().finite(),
        closed(g),
        forall|i: int| 0 <= i < outs.len() ==> g.contains_key(#[trigger] outs[i]),
        outs.len() + g.dom().len() <= registers,
        reachable(g, outs, n),
        is_cycle(g, cycle, n),
    ensures
        schedule(g, outs, registers as nat) == Err::<Seq<StageView>, OrderCalculationError>(
            OrderCalculationError::IterationLimitReached,
        ),
{
    let st = initial_state(g, outs, registers as nat);
    assert(roomy(g, outs, st.memory));
    lemma_run_roomy(g, outs, st, g.dom().len() + 1);
    law_cycle_is_rejected(g, outs, registers, n, cycle);
}

} // verus!

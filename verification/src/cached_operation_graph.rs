//! Which operations must be recomputed after an edit: the operations that
//! changed, what depends on them up to the next cached result, and what
//! they depend on.

use crate::depgraph::descends;
use crate::depgraph::parents_of;
use crate::depgraph::DepGraph;
use crate::entities::Color;
use crate::entities::Operation;
use crate::entities::Scalar;
use crate::entities::StrokeData;
use crate::id_map::IdMap;
use crate::id_map::OperationId;
use crate::image::OperationIdMap;
use crate::sequences::lemma_push_contains;
use std::collections::HashMap;
use vstd::prelude::*;

verus! {

broadcast use vstd::std_specs::hash::group_hash_axioms;

/// Two strokes hold the same samples and settings.
pub open spec fn same_stroke(a: StrokeData, b: StrokeData) -> bool {
    &&& a.position_array@ == b.position_array@
    &&& a.angle_array@ == b.angle_array@
    &&& a.size == b.size
    &&& a.size_array@ == b.size_array@
    &&& a.color == b.color
    &&& a.color_array@ == b.color_array@
    &&& a.glyph == b.glyph
    &&& a.blend_mode == b.blend_mode
}

/// Two operations are of the same kind and hold the same values.
pub open spec fn same_operation(a: Operation, b: Operation) -> bool {
    match (a, b) {
        (Operation::Stroke(s), Operation::Stroke(t)) => same_stroke(s, t),
        (Operation::Composite(m), Operation::Composite(n)) => m == n,
        (Operation::Output(i), Operation::Output(j)) => i == j,
        (Operation::Tag(s), Operation::Tag(t)) => s@ == t@,
        _ => false,
    }
}

fn scalars_eq(a: &Vec<Scalar>, b: &Vec<Scalar>) -> (r: bool)
    ensures
        r == (a@ == b@),
{
    if a.len() != b.len() {
        return false;
    }
    let mut i: usize = 0;
    while i < a.len()
        invariant
            i <= a.len(),
            a@.len() == b@.len(),
            forall|k: int| 0 <= k < i ==> a@[k] == b@[k],
        decreases a.len() - i,
    {
        if a[i].0 != b[i].0 {
            return false;
        }
        i = i + 1;
    }
    assert(a@ =~= b@);
    true
}

fn points_eq(a: &Vec<(Scalar, Scalar)>, b: &Vec<(Scalar, Scalar)>) -> (r: bool)
    ensures
        r == (a@ == b@),
{
    if a.len() != b.len() {
        return false;
    }
    let mut i: usize = 0;
    while i < a.len()
        invariant
            i <= a.len(),
            a@.len() == b@.len(),
            forall|k: int| 0 <= k < i ==> a@[k] == b@[k],
        decreases a.len() - i,
    {
        if a[i].0.0 != b[i].0.0 || a[i].1.0 != b[i].1.0 {
            return false;
        }
        i = i + 1;
    }
    assert(a@ =~= b@);
    true
}

fn color_eq(a: Color, b: Color) -> (r: bool)
    ensures
        r == (a == b),
{
    a.r.0 == b.r.0 && a.g.0 == b.g.0 && a.b.0 == b.b.0 && a.a.0 == b.a.0
}

fn colors_eq(a: &Vec<Color>, b: &Vec<Color>) -> (r: bool)
    ensures
        r == (a@ == b@),
{
    if a.len() != b.len() {
        return false;
    }
    let mut i: usize = 0;
    while i < a.len()
        invariant
            i <= a.len(),
            a@.len() == b@.len(),
            forall|k: int| 0 <= k < i ==> a@[k] == b@[k],
        decreases a.len() - i,
    {
        if !color_eq(a[i], b[i]) {
            return false;
        }
        i = i + 1;
    }
    assert(a@ =~= b@);
    true
}

/// Whether two strokes hold the same samples and settings.
pub fn stroke_eq(a: &StrokeData, b: &StrokeData) -> (r: bool)
    ensures
        r == same_stroke(*a, *b),
{
    points_eq(&a.position_array, &b.position_array) && scalars_eq(&a.angle_array, &b.angle_array)
        && a.size.0 == b.size.0 && scalars_eq(&a.size_array, &b.size_array) && color_eq(
        a.color,
        b.color,
    ) && colors_eq(&a.color_array, &b.color_array) && a.glyph.0 == b.glyph.0 && a.blend_mode
        == b.blend_mode
}

/// Whether two operations are of the same kind and hold the same values.
pub fn operation_eq(a: &Operation, b: &Operation) -> (r: bool)
    ensures
        r == same_operation(*a, *b),
{
    match (a, b) {
        (Operation::Stroke(s), Operation::Stroke(t)) => stroke_eq(s, t),
        (Operation::Composite(m), Operation::Composite(n)) => *m == *n,
        (Operation::Output(i), Operation::Output(j)) => *i == *j,
        (Operation::Tag(s), Operation::Tag(t)) => *s == *t,
        _ => false,
    }
}

/// The operations as they were when their results were computed, with the
/// results that are cached.
pub struct CachedOperationGraph {
    pub operations: OperationIdMap,
    pub cache: HashMap<u64, u8>,
}

/// Operation `k` of `new` is not what `old` holds under `k`.
pub open spec fn is_dirty(old: Map<u64, Operation>, new: Map<u64, Operation>, k: u64) -> bool {
    new.contains_key(k) && !(old.contains_key(k) && same_operation(old[k], new[k]))
}

/// The flipped graph without the nodes whose results are cached: every
/// other node that something depends on, with the nodes that depend on it.
pub open spec fn uncached_parents(g: Map<u64, Seq<u64>>, order: Seq<u64>, cached: Set<u64>) -> Map<
    u64,
    Seq<u64>,
> {
    Map::new(
        |k: u64| !cached.contains(k) && parents_of(g, order, k).len() > 0,
        |k: u64| parents_of(g, order, k),
    )
}

/// Operation `x` must be recomputed: it changed; or it is not cached and
/// depends on a changed operation through operations that are not cached;
/// or a changed operation depends on it.
pub open spec fn must_recompute(
    old: Map<u64, Operation>,
    new: Map<u64, Operation>,
    cached: Set<u64>,
    g: Map<u64, Seq<u64>>,
    order: Seq<u64>,
    x: u64,
) -> bool {
    ||| is_dirty(old, new, x)
    ||| exists|d: u64|
        #![trigger is_dirty(old, new, d)]
        is_dirty(old, new, d) && descends(uncached_parents(g, order, cached), d, x)
            && !cached.contains(x)
    ||| exists|d: u64| #![trigger is_dirty(old, new, d)] is_dirty(old, new, d) && descends(g, d, x)
}

/// The flipped graph `flipped` without the nodes that `cache` holds.
fn without_cached(flipped: &DepGraph, cache: &HashMap<u64, u8>) -> (r: DepGraph)
    requires
        flipped.wf(),
    ensures
        r.wf(),
        r@ =~= Map::new(
            |k: u64| flipped@.contains_key(k) && !cache@.contains_key(k),
            |k: u64| flipped@[k],
        ),
{
    let mut out = DepGraph::new();
    let mut i: usize = 0;
    while i < flipped.order.len()
        invariant
            i <= flipped.order.len(),
            flipped.wf(),
            out.wf(),
            forall|k: u64| #[trigger]
                out@.contains_key(k) <==> flipped.order@.take(i as int).contains(k)
                    && !cache@.contains_key(k),
            forall|k: u64| #[trigger] out@.contains_key(k) ==> out@[k] == flipped@[k],
        decreases flipped.order.len() - i,
    {
        let k = flipped.order[i];
        proof {
            flipped.order@.lemma_take_succ_push(i as int);
            lemma_push_contains(flipped.order@.take(i as int), k);
            assert(flipped.order@.contains(k));
        }
        if !cache.contains_key(&k) {
            out.insert(k, flipped.get_children(k));
        }
        i = i + 1;
    }
    proof {
        assert(flipped.order@.take(flipped.order@.len() as int) =~= flipped.order@);
    }
    out
}

impl CachedOperationGraph {
    /// Nothing computed, nothing cached.
    pub fn new() -> (r: Self)
        ensures
            r.operations.wf(),
            r.operations@ == Map::<u64, Operation>::empty(),
            r.cache@ == Map::<u64, u8>::empty(),
    {
        CachedOperationGraph { operations: IdMap::starting_at(OperationId(0)), cache: HashMap::new() }
    }

    /// Records that `operation` was computed under `id`, with `result`.
    pub fn do_operation(&mut self, id: OperationId, operation: Operation, result: u8)
        requires
            old(self).operations.wf(),
        ensures
            final(self).operations.wf(),
            final(self).operations@ == old(self).operations@.insert(id.0, operation),
            final(self).cache@ == old(self).cache@.insert(id.0, result),
    {
        self.operations.force(id, operation);
        self.cache.insert(id.0, result);
    }

    /// The operations of `new_operations` that differ from the recorded
    /// ones, in the order in which they entered the store.
    fn changed_operations(&self, new_operations: &OperationIdMap) -> (r: Vec<u64>)
        requires
            new_operations.wf(),
        ensures
            forall|k: u64|
                r@.contains(k) <==> #[trigger] is_dirty(self.operations@, new_operations@, k),
    {
        let mut out: Vec<u64> = Vec::new();
        let mut i: usize = 0;
        while i < new_operations.order.len()
            invariant
                i <= new_operations.order.len(),
                new_operations.wf(),
                forall|k: u64|
                    out@.contains(k) ==> #[trigger] is_dirty(self.operations@, new_operations@, k),
                forall|j: int|
                    0 <= j < i && is_dirty(
                        self.operations@,
                        new_operations@,
                        #[trigger] new_operations.ids()[j],
                    ) ==> out@.contains(new_operations.ids()[j]),
            decreases new_operations.order.len() - i,
        {
            let id = new_operations.order[i];
            assert(new_operations.ids()[i as int] == id.0);
            assert(new_operations.ids().contains(id.0));
            let operation = new_operations.get_unchecked(&id);
            let same = match self.operations.get(&id) {
                Some(recorded) => operation_eq(recorded, operation),
                None => false,
            };
            if !same {
                proof {
                    lemma_push_contains(out@, id.0);
                }
                out.push(id.0);
            }
            i = i + 1;
        }
        proof {
            assert forall|k: u64| #[trigger]
                is_dirty(self.operations@, new_operations@, k) implies out@.contains(k) by {
                assert(new_operations.ids().contains(k));
                let j = choose|j: int|
                    0 <= j < new_operations.ids().len() && new_operations.ids()[j] == k;
                assert(is_dirty(self.operations@, new_operations@, new_operations.ids()[j]));
            }
        }
        out
    }

    /// The operations that must be recomputed for the graph `new_graph` over
    /// the operations `new_operations`: those that changed, those that
    /// depend on a changed one up to the next cached result, and those that
    /// a changed one depends on.
    pub fn compute_changed(&self, new_graph: &DepGraph, new_operations: &OperationIdMap) -> (r:
        Vec<OperationId>)
        requires
            new_graph.wf(),
            new_operations.wf(),
        ensures
            forall|x: u64|
                r@.contains(OperationId(x)) <==> #[trigger] must_recompute(
                    self.operations@,
                    new_operations@,
                    self.cache@.dom(),
                    new_graph@,
                    new_graph.keys(),
                    x,
                ),
    {
        let ghost old = self.operations@;
        let ghost new = new_operations@;
        let ghost cached = self.cache@.dom();
        let ghost g = new_graph@;
        let dirty = self.changed_operations(new_operations);
        let flipped_graph = new_graph.flip();
        let upstream = without_cached(&flipped_graph, &self.cache);
        let ghost h = uncached_parents(g, new_graph.keys(), cached);
        assert(upstream@ =~= h);
        let mut changed: Vec<OperationId> = Vec::new();
        push_all(&mut changed, &dirty);
        let ghost first = changed@;
        assert forall|x: u64| first.contains(OperationId(x)) <==> is_dirty(old, new, x) by {
            assert(dirty@.contains(x) <==> is_dirty(old, new, x));
        }
        let mut a: usize = 0;
        assert(dirty@.take(0) =~= Seq::<u64>::empty());
        while a < dirty.len()
            invariant
                a <= dirty.len(),
                upstream.wf(),
                upstream@ == h,
                cached == self.cache@.dom(),
                forall|x: u64|
                    #![trigger changed@.contains(OperationId(x))]
                    changed@.contains(OperationId(x)) <==> first.contains(OperationId(x))
                        || above_some(h, cached, dirty@.take(a as int), x),
            decreases dirty.len() - a,
        {
            let d = dirty[a];
            let above = upstream.get_children_recursive_breadth_first(d);
            let ghost before = changed@;
            push_uncached(&mut changed, &above, &self.cache);
            proof {
                dirty@.lemma_take_succ_push(a as int);
                lemma_push_contains(dirty@.take(a as int), d);
                assert forall|x: u64|
                    #![trigger changed@.contains(OperationId(x))]
                    changed@.contains(OperationId(x)) <==> first.contains(OperationId(x))
                        || above_some(h, cached, dirty@.take(a + 1), x) by {
                    assert(before.contains(OperationId(x)) <==> first.contains(OperationId(x))
                        || above_some(h, cached, dirty@.take(a as int), x));
                    assert(above@.contains(x) <==> descends(h, d, x));
                    if above_some(h, cached, dirty@.take(a as int), x) {
                        let e = choose|e: u64|
                            #![trigger dirty@.take(a as int).contains(e)]
                            dirty@.take(a as int).contains(e) && descends(h, e, x);
                        assert(dirty@.take(a + 1).contains(e));
                    }
                    if above_some(h, cached, dirty@.take(a + 1), x) {
                        let e = choose|e: u64|
                            #![trigger dirty@.take(a + 1).contains(e)]
                            dirty@.take(a + 1).contains(e) && descends(h, e, x);
                        if e != d {
                            assert(dirty@.take(a as int).contains(e));
                        }
                    }
                    if descends(h, d, x) {
                        assert(dirty@.take(a + 1).contains(d));
                    }
                }
            }
            a = a + 1;
        }
        assert(dirty@.take(dirty@.len() as int) =~= dirty@);
        let ghost second = changed@;
        let mut b: usize = 0;
        while b < dirty.len()
            invariant
                b <= dirty.len(),
                new_graph.wf(),
                g == new_graph@,
                forall|x: u64|
                    #![trigger changed@.contains(OperationId(x))]
                    changed@.contains(OperationId(x)) <==> second.contains(OperationId(x))
                        || below_some(g, dirty@.take(b as int), x),
            decreases dirty.len() - b,
        {
            let d = dirty[b];
            let below = new_graph.get_children_recursive_breadth_first(d);
            let ghost before = changed@;
            push_all(&mut changed, &below);
            proof {
                dirty@.lemma_take_succ_push(b as int);
                lemma_push_contains(dirty@.take(b as int), d);
                assert forall|x: u64|
                    #![trigger changed@.contains(OperationId(x))]
                    changed@.contains(OperationId(x)) <==> second.contains(OperationId(x))
                        || below_some(g, dirty@.take(b + 1), x) by {
                    assert(before.contains(OperationId(x)) <==> second.contains(OperationId(x))
                        || below_some(g, dirty@.take(b as int), x));
                    assert(below@.contains(x) <==> descends(g, d, x));
                    if below_some(g, dirty@.take(b as int), x) {
                        let e = choose|e: u64|
                            #![trigger dirty@.take(b as int).contains(e)]
                            dirty@.take(b as int).contains(e) && descends(g, e, x);
                        assert(dirty@.take(b + 1).contains(e));
                    }
                    if below_some(g, dirty@.take(b + 1), x) {
                        let e = choose|e: u64|
                            #![trigger dirty@.take(b + 1).contains(e)]
                            dirty@.take(b + 1).contains(e) && descends(g, e, x);
                        if e != d {
                            assert(dirty@.take(b as int).contains(e));
                        }
                    }
                    if descends(g, d, x) {
                        assert(dirty@.take(b + 1).contains(d));
                    }
                }
            }
            b = b + 1;
        }
        proof {
            assert forall|x: u64|
                changed@.contains(OperationId(x)) <==> #[trigger] must_recompute(
                    old,
                    new,
                    cached,
                    g,
                    new_graph.keys(),
                    x,
                ) by {
                assert(second.contains(OperationId(x)) <==> first.contains(OperationId(x))
                    || above_some(h, cached, dirty@, x));
                assert(first.contains(OperationId(x)) <==> is_dirty(old, new, x));
                if above_some(h, cached, dirty@, x) {
                    let e = choose|e: u64|
                        #![trigger dirty@.contains(e)]
                        dirty@.contains(e) && descends(h, e, x);
                    assert(is_dirty(old, new, e));
                }
                if below_some(g, dirty@, x) {
                    let e = choose|e: u64|
                        #![trigger dirty@.contains(e)]
                        dirty@.contains(e) && descends(g, e, x);
                    assert(is_dirty(old, new, e));
                }
                if exists|e: u64|
                    #![trigger is_dirty(old, new, e)]
                    is_dirty(old, new, e) && descends(h, e, x) && !cached.contains(x) {
                    let e = choose|e: u64|
                        #![trigger is_dirty(old, new, e)]
                        is_dirty(old, new, e) && descends(h, e, x) && !cached.contains(x);
                    assert(dirty@.contains(e));
                }
                if exists|e: u64|
                    #![trigger is_dirty(old, new, e)]
                    is_dirty(old, new, e) && descends(g, e, x) {
                    let e = choose|e: u64|
                        #![trigger is_dirty(old, new, e)]
                        is_dirty(old, new, e) && descends(g, e, x);
                    assert(dirty@.contains(e));
                }
            }
        }
        changed
    }
}

/// `x` is not cached and descends, in the graph `h`, from one of `from`.
pub open spec fn above_some(h: Map<u64, Seq<u64>>, cached: Set<u64>, from: Seq<u64>, x: u64) -> bool {
    !cached.contains(x) && exists|e: u64|
        #![trigger from.contains(e)]
        from.contains(e) && descends(h, e, x)
}

/// `x` descends, in the graph `g`, from one of `from`.
pub open spec fn below_some(g: Map<u64, Seq<u64>>, from: Seq<u64>, x: u64) -> bool {
    exists|e: u64| #![trigger from.contains(e)] from.contains(e) && descends(g, e, x)
}

/// Appends the operations `items`.
fn push_all(changed: &mut Vec<OperationId>, items: &Vec<u64>)
    ensures
        forall|x: u64|
            #![trigger final(changed)@.contains(OperationId(x))]
            final(changed)@.contains(OperationId(x)) <==> old(changed)@.contains(OperationId(x))
                || items@.contains(x),
{
    let mut t: usize = 0;
    assert(items@.take(0) =~= Seq::<u64>::empty());
    while t < items.len()
        invariant
            t <= items.len(),
            forall|x: u64|
                #![trigger changed@.contains(OperationId(x))]
                changed@.contains(OperationId(x)) <==> old(changed)@.contains(OperationId(x))
                    || items@.take(t as int).contains(x),
        decreases items.len() - t,
    {
        let item = items[t];
        proof {
            items@.lemma_take_succ_push(t as int);
            lemma_push_contains(items@.take(t as int), item);
            lemma_push_contains(changed@, OperationId(item));
        }
        changed.push(OperationId(item));
        t = t + 1;
    }
    assert(items@.take(items@.len() as int) =~= items@);
}

/// Appends those of the operations `items` that `cache` does not hold.
fn push_uncached(changed: &mut Vec<OperationId>, items: &Vec<u64>, cache: &HashMap<u64, u8>)
    ensures
        forall|x: u64|
            #![trigger final(changed)@.contains(OperationId(x))]
            final(changed)@.contains(OperationId(x)) <==> old(changed)@.contains(OperationId(x))
                || (items@.contains(x) && !cache@.contains_key(x)),
{
    let mut t: usize = 0;
    assert(items@.take(0) =~= Seq::<u64>::empty());
    while t < items.len()
        invariant
            t <= items.len(),
            forall|x: u64|
                #![trigger changed@.contains(OperationId(x))]
                changed@.contains(OperationId(x)) <==> old(changed)@.contains(OperationId(x))
                    || (items@.take(t as int).contains(x) && !cache@.contains_key(x)),
        decreases items.len() - t,
    {
        let item = items[t];
        proof {
            items@.lemma_take_succ_push(t as int);
            lemma_push_contains(items@.take(t as int), item);
            lemma_push_contains(changed@, OperationId(item));
        }
        if !cache.contains_key(&item) {
            changed.push(OperationId(item));
        }
        t = t + 1;
    }
    assert(items@.take(items@.len() as int) =~= items@);
}

impl Default for CachedOperationGraph {
    fn default() -> (r: Self)
        ensures
            r.operations.wf(),
            r.operations@ == Map::<u64, Operation>::empty(),
            r.cache@ == Map::<u64, u8>::empty(),
    {
        CachedOperationGraph::new()
    }
}

} // verus!

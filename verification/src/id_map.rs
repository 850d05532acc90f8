//! Identity-bearing entity stores: maps that issue their own keys from a
//! monotonic counter.

use crate::sequences::all_distinct;
use crate::sequences::lemma_lists_members;
use crate::sequences::lemma_push_fresh;
use std::collections::HashMap;
use vstd::prelude::*;

verus! {

broadcast use vstd::std_specs::hash::group_hash_axioms;

/// An identifier drawn from a monotonic 64-bit counter.
pub trait IncrId: Sized {
    /// The number that the identifier stands for.
    spec fn number(&self) -> u64;

    /// The number that the identifier stands for.
    fn val(&self) -> (r: u64)
        ensures
            r == self.number(),
    ;

    /// Steps the counter and returns the identifier it stood at.
    fn increment(&mut self) -> (r: Self)
        requires
            old(self).number() < u64::MAX,
        ensures
            r.number() == old(self).number(),
            final(self).number() == old(self).number() + 1,
    ;
}

/// Identifies a brush.
#[derive(Eq, Hash, PartialEq, Structural, PartialOrd, Ord, Debug, Clone, Copy)]
pub struct BrushId(pub u64);

/// Identifies a glyph.
#[derive(Eq, Hash, PartialEq, Structural, PartialOrd, Ord, Debug, Clone, Copy)]
pub struct GlyphId(pub u64);

/// Identifies a layer.
#[derive(Eq, Hash, PartialEq, Structural, PartialOrd, Ord, Debug, Clone, Copy)]
pub struct LayerId(pub u64);

/// Identifies an operation.
#[derive(Eq, Hash, PartialEq, Structural, PartialOrd, Ord, Debug, Clone, Copy)]
pub struct OperationId(pub u64);

impl IncrId for BrushId {
    open spec fn number(&self) -> u64 {
        self.0
    }

    fn val(&self) -> (r: u64) {
        self.0
    }

    fn increment(&mut self) -> (r: Self) {
        let out = BrushId(self.0);
        self.0 = self.0 + 1;
        out
    }
}

impl IncrId for GlyphId {
    open spec fn number(&self) -> u64 {
        self.0
    }

    fn val(&self) -> (r: u64) {
        self.0
    }

    fn increment(&mut self) -> (r: Self) {
        let out = GlyphId(self.0);
        self.0 = self.0 + 1;
        out
    }
}

impl IncrId for LayerId {
    open spec fn number(&self) -> u64 {
        self.0
    }

    fn val(&self) -> (r: u64) {
        self.0
    }

    fn increment(&mut self) -> (r: Self) {
        let out = LayerId(self.0);
        self.0 = self.0 + 1;
        out
    }
}

impl IncrId for OperationId {
    open spec fn number(&self) -> u64 {
        self.0
    }

    fn val(&self) -> (r: u64) {
        self.0
    }

    fn increment(&mut self) -> (r: Self) {
        let out = OperationId(self.0);
        self.0 = self.0 + 1;
        out
    }
}

impl Default for BrushId {
    fn default() -> (r: Self)
        ensures
            r.0 == 0,
    {
        BrushId(0)
    }
}

impl Default for GlyphId {
    fn default() -> (r: Self)
        ensures
            r.0 == 0,
    {
        GlyphId(0)
    }
}

impl Default for LayerId {
    fn default() -> (r: Self)
        ensures
            r.0 == 0,
    {
        LayerId(0)
    }
}

impl Default for OperationId {
    fn default() -> (r: Self)
        ensures
            r.0 == 0,
    {
        OperationId(0)
    }
}

/// A map from identifiers to values that issues fresh identifiers itself.
///
/// `map` holds the values by identifier number, `order` the identifiers in
/// the order in which they entered the map, and `id` the counter: the next
/// identifier to issue.
pub struct IdMap<K: IncrId + Copy, V> {
    pub map: HashMap<u64, V>,
    pub order: Vec<K>,
    pub id: K,
}

impl<K: IncrId + Copy, V> View for IdMap<K, V> {
    type V = Map<u64, V>;

    open spec fn view(&self) -> Map<u64, V> {
        self.map@
    }
}

impl<K: IncrId + Copy, V> IdMap<K, V> {
    /// The number of the next identifier to issue.
    pub open spec fn counter(&self) -> u64 {
        self.id.number()
    }

    /// The numbers of the identifiers, in the order in which they entered.
    pub open spec fn ids(&self) -> Seq<u64> {
        self.order@.map_values(|k: K| k.number())
    }

    /// `order` lists exactly the identifiers of the map, each once.
    pub open spec fn wf(&self) -> bool {
        &&& self.ids().no_duplicates()
        &&& forall|n: u64|
            #![trigger self.map@.contains_key(n)]
            #![trigger self.ids().contains(n)]
            self.map@.contains_key(n) <==> self.ids().contains(n)
    }

    /// Every identifier of the map lies below the counter, as holds of a map
    /// that was filled through `insert` and `alter` alone.
    pub open spec fn issued_only(&self) -> bool {
        forall|n: u64| #[trigger] self.map@.contains_key(n) ==> n < self.counter()
    }

    /// Whether the map is well formed.
    #[verifier::loop_isolation(false)]
    pub fn is_wf(&self) -> (r: bool)
        ensures
            r == self.wf(),
    {
        let mut numbers: Vec<u64> = Vec::new();
        let mut n: usize = 0;
        while n < self.order.len()
            invariant
                n <= self.order.len(),
                numbers@ == self.ids().take(n as int),
            decreases self.order.len() - n,
        {
            numbers.push(self.order[n].val());
            proof {
                assert(self.ids().take(n + 1) =~= self.ids().take(n as int).push(
                    self.ids()[n as int],
                ));
            }
            n = n + 1;
        }
        assert(self.ids().take(self.ids().len() as int) =~= self.ids());
        if !all_distinct(&numbers) {
            return false;
        }
        proof {
            lemma_lists_members(self.ids(), self.map@.dom());
        }
        if numbers.len() != self.map.len() {
            return false;
        }
        let mut i: usize = 0;
        while i < numbers.len()
            invariant
                i <= numbers.len(),
                forall|j: int| 0 <= j < i ==> self.map@.contains_key(#[trigger] numbers@[j]),
            decreases numbers.len() - i,
        {
            if !self.map.contains_key(&numbers[i]) {
                return false;
            }
            i = i + 1;
        }
        true
    }

    /// An empty map that counts on from `start`.
    pub fn starting_at(start: K) -> (r: Self)
        ensures
            r.wf(),
            r.issued_only(),
            r@ == Map::<u64, V>::empty(),
            r.counter() == start.number(),
            r.ids() == Seq::<u64>::empty(),
    {
        let r = IdMap { map: HashMap::new(), order: Vec::new(), id: start };
        assert(r.ids() =~= Seq::<u64>::empty());
        r
    }

    /// Stores `item` under a fresh identifier, the counter's value, and
    /// steps the counter.
    pub fn insert(&mut self, item: V) -> (id: K)
        requires
            old(self).wf(),
            old(self).counter() < u64::MAX,
            !old(self)@.contains_key(old(self).counter()),
        ensures
            final(self).wf(),
            id.number() == old(self).counter(),
            final(self).counter() == old(self).counter() + 1,
            final(self)@ == old(self)@.insert(id.number(), item),
            final(self).ids() == old(self).ids().push(id.number()),
            old(self).issued_only() ==> final(self).issued_only(),
    {
        let uniq = self.id.increment();
        let n = uniq.val();
        self.order.push(uniq);
        self.map.insert(n, item);
        proof {
            assert(self.ids() =~= old(self).ids().push(n));
            lemma_push_fresh(old(self).ids(), n);
            assert forall|k: u64| self.map@.contains_key(k) <==> self.ids().contains(k) by {
                assert(old(self).map@.contains_key(k) <==> old(self).ids().contains(k));
            }
        }
        uniq
    }

    /// Replaces the value stored under `id`.
    pub fn alter(&mut self, id: K, item: V)
        requires
            old(self).wf(),
            old(self)@.contains_key(id.number()),
        ensures
            final(self).wf(),
            final(self).counter() == old(self).counter(),
            final(self)@ == old(self)@.insert(id.number(), item),
            final(self).ids() == old(self).ids(),
            old(self).issued_only() ==> final(self).issued_only(),
    {
        let n = id.val();
        self.map.insert(n, item);
        proof {
            assert forall|k: u64| self.map@.contains_key(k) <==> self.ids().contains(k) by {
                assert(old(self).map@.contains_key(k) <==> old(self).ids().contains(k));
            }
        }
    }

    /// Stores `item` under `id`, whether or not the map held `id`.
    pub fn force(&mut self, id: K, item: V)
        requires
            old(self).wf(),
        ensures
            final(self).wf(),
            final(self).counter() == old(self).counter(),
            final(self)@ == old(self)@.insert(id.number(), item),
            final(self).ids() == if old(self)@.contains_key(id.number()) {
                old(self).ids()
            } else {
                old(self).ids().push(id.number())
            },
    {
        let n = id.val();
        if !self.map.contains_key(&n) {
            self.order.push(id);
            proof {
                assert(self.ids() =~= old(self).ids().push(n));
                lemma_push_fresh(old(self).ids(), n);
            }
        }
        self.map.insert(n, item);
        proof {
            assert forall|k: u64| self.map@.contains_key(k) <==> self.ids().contains(k) by {
                assert(old(self).map@.contains_key(k) <==> old(self).ids().contains(k));
            }
        }
    }

    /// The value stored under `key`, if any.
    pub fn get(&self, key: &K) -> (r: Option<&V>)
        ensures
            match r {
                Some(v) => self@.contains_key(key.number()) && *v == self@[key.number()],
                None => !self@.contains_key(key.number()),
            },
    {
        let n = key.val();
        self.map.get(&n)
    }

    /// The value stored under `key`, which the map must hold.
    pub fn get_unchecked(&self, key: &K) -> (r: &V)
        requires
            self@.contains_key(key.number()),
        ensures
            *r == self@[key.number()],
    {
        let n = key.val();
        match self.map.get(&n) {
            Some(v) => v,
            None => vstd::pervasive::unreached(),
        }
    }

    /// The identifiers of the map, in the order in which they entered.
    pub fn list_ids(&self) -> (r: Vec<K>)
        ensures
            r@ == self.order@,
    {
        let mut out: Vec<K> = Vec::new();
        let mut i: usize = 0;
        while i < self.order.len()
            invariant
                i <= self.order.len(),
                out@ == self.order@.take(i as int),
            decreases self.order.len() - i,
        {
            out.push(self.order[i]);
            proof {
                assert(self.order@.take(i + 1) =~= self.order@.take(i as int).push(
                    self.order@[i as int],
                ));
            }
            i = i + 1;
        }
        assert(self.order@.take(self.order@.len() as int) =~= self.order@);
        out
    }
}

/// An identifier that a map holds stays in the map, with its value, through
/// every insertion, alteration and forced store under another identifier;
/// under its own identifier, the new value takes the place of the old.
pub proof fn law_identifier_stays<V>(m: Map<u64, V>, id: u64, other: u64, item: V)
    requires
        m.contains_key(id),
    ensures
        m.insert(other, item).contains_key(id),
        other != id ==> m.insert(other, item)[id] == m[id],
        other == id ==> m.insert(other, item)[id] == item,
{
}

} // verus!

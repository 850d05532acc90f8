//! Facts and helpers about sequences that several modules share.

use vstd::prelude::*;

verus! {

/// Pushing an element that a duplicate-free sequence lacks keeps it
/// duplicate-free and adds exactly that element.
pub proof fn lemma_push_fresh(s: Seq<u64>, x: u64)
    requires
        s.no_duplicates(),
        !s.contains(x),
    ensures
        s.push(x).no_duplicates(),
        forall|k: u64| s.push(x).contains(k) <==> (s.contains(k) || k == x),
{
    let t = s.push(x);
    assert forall|k: u64| t.contains(k) <==> (s.contains(k) || k == x) by {
        if s.contains(k) {
            let i = choose|i: int| 0 <= i < s.len() && s[i] == k;
            assert(t[i] == k);
        }
        if k == x {
            assert(t[s.len() as int] == k);
        }
        if t.contains(k) {
            let i = choose|i: int| 0 <= i < t.len() && t[i] == k;
            if i < s.len() {
                assert(s[i] == k);
            }
        }
    }
    assert forall|i: int, j: int| 0 <= i < t.len() && 0 <= j < t.len() && i != j implies t[i]
        != t[j] by {
        if i < s.len() && j < s.len() {
        } else if i < s.len() {
            assert(s[i] != x);
        } else {
            assert(s[j] != x);
        }
    }
}

/// What pushing adds to a sequence.
pub proof fn lemma_push_contains<T>(s: Seq<T>, v: T)
    ensures
        forall|w: T| #[trigger] s.push(v).contains(w) <==> s.contains(w) || w == v,
{
    let t = s.push(v);
    assert forall|w: T| #[trigger] t.contains(w) <==> s.contains(w) || w == v by {
        if s.contains(w) {
            let i = choose|i: int| 0 <= i < s.len() && s[i] == w;
            assert(t[i] == w);
        }
        if w == v {
            assert(t[s.len() as int] == w);
        }
        if t.contains(w) {
            let i = choose|i: int| 0 <= i < t.len() && t[i] == w;
            if i < s.len() {
                assert(s[i] == w);
            }
        }
    }
}

/// Filtering keeps a sequence free of duplicates.
pub proof fn lemma_filter_no_duplicates(s: Seq<u64>, pred: spec_fn(u64) -> bool)
    requires
        s.no_duplicates(),
    ensures
        s.filter(pred).no_duplicates(),
    decreases s.len(),
{
    reveal(Seq::filter);
    if s.len() > 0 {
        let rest = s.drop_last();
        lemma_filter_no_duplicates(rest, pred);
        let kept = rest.filter(pred);
        if pred(s.last()) {
            assert(!kept.contains(s.last())) by {
                if kept.contains(s.last()) {
                    rest.lemma_filter_contains_rev(pred, s.last());
                    let i = choose|i: int| 0 <= i < rest.len() && rest[i] == s.last();
                    assert(s[i] == s[s.len() - 1]);
                }
            }
            lemma_push_fresh(kept, s.last());
        }
    }
}

/// Whether `x` occurs in `v`.
pub fn vec_contains(v: &Vec<u64>, x: u64) -> (r: bool)
    ensures
        r == v@.contains(x),
{
    let mut i: usize = 0;
    while i < v.len()
        invariant
            i <= v.len(),
            forall|k: int| 0 <= k < i ==> v@[k] != x,
        decreases v.len() - i,
    {
        if v[i] == x {
            return true;
        }
        i = i + 1;
    }
    false
}

/// Whether no value occurs twice in `v`.
pub fn all_distinct(v: &Vec<u64>) -> (r: bool)
    ensures
        r == v@.no_duplicates(),
{
    let mut i: usize = 0;
    while i < v.len()
        invariant
            i <= v.len(),
            forall|a: int, b: int| 0 <= a < b < i ==> v@[a] != v@[b],
        decreases v.len() - i,
    {
        let mut j: usize = 0;
        while j < i
            invariant
                j <= i,
                i < v.len(),
                forall|a: int| 0 <= a < j ==> v@[a] != v@[i as int],
            decreases i - j,
        {
            if v[j] == v[i] {
                return false;
            }
            j = j + 1;
        }
        i = i + 1;
    }
    assert forall|a: int, b: int| 0 <= a < v@.len() && 0 <= b < v@.len() && a != b implies v@[a]
        != v@[b] by {
        if a < b {
        } else {
            assert(v@[b] != v@[a]);
        }
    }
    true
}

/// A duplicate-free list holds exactly the members of a finite set when it
/// is as long as the set is large and each of its entries is a member.
pub proof fn lemma_lists_members(order: Seq<u64>, members: Set<u64>)
    requires
        order.no_duplicates(),
        members.finite(),
    ensures
        (forall|k: u64| members.contains(k) <==> order.contains(k)) <==> (order.len()
            == members.len() && forall|i: int|
            0 <= i < order.len() ==> members.contains(#[trigger] order[i])),
{
    broadcast use vstd::seq_lib::seq_to_set_is_finite;

    order.unique_seq_to_set();
    if forall|k: u64| members.contains(k) <==> order.contains(k) {
        assert(order.to_set() =~= members);
        assert forall|i: int| 0 <= i < order.len() implies members.contains(#[trigger] order[i]) by {
            assert(order.contains(order[i]));
        }
    }
    if order.len() == members.len() && forall|i: int|
        0 <= i < order.len() ==> members.contains(#[trigger] order[i]) {
        assert(order.to_set().subset_of(members)) by {
            assert forall|k: u64| order.to_set().contains(k) implies members.contains(k) by {
                let i = choose|i: int| 0 <= i < order.len() && order[i] == k;
                assert(members.contains(order[i]));
            }
        }
        vstd::set_lib::lemma_subset_equality(order.to_set(), members);
        assert forall|k: u64| members.contains(k) <==> order.contains(k) by {
            assert(order.to_set().contains(k) <==> order.contains(k));
        }
    }
}

} // verus!

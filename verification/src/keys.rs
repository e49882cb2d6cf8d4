//! Ordered keys of the staff-indexed maps of a song.
//!
//! Piece and section starts are kept in `BTreeMap`s keyed by staff number. The
//! helpers here hand out their keys in ascending order, and give that order a
//! mathematical name so that contracts can speak of "the i-th piece start".
use vstd::prelude::*;
use std::collections::BTreeMap;
use vstd::std_specs::iter::IteratorSpec;
use vstd::std_specs::cmp::OrdSpec;

verus! {

broadcast use vstd::std_specs::btree::group_btree_axioms;

/// A sequence of numbers that strictly increases.
pub open spec fn increasing(s: Seq<usize>) -> bool {
    forall|i: int, j: int| 0 <= i < j < s.len() ==> s[i] < s[j]
}

/// The elements of a set of staff numbers, in ascending order.
pub open spec fn key_order(d: Set<usize>) -> Seq<usize> {
    choose|s: Seq<usize>| increasing(s) && s.to_set() == d
}

/// Two increasing sequences with the same elements are the same sequence.
pub proof fn lemma_increasing_unique(a: Seq<usize>, b: Seq<usize>)
    requires
        increasing(a),
        increasing(b),
        a.to_set() == b.to_set(),
    ensures
        a == b,
    decreases a.len(),
{
    if a.len() == 0 {
        if b.len() > 0 {
            assert(b.to_set().contains(b[0]));
            assert(!a.to_set().contains(b[0]));
        }
        assert(a =~= b);
    } else {
        assert(a.to_set().contains(a[0]));
        assert(b.to_set().contains(a[0]));
        let ib = choose|k: int| 0 <= k < b.len() && b[k] == a[0];
        assert(b.to_set().contains(b[0]));
        let ia = choose|k: int| 0 <= k < a.len() && a[k] == b[0];
        assert(a[0] <= a[ia]);
        assert(b[0] <= b[ib]);
        assert(a[0] == b[0]);
        let ra = a.drop_first();
        let rb = b.drop_first();
        assert forall|x: usize| ra.to_set().contains(x) implies rb.to_set().contains(x) by {
            let k = choose|k: int| 0 <= k < ra.len() && ra[k] == x;
            assert(a[k + 1] == x);
            assert(a.to_set().contains(x));
            let m = choose|m: int| 0 <= m < b.len() && b[m] == x;
            assert(x != a[0]);
            assert(m != 0);
            assert(rb[m - 1] == x);
        }
        assert forall|x: usize| rb.to_set().contains(x) implies ra.to_set().contains(x) by {
            let k = choose|k: int| 0 <= k < rb.len() && rb[k] == x;
            assert(b[k + 1] == x);
            assert(b.to_set().contains(x));
            let m = choose|m: int| 0 <= m < a.len() && a[m] == x;
            assert(x != b[0]);
            assert(m != 0);
            assert(ra[m - 1] == x);
        }
        assert(ra.to_set() =~= rb.to_set());
        lemma_increasing_unique(ra, rb);
        assert(a =~= seq![a[0]] + ra);
        assert(b =~= seq![b[0]] + rb);
    }
}

/// An increasing sequence holding the elements of `d` is the ascending order of `d`.
pub proof fn lemma_key_order_is(s: Seq<usize>, d: Set<usize>)
    requires
        increasing(s),
        s.to_set() == d,
    ensures
        key_order(d) == s,
{
    let k = key_order(d);
    assert(increasing(k) && k.to_set() == d);
    lemma_increasing_unique(k, s);
}

/// An increasing sequence of the elements of `d` below `n`.
proof fn increasing_below(d: Set<usize>, n: int) -> (s: Seq<usize>)
    requires
        0 <= n <= usize::MAX + 1,
    ensures
        increasing(s),
        s.to_set() == d.filter(|k: usize| k < n),
        forall|i: int| 0 <= i < s.len() ==> s[i] < n,
    decreases n,
{
    if n == 0 {
        let s = Seq::<usize>::empty();
        assert(s.to_set() =~= d.filter(|k: usize| k < n));
        s
    } else {
        let t = increasing_below(d, n - 1);
        let top = (n - 1) as usize;
        if d.contains(top) {
            let s = t.push(top);
            assert forall|x: usize| s.to_set().contains(x) <==> d.filter(|k: usize| k < n).contains(x) by {
                if s.to_set().contains(x) {
                    let i = choose|i: int| 0 <= i < s.len() && s[i] == x;
                    if i < t.len() {
                        assert(t[i] == x);
                        assert(t.to_set().contains(x));
                    }
                }
                if d.filter(|k: usize| k < n).contains(x) && x != top {
                    assert(d.filter(|k: usize| k < n - 1).contains(x));
                    assert(t.to_set().contains(x));
                    let i = choose|i: int| 0 <= i < t.len() && t[i] == x;
                    assert(s[i] == x);
                }
                if x == top {
                    assert(s[t.len() as int] == x);
                }
            }
            assert(s.to_set() =~= d.filter(|k: usize| k < n));
            s
        } else {
            assert forall|x: usize| t.to_set().contains(x) <==> d.filter(|k: usize| k < n).contains(x) by {
                if d.filter(|k: usize| k < n).contains(x) {
                    assert(x != top);
                    assert(d.filter(|k: usize| k < n - 1).contains(x));
                }
            }
            assert(t.to_set() =~= d.filter(|k: usize| k < n));
            t
        }
    }
}

/// Every set of staff numbers has an ascending order.
pub proof fn lemma_key_order_exists(d: Set<usize>)
    ensures
        increasing(key_order(d)),
        key_order(d).to_set() == d,
{
    let s = increasing_below(d, usize::MAX + 1);
    assert(d.filter(|k: usize| k < usize::MAX + 1) =~= d);
    lemma_key_order_is(s, d);
}

/// Staff numbers obey the order model that vstd's `BTreeMap` specifications rest on.
pub proof fn lemma_usize_keys_ordered()
    ensures
        vstd::std_specs::btree::key_obeys_cmp_spec::<usize>(),
        vstd::laws_cmp::obeys_cmp::<usize>(),
{
    broadcast use vstd::laws_cmp::group_laws_cmp;
    broadcast use vstd::std_specs::btree::axiom_key_obeys_cmp_spec_meaning;
}

/// The keys of a map in ascending order.
pub fn sorted_keys<V>(m: &BTreeMap<usize, V>) -> (r: Vec<usize>)
    ensures
        r@ == key_order(m@.dom()),
        increasing(r@),
        r@.to_set() == m@.dom(),
{
    proof {
        lemma_usize_keys_ordered();
    }
    let mut r: Vec<usize> = Vec::new();
    let ghost s = vstd::std_specs::btree::spec_keys_iter(m).remaining();
    proof {
        vstd::std_specs::btree::axiom_spec_keys_iter(m);
        vstd::std_specs::btree::axiom_increasing_seq_meaning(s);
    }
    let keys = m.keys();
    for k in it: keys
        invariant
            it.seq() == s,
            r@.len() == it.index(),
            forall|i: int| 0 <= i < it.index() ==> r@[i] == *it.seq()[i],
    {
        r.push(*k);
    }
    proof {
        broadcast use vstd::laws_cmp::group_laws_cmp;

        assert(r@ =~= s.unref());
        assert forall|i: int, j: int| 0 <= i < j < r@.len() implies r@[i] < r@[j] by {
            assert(OrdSpec::cmp_spec(&s[i], &s[j]) is Less);
        }
        lemma_key_order_is(r@, m@.dom());
    }
    r
}

} // verus!

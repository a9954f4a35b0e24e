//! Ascending order of a few bytes.
use vstd::prelude::*;
use vstd::relations::*;
use crate::perm::{swap_seq, lemma_swap_multiset};

verus! {

broadcast use {vstd::seq_lib::group_to_multiset_ensures, vstd::multiset::group_multiset_axioms};

/// Byte order.
pub open spec fn byte_leq() -> spec_fn(u8, u8) -> bool {
    |a: u8, b: u8| a <= b
}

/// The bytes of `s` in ascending order.
pub open spec fn sorted_bytes(s: Seq<u8>) -> Seq<u8> {
    s.sort_by(byte_leq())
}

/// `s` is in ascending order.
pub open spec fn is_ascending(s: Seq<u8>) -> bool {
    forall|i: int, j: int| 0 <= i <= j < s.len() ==> s[i] <= s[j]
}

proof fn lemma_byte_leq_total()
    ensures
        total_ordering(byte_leq()),
{
}

/// Two ascending sequences with the same elements are equal.
pub proof fn lemma_ascending_unique(a: Seq<u8>, b: Seq<u8>)
    requires
        is_ascending(a),
        is_ascending(b),
        a.to_multiset() =~= b.to_multiset(),
    ensures
        a =~= b,
    decreases a.len(),
{
    assert(a.len() == a.to_multiset().len());
    assert(b.len() == b.to_multiset().len());
    if a.len() > 0 {
        assert(a.contains(a[0]));
        assert(b.contains(b[0]));
        assert(a.to_multiset().count(a[0]) > 0);
        assert(b.to_multiset().count(b[0]) > 0);
        assert(b.contains(a[0]));
        assert(a.contains(b[0]));
        let k = choose|k: int| 0 <= k < b.len() && b[k] == a[0];
        let l = choose|l: int| 0 <= l < a.len() && a[l] == b[0];
        assert(b[0] <= b[k]);
        assert(a[0] <= a[l]);
        assert(a[0] == b[0]);
        assert(a.drop_first() =~= a.remove(0));
        assert(b.drop_first() =~= b.remove(0));
        assert(a.drop_first().to_multiset() =~= a.to_multiset().remove(a[0]));
        assert(b.drop_first().to_multiset() =~= b.to_multiset().remove(b[0]));
        lemma_ascending_unique(a.drop_first(), b.drop_first());
        assert forall|i: int| 0 <= i < a.len() implies a[i] == b[i] by {
            if i > 0 {
                assert(a[i] == a.drop_first()[i - 1]);
                assert(b[i] == b.drop_first()[i - 1]);
            }
        }
    }
}

/// An ascending arrangement of the elements of `s` is `sorted_bytes(s)`.
pub proof fn lemma_is_sorted_bytes(s: Seq<u8>, t: Seq<u8>)
    requires
        is_ascending(t),
        t.to_multiset() =~= s.to_multiset(),
    ensures
        t =~= sorted_bytes(s),
{
    lemma_byte_leq_total();
    s.lemma_sort_by_ensures(byte_leq());
    let r = sorted_bytes(s);
    assert(is_ascending(r)) by {
        assert forall|i: int, j: int| 0 <= i <= j < r.len() implies r[i] <= r[j] by {
            if i < j {
                assert(byte_leq()(r[i], r[j]));
            }
        }
    }
    lemma_ascending_unique(t, r);
}

/// Sorting keeps the length, and keeps every element below a bound.
pub proof fn lemma_sorted_bytes_bounded(s: Seq<u8>, bound: u8)
    requires
        forall|k: int| 0 <= k < s.len() ==> s[k] < bound,
    ensures
        sorted_bytes(s).len() == s.len(),
        forall|k: int| 0 <= k < sorted_bytes(s).len() ==> #[trigger] sorted_bytes(s)[k] < bound,
{
    lemma_byte_leq_total();
    s.lemma_sort_by_ensures(byte_leq());
    let r = sorted_bytes(s);
    assert(r.len() == r.to_multiset().len());
    assert(s.len() == s.to_multiset().len());
    assert forall|k: int| 0 <= k < r.len() implies #[trigger] r[k] < bound by {
        assert(r.contains(r[k]));
        let j = choose|j: int| 0 <= j < s.len() && s[j] == r[k];
    }
}

/// `a` put in ascending order (selection sort).
pub fn sort_ten(a: &mut [u8; 10])
    ensures
        final(a)@ =~= sorted_bytes(old(a)@),
{
    let ghost orig = a@;
    let mut i: usize = 0;
    while i < 10
        invariant
            0 <= i <= 10,
            a@.len() == 10,
            a@.to_multiset() =~= orig.to_multiset(),
            forall|p: int, q: int| 0 <= p <= q < i ==> a@[p] <= a@[q],
            forall|p: int, q: int| 0 <= p < i <= q < 10 ==> a@[p] <= a@[q],
        decreases 10 - i,
    {
        let mut m: usize = i;
        let mut k: usize = i + 1;
        while k < 10
            invariant
                i < 10,
                i <= m < 10,
                i + 1 <= k <= 10,
                m < k,
                a@.len() == 10,
                forall|q: int| i <= q < k ==> a@[m as int] <= a@[q],
            decreases 10 - k,
        {
            if a[k] < a[m] {
                m = k;
            }
            k = k + 1;
        }
        let ghost before = a@;
        let t = a[i];
        a[i] = a[m];
        a[m] = t;
        proof {
            assert(a@ =~= swap_seq(before, i as int, m as int));
            lemma_swap_multiset(before, i as int, m as int);
        }
        i = i + 1;
    }
    proof {
        lemma_is_sorted_bytes(orig, a@);
    }
}

} // verus!

//! How many distinct ids fit in a range.

use vstd::prelude::*;
use vstd::set_lib::{lemma_int_range, lemma_len_subset, lemma_subset_equality, set_int_range};

verus! {

/// The ids of `s` as integers.
pub open spec fn as_ints(s: Seq<u8>) -> Seq<int> {
    s.map_values(|x: u8| x as int)
}

proof fn lemma_as_ints_distinct(s: Seq<u8>)
    requires
        s.no_duplicates(),
    ensures
        as_ints(s).no_duplicates(),
        as_ints(s).len() == s.len(),
{
    let m = as_ints(s);
    assert forall|i: int, j: int| 0 <= i < m.len() && 0 <= j < m.len() && i != j implies m[i]
        != m[j] by {
        assert(m[i] == s[i] as int);
        assert(m[j] == s[j] as int);
    }
}

/// Distinct ids that all lie in `lo..hi` are at most `hi - lo` many.
pub proof fn lemma_distinct_ids_bounded(s: Seq<u8>, lo: int, hi: int)
    requires
        lo <= hi,
        s.no_duplicates(),
        forall|k: int| 0 <= k < s.len() ==> lo <= #[trigger] s[k] < hi,
    ensures
        s.len() <= hi - lo,
{
    let m = as_ints(s);
    lemma_as_ints_distinct(s);
    lemma_int_range(lo, hi);
    assert forall|x: int| m.to_set().contains(x) implies set_int_range(lo, hi).contains(x) by {
        let k = choose|k: int| 0 <= k < m.len() && m[k] == x;
        assert(m[k] == s[k] as int);
    }
    lemma_len_subset(m.to_set(), set_int_range(lo, hi));
    m.unique_seq_to_set();
}

/// `hi - lo` distinct ids that all lie in `lo..hi` are all of them.
pub proof fn lemma_distinct_ids_cover(s: Seq<u8>, lo: int, hi: int)
    requires
        0 <= lo <= hi <= 256,
        s.no_duplicates(),
        forall|k: int| 0 <= k < s.len() ==> lo <= #[trigger] s[k] < hi,
        s.len() == hi - lo,
    ensures
        forall|i: int| lo <= i < hi ==> #[trigger] s.contains(i as u8),
{
    let m = as_ints(s);
    lemma_as_ints_distinct(s);
    lemma_int_range(lo, hi);
    assert forall|x: int| m.to_set().contains(x) implies set_int_range(lo, hi).contains(x) by {
        let k = choose|k: int| 0 <= k < m.len() && m[k] == x;
        assert(m[k] == s[k] as int);
    }
    lemma_len_subset(m.to_set(), set_int_range(lo, hi));
    m.unique_seq_to_set();
    lemma_subset_equality(m.to_set(), set_int_range(lo, hi));
    assert forall|i: int| lo <= i < hi implies #[trigger] s.contains(i as u8) by {
        assert(set_int_range(lo, hi).contains(i));
        assert(m.to_set().contains(i));
        let k = choose|k: int| 0 <= k < m.len() && m[k] == i;
        assert(m[k] == s[k] as int);
        assert(s[k] == i as u8);
    }
}

/// Distinct ids among which every id of `lo..hi` occurs are at least
/// `hi - lo` many.
pub proof fn lemma_covering_ids_many(s: Seq<u8>, lo: int, hi: int)
    requires
        0 <= lo <= hi <= 256,
        s.no_duplicates(),
        forall|i: int| lo <= i < hi ==> #[trigger] s.contains(i as u8),
    ensures
        s.len() >= hi - lo,
{
    let m = as_ints(s);
    lemma_as_ints_distinct(s);
    lemma_int_range(lo, hi);
    assert forall|x: int| set_int_range(lo, hi).contains(x) implies m.to_set().contains(x) by {
        assert(s.contains(x as u8));
        let k = choose|k: int| 0 <= k < s.len() && s[k] == x as u8;
        assert(m[k] == s[k] as int);
        assert(m.contains(x));
    }
    vstd::seq_lib::seq_to_set_is_finite(m);
    lemma_len_subset(set_int_range(lo, hi), m.to_set());
    m.unique_seq_to_set();
}

} // verus!

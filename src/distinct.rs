//! A counting fact about sequences of distinct small ids.
use vstd::prelude::*;

verus! {

/// A sequence of distinct ids below `n` that leaves out the id `m` has
/// fewer than `n` entries.
pub proof fn lemma_distinct_short(s: Seq<usize>, m: usize, n: int)
    requires
        s.no_duplicates(),
        0 <= m < n,
        forall|k: int| 0 <= k < s.len() ==> #[trigger] s[k] < n && s[k] != m,
    ensures
        s.len() < n,
{
    let si = s.map_values(|v: usize| v as int);
    assert(si.no_duplicates());
    si.unique_seq_to_set();
    let r = vstd::set_lib::set_int_range(0, n).remove(m as int);
    vstd::set_lib::lemma_int_range(0, n);
    assert forall|a: int| si.to_set().contains(a) implies r.contains(a) by {
        assert(si.contains(a));
        let k = choose|k: int| 0 <= k < si.len() && si[k] == a;
        assert(s[k] < n && s[k] != m);
    }
    assert(si.to_set().subset_of(r));
    vstd::set_lib::lemma_len_subset(si.to_set(), r);
}

} // verus!

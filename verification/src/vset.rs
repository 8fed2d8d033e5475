//! Vertex sets, kept as strictly increasing vectors of 16-bit identifiers.

use vstd::prelude::*;

verus! {

broadcast use vstd::seq_lib::group_seq_properties;

/// A vertex set is a strictly increasing vector: sorted and free of duplicates.
pub open spec fn sorted_set(s: Seq<u16>) -> bool {
    forall|i: int, j: int| 0 <= i < j < s.len() ==> s[i] < s[j]
}

/// Every position of a strictly increasing sequence is at least its index.
proof fn lemma_sorted_index_lower(s: Seq<u16>, i: int)
    requires
        sorted_set(s),
        0 <= i < s.len(),
    ensures
        i <= s[i],
    decreases i,
{
    if i > 0 {
        lemma_sorted_index_lower(s, i - 1);
    }
}

/// A strictly increasing vector of 16-bit identifiers has at most 2^16 entries.
pub proof fn lemma_sorted_set_len(s: Seq<u16>)
    requires
        sorted_set(s),
    ensures
        s.len() <= 0x10000,
{
    if s.len() > 0x10000 {
        lemma_sorted_index_lower(s, 0x10000);
    }
}

/// A strictly increasing sequence has no duplicates.
pub proof fn lemma_sorted_set_no_duplicates(s: Seq<u16>)
    requires
        sorted_set(s),
    ensures
        s.no_duplicates(),
{
}

/// Appending the next element of a sorted source keeps a filtered copy sorted,
/// provided everything collected so far came from the prefix before it.
pub proof fn lemma_sorted_push(r: Seq<u16>, s: Seq<u16>, i: int)
    requires
        sorted_set(s),
        sorted_set(r),
        0 <= i < s.len(),
        forall|k: int| 0 <= k < r.len() ==> s.subrange(0, i).contains(#[trigger] r[k]),
    ensures
        sorted_set(r.push(s[i])),
        forall|k: int|
            0 <= k < r.push(s[i]).len() ==> s.subrange(0, i + 1).contains(
                #[trigger] r.push(s[i])[k],
            ),
{
    let p = r.push(s[i]);
    assert forall|a: int, b: int| 0 <= a < b < p.len() implies p[a] < p[b] by {
        if b == p.len() - 1 {
            let m = choose|m: int| 0 <= m < i && s.subrange(0, i)[m] == r[a];
            assert(s[m] == r[a]);
        }
    }
    assert forall|k: int| 0 <= k < p.len() implies s.subrange(0, i + 1).contains(p[k]) by {
        if k < r.len() {
            let m = choose|m: int| 0 <= m < i && s.subrange(0, i)[m] == r[k];
            assert(s.subrange(0, i + 1)[m] == p[k]);
        } else {
            assert(s.subrange(0, i + 1)[i] == p[k]);
        }
    }
}

/// An element-by-element copy of a vector of identifiers.
pub fn copy_vec(v: &Vec<u16>) -> (r: Vec<u16>)
    ensures
        r@ == v@,
{
    let mut r: Vec<u16> = Vec::new();
    let mut i: usize = 0;
    while i < v.len()
        invariant
            i <= v@.len(),
            r@ == v@.subrange(0, i as int),
        decreases v@.len() - i,
    {
        proof {
            assert(v@.subrange(0, i + 1) =~= v@.subrange(0, i as int).push(v@[i as int]));
        }
        r.push(v[i]);
        i += 1;
    }
    proof {
        assert(v@.subrange(0, v@.len() as int) =~= v@);
    }
    r
}

/// Membership test by linear scan.
pub fn vset_contains(s: &Vec<u16>, x: u16) -> (r: bool)
    ensures
        r == s@.contains(x),
{
    let mut i: usize = 0;
    while i < s.len()
        invariant
            i <= s@.len(),
            forall|k: int| 0 <= k < i ==> s@[k] != x,
        decreases s@.len() - i,
    {
        if s[i] == x {
            return true;
        }
        i += 1;
    }
    false
}

/// Removes one identifier, keeping the set sorted.
pub fn vset_remove(s: &Vec<u16>, x: u16) -> (r: Vec<u16>)
    requires
        sorted_set(s@),
    ensures
        sorted_set(r@),
        forall|y: u16| r@.contains(y) <==> s@.contains(y) && y != x,
        s@.contains(x) ==> r@.len() == s@.len() - 1,
        !s@.contains(x) ==> r@.len() == s@.len(),
{
    let mut r: Vec<u16> = Vec::new();
    let mut i: usize = 0;
    while i < s.len()
        invariant
            i <= s@.len(),
            sorted_set(s@),
            sorted_set(r@),
            forall|k: int| 0 <= k < r@.len() ==> s@.subrange(0, i as int).contains(#[trigger] r@[k]),
            forall|y: u16| r@.contains(y) <==> s@.subrange(0, i as int).contains(y) && y != x,
            r@.len() == (if s@.subrange(0, i as int).contains(x) {
                i - 1
            } else {
                i as int
            }),
        decreases s@.len() - i,
    {
        proof {
            assert(s@.subrange(0, i + 1) =~= s@.subrange(0, i as int).push(s@[i as int]));
            if s@[i as int] == x && s@.subrange(0, i as int).contains(x) {
                let m = choose|m: int| 0 <= m < i && s@.subrange(0, i as int)[m] == x;
                assert(s@[m] == s@[i as int]);
            }
        }
        if s[i] != x {
            proof {
                lemma_sorted_push(r@, s@, i as int);
            }
            r.push(s[i]);
        }
        i += 1;
    }
    proof {
        assert(s@.subrange(0, s@.len() as int) =~= s@);
    }
    r
}

} // verus!

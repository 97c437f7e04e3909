//! The stated laws of the index, proved once and for all.

use vstd::prelude::*;

verus! {

use crate::builder::keys_unique;
use crate::builder::lemma_map_of_pairs_domain;
use crate::builder::lemma_map_of_pairs_unique;
use crate::builder::map_of_pairs;
use crate::builder::spec_index;
use crate::codes::all_digits;
use crate::codes::chars_of_key;
use crate::codes::key_of_chars;
use crate::codes::lemma_chars_of_key_prefix;
use crate::codes::lemma_chars_of_key_roundtrip;
use crate::codes::lemma_normalize_digits;
use crate::codes::spec_normalize;
use crate::engine::filtered_matches;
use crate::engine::lookup_result;
use crate::engine::map_wf;
use crate::records::Class;
use crate::records::RecordV;
use crate::records::SourceNode;

/// Every indexed record can be found again under its own code: the code of
/// the record stored at key `k` normalizes back to exactly `k`, so an exact
/// lookup of that code returns that record.
pub proof fn lemma_indexed_code_roundtrip(m: Map<Seq<u8>, RecordV>, k: Seq<u8>)
    requires
        map_wf(m),
        m.contains_key(k),
    ensures
        m[k].code == chars_of_key(k),
        key_of_chars(m[k].code) == k,
        spec_normalize(m[k].code) == Some(k),
{
    lemma_chars_of_key_roundtrip(k);
    lemma_normalize_digits(chars_of_key(k));
}

/// A prefix search always contains the exact match itself when it exists:
/// the record indexed at `key` appears in any result that satisfies the
/// prefix-search contract for `key`.
pub proof fn lemma_matches_include_exact(
    m: Map<Seq<u8>, RecordV>,
    key: Seq<u8>,
    found: Seq<Class>,
)
    requires
        filtered_matches(m, key, |r: RecordV| true, found),
        m.contains_key(key),
    ensures
        exists|i: int| 0 <= i < found.len() && (#[trigger] found[i])@ == m[key],
{
    assert(key.is_prefix_of(key)) by {
        assert(key.subrange(0, key.len() as int) =~= key);
    }
    assert((|r: RecordV| true)(m[key]));
}

/// Every entry of a strict-descendant search starts with the searched code
/// and differs from it.
pub proof fn lemma_children_are_strict_descendants(
    m: Map<Seq<u8>, RecordV>,
    key: Seq<u8>,
    found: Seq<Class>,
    i: int,
)
    requires
        map_wf(m),
        filtered_matches(m, key, |r: RecordV| r.code != chars_of_key(key), found),
        0 <= i < found.len(),
    ensures
        chars_of_key(key).is_prefix_of(found[i]@.code),
        found[i]@.code != chars_of_key(key),
{
    let k = key_of_chars(found[i]@.code);
    assert(m.contains_key(k) && m[k] == found[i]@ && key.is_prefix_of(k));
    lemma_indexed_code_roundtrip(m, k);
    lemma_chars_of_key_prefix(key, k);
}

/// For a clean digit code of length above one whose truncated prefix is
/// indexed, the parent lookup returns the record whose code is the input
/// with its last digit removed.
pub proof fn lemma_parent_code(m: Map<Seq<u8>, RecordV>, s: Seq<char>, found: Option<Class>)
    requires
        map_wf(m),
        all_digits(s),
        s.len() > 1,
        m.contains_key(key_of_chars(s.drop_last())),
        lookup_result(m, s.drop_last(), found),
    ensures
        found matches Some(c) && c@.code == s.drop_last(),
{
    assert(all_digits(s.drop_last()));
    lemma_normalize_digits(s.drop_last());
    lemma_indexed_code_roundtrip(m, key_of_chars(s.drop_last()));
    crate::codes::lemma_key_of_chars_roundtrip(s.drop_last());
}

/// Building the index from the same source forest always yields the same
/// key -> record mapping.
pub proof fn lemma_rebuild_identical(
    ns: Seq<SourceNode>,
    m1: Map<Seq<u8>, RecordV>,
    m2: Map<Seq<u8>, RecordV>,
)
    requires
        m1 == spec_index(ns),
        m2 == spec_index(ns),
    ensures
        m1 == m2,
{
}

/// With unique keys, the mapping depends only on the set of key/record
/// pairs, not on the order they arrive in.
pub proof fn lemma_index_order_independent(
    s1: Seq<(Seq<u8>, RecordV)>,
    s2: Seq<(Seq<u8>, RecordV)>,
)
    requires
        keys_unique(s1),
        keys_unique(s2),
        s1.to_set() == s2.to_set(),
    ensures
        map_of_pairs(s1) == map_of_pairs(s2),
{
    let m1 = map_of_pairs(s1);
    let m2 = map_of_pairs(s2);
    assert forall|k: Seq<u8>| #[trigger] m1.contains_key(k) implies m2.contains_key(k) && m2[k]
        == m1[k] by {
        lemma_entry_carries_over(s1, s2, k);
    }
    assert forall|k: Seq<u8>| #[trigger] m2.contains_key(k) implies m1.contains_key(k) by {
        lemma_map_of_pairs_domain(s2, k);
        let i = choose|i: int| 0 <= i < s2.len() && (#[trigger] s2[i]).0 == k;
        assert(s2.to_set().contains(s2[i]));
        assert(s1.to_set().contains(s2[i]));
        let j = choose|j: int| 0 <= j < s1.len() && s1[j] == s2[i];
        lemma_map_of_pairs_domain(s1, k);
    }
    assert(m1 =~= m2);
}

/// One direction of the order-independence argument: an entry of the first
/// mapping appears unchanged in the second.
proof fn lemma_entry_carries_over(
    s1: Seq<(Seq<u8>, RecordV)>,
    s2: Seq<(Seq<u8>, RecordV)>,
    k: Seq<u8>,
)
    requires
        keys_unique(s1),
        keys_unique(s2),
        s1.to_set() == s2.to_set(),
        map_of_pairs(s1).contains_key(k),
    ensures
        map_of_pairs(s2).contains_key(k),
        map_of_pairs(s2)[k] == map_of_pairs(s1)[k],
{
    lemma_map_of_pairs_domain(s1, k);
    let i = choose|i: int| 0 <= i < s1.len() && (#[trigger] s1[i]).0 == k;
    lemma_map_of_pairs_unique(s1, i);
    assert(s1.to_set().contains(s1[i]));
    assert(s2.to_set().contains(s1[i]));
    let j = choose|j: int| 0 <= j < s2.len() && s2[j] == s1[i];
    lemma_map_of_pairs_unique(s2, j);
}

} // verus!

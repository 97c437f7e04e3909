//! The record builder: walks the source forest depth-first, normalizes each
//! node's code, applies the depth cutoff, and produces the flat list of
//! key/record pairs the index is built from.

use vstd::prelude::*;

verus! {

use crate::codes::all_digits;
use crate::codes::key_of_chars;
use crate::codes::normalize;
use crate::codes::spec_normalize;
use crate::codes::strip_placeholders;
use crate::codes::stripped_len;
use crate::records::Class;
use crate::records::RecordV;
use crate::records::SourceNode;
use crate::records::record_wf;
use vstd::string::StrSliceExecFns;

/// Why the index could not be built from the supplied source forest.
#[derive(Clone, Copy, Debug, PartialEq, Eq, Structural)]
pub enum BuildFailure {
    /// A surviving node's code is empty or not decimal digits once trailing
    /// placeholder characters are stripped.
    InvalidCode,
    /// Two surviving nodes share the same canonical key.
    DuplicateKey,
    /// One of the ten top-level single-digit categories is missing.
    MissingCategory,
}

/// A node's code with trailing placeholder characters stripped.
pub open spec fn node_stripped(n: SourceNode) -> Seq<char> {
    strip_placeholders(n.spec_code())
}

/// Whether a node survives the depth cutoff: at most four characters remain.
/// A node that does not is dropped together with its whole subtree.
pub open spec fn node_kept(n: SourceNode) -> bool {
    node_stripped(n).len() <= 4
}

/// A surviving node's stripped code must be one to four decimal digits, and
/// the same must hold below it.
pub open spec fn node_ok(n: SourceNode) -> bool
    decreases n,
{
    !node_kept(n) || {
        &&& 1 <= node_stripped(n).len()
        &&& all_digits(node_stripped(n))
        &&& match n {
            SourceNode::Internal { children, .. } => forest_ok(children@),
            SourceNode::Leaf { .. } => true,
        }
    }
}

/// [`node_ok`] for every node of a forest.
pub open spec fn forest_ok(ns: Seq<SourceNode>) -> bool
    decreases ns,
{
    ns.len() == 0 || (forest_ok(ns.drop_last()) && node_ok(ns.last()))
}

/// The key/record pair a surviving node contributes.
pub open spec fn node_record(n: SourceNode) -> (Seq<u8>, RecordV) {
    (
        key_of_chars(node_stripped(n)),
        RecordV {
            code: node_stripped(n),
            name: n.spec_name(),
            has_children: n.spec_has_children(),
        },
    )
}

/// The pairs a node's subtree contributes, depth-first, pre-order: the node
/// itself first, then its children in order. A node past the depth cutoff
/// contributes nothing, its subtree included.
pub open spec fn node_records(n: SourceNode) -> Seq<(Seq<u8>, RecordV)>
    decreases n,
{
    if !node_kept(n) {
        Seq::empty()
    } else {
        seq![node_record(n)] + match n {
            SourceNode::Internal { children, .. } => forest_records(children@),
            SourceNode::Leaf { .. } => Seq::empty(),
        }
    }
}

/// The pairs a forest contributes, in order.
pub open spec fn forest_records(ns: Seq<SourceNode>) -> Seq<(Seq<u8>, RecordV)>
    decreases ns,
{
    if ns.len() == 0 {
        Seq::empty()
    } else {
        forest_records(ns.drop_last()) + node_records(ns.last())
    }
}

/// The abstract view of an executable pair list.
pub open spec fn pairs_view(s: Seq<(Vec<u8>, Class)>) -> Seq<(Seq<u8>, RecordV)> {
    s.map(|i: int, p: (Vec<u8>, Class)| (p.0@, p.1@))
}

/// No two pairs share a key.
pub open spec fn keys_unique(s: Seq<(Seq<u8>, RecordV)>) -> bool {
    forall|i: int, j: int| 0 <= i < j < s.len() ==> (#[trigger] s[i]).0 != (#[trigger] s[j]).0
}

/// The key -> record mapping described by a pair list; a later pair wins over
/// an earlier one with the same key.
pub open spec fn map_of_pairs(s: Seq<(Seq<u8>, RecordV)>) -> Map<Seq<u8>, RecordV>
    decreases s.len(),
{
    if s.len() == 0 {
        Map::empty()
    } else {
        map_of_pairs(s.drop_last()).insert(s.last().0, s.last().1)
    }
}

/// The key -> record mapping a source forest describes.
pub open spec fn spec_index(ns: Seq<SourceNode>) -> Map<Seq<u8>, RecordV> {
    map_of_pairs(forest_records(ns))
}

/// In a well-formed forest every node is well formed.
pub proof fn lemma_forest_ok_index(ns: Seq<SourceNode>, i: int)
    requires
        forest_ok(ns),
        0 <= i < ns.len(),
    ensures
        node_ok(ns[i]),
    decreases ns.len(),
{
    if i < ns.len() - 1 {
        lemma_forest_ok_index(ns.drop_last(), i);
    }
}

/// Every pair contributed by a well-formed node's subtree is well formed.
pub proof fn lemma_node_records_wf(n: SourceNode)
    requires
        node_ok(n),
    ensures
        forall|i: int|
            0 <= i < node_records(n).len() ==> record_wf(
                (#[trigger] node_records(n)[i]).0,
                node_records(n)[i].1,
            ),
    decreases n,
{
    if node_kept(n) {
        crate::codes::lemma_key_of_chars_roundtrip(node_stripped(n));
        match n {
            SourceNode::Internal { children, .. } => {
                lemma_forest_records_wf(children@);
            },
            SourceNode::Leaf { .. } => {},
        }
        let rest = node_records(n).drop_first();
        assert forall|i: int|
            0 <= i < node_records(n).len() implies record_wf(
            (#[trigger] node_records(n)[i]).0,
            node_records(n)[i].1,
        ) by {
            if i == 0 {
                assert(node_records(n)[0] == node_record(n));
            } else {
                match n {
                    SourceNode::Internal { children, .. } => {
                        assert(node_records(n)[i] == forest_records(children@)[i - 1]);
                    },
                    SourceNode::Leaf { .. } => {},
                }
            }
        }
    }
}

/// Every pair contributed by a well-formed forest is well formed.
pub proof fn lemma_forest_records_wf(ns: Seq<SourceNode>)
    requires
        forest_ok(ns),
    ensures
        forall|i: int|
            0 <= i < forest_records(ns).len() ==> record_wf(
                (#[trigger] forest_records(ns)[i]).0,
                forest_records(ns)[i].1,
            ),
    decreases ns,
{
    if ns.len() > 0 {
        lemma_forest_records_wf(ns.drop_last());
        lemma_node_records_wf(ns.last());
        let front = forest_records(ns.drop_last());
        assert forall|i: int|
            0 <= i < forest_records(ns).len() implies record_wf(
            (#[trigger] forest_records(ns)[i]).0,
            forest_records(ns)[i].1,
        ) by {
            if i < front.len() {
                assert(forest_records(ns)[i] == front[i]);
            } else {
                assert(forest_records(ns)[i] == node_records(ns.last())[i - front.len()]);
            }
        }
    }
}

/// Every entry of the mapping comes from some pair of the list.
pub proof fn lemma_map_of_pairs_entry(s: Seq<(Seq<u8>, RecordV)>, k: Seq<u8>)
    requires
        map_of_pairs(s).contains_key(k),
    ensures
        exists|i: int|
            0 <= i < s.len() && (#[trigger] s[i]).0 == k && s[i].1 == map_of_pairs(s)[k],
    decreases s.len(),
{
    if s.len() > 0 {
        if s.last().0 == k {
            assert(0 <= s.len() - 1 < s.len() && s[s.len() - 1].0 == k && s[s.len() - 1].1
                == map_of_pairs(s)[k]);
        } else {
            lemma_map_of_pairs_entry(s.drop_last(), k);
            let i = choose|i: int|
                0 <= i < s.drop_last().len() && (#[trigger] s.drop_last()[i]).0 == k
                    && s.drop_last()[i].1 == map_of_pairs(s.drop_last())[k];
            assert(0 <= i < s.len() && s[i].0 == k && s[i].1 == map_of_pairs(s)[k]);
        }
    }
}

/// A key is in the mapping exactly when some pair of the list carries it.
pub proof fn lemma_map_of_pairs_domain(s: Seq<(Seq<u8>, RecordV)>, k: Seq<u8>)
    ensures
        map_of_pairs(s).contains_key(k) <==> exists|i: int|
            0 <= i < s.len() && (#[trigger] s[i]).0 == k,
    decreases s.len(),
{
    if s.len() > 0 {
        lemma_map_of_pairs_domain(s.drop_last(), k);
        if map_of_pairs(s).contains_key(k) {
            if s.last().0 == k {
                assert((s[s.len() - 1]).0 == k);
            } else {
                let i = choose|i: int| 0 <= i < s.drop_last().len() && (#[trigger] s.drop_last()[i]).0 == k;
                assert((s[i]).0 == k);
            }
        }
        if exists|i: int| 0 <= i < s.len() && (#[trigger] s[i]).0 == k {
            let i = choose|i: int| 0 <= i < s.len() && (#[trigger] s[i]).0 == k;
            if i < s.len() - 1 {
                assert((s.drop_last()[i]).0 == k);
            }
        }
    }
}

/// With unique keys, the pair that carries a key decides its entry.
pub proof fn lemma_map_of_pairs_unique(s: Seq<(Seq<u8>, RecordV)>, i: int)
    requires
        keys_unique(s),
        0 <= i < s.len(),
    ensures
        map_of_pairs(s).contains_key(s[i].0),
        map_of_pairs(s)[s[i].0] == s[i].1,
    decreases s.len(),
{
    if i == s.len() - 1 {
    } else {
        assert(keys_unique(s.drop_last())) by {
            assert(forall|x: int, y: int|
                0 <= x < y < s.drop_last().len() ==> (#[trigger] s.drop_last()[x]).0 != (
                #[trigger] s.drop_last()[y]).0);
        }
        lemma_map_of_pairs_unique(s.drop_last(), i);
        assert(s[i].0 != s.last().0);
    }
}

/// Appends the pairs of one node's subtree to `out`.
fn append_node_records(n: &SourceNode, out: &mut Vec<(Vec<u8>, Class)>) -> (result: Result<
    (),
    BuildFailure,
>)
    ensures
        match result {
            Ok(_) => node_ok(*n) && pairs_view(final(out)@) == pairs_view(old(out)@)
                + node_records(*n),
            Err(e) => !node_ok(*n) && e == BuildFailure::InvalidCode,
        },
    decreases *n,
{
    let (name, code): (&String, &String) = match n {
        SourceNode::Internal { name, code, .. } => (name, code),
        SourceNode::Leaf { name, code } => (name, code),
    };
    let slen = stripped_len(code.as_str());
    if slen > 4 {
        proof {
            assert(pairs_view(out@) =~= pairs_view(out@) + node_records(*n));
        }
        return Ok(());
    }
    let key = match normalize(code.as_str()) {
        Ok(key) => key,
        Err(_) => {
            return Err(BuildFailure::InvalidCode);
        },
    };
    if key.len() == 0 {
        return Err(BuildFailure::InvalidCode);
    }
    let record = Class {
        code: code.as_str().substring_char(0, slen).to_owned(),
        name: name.clone(),
        has_children: match n {
            SourceNode::Internal { .. } => true,
            SourceNode::Leaf { .. } => false,
        },
    };
    let ghost prior = out@;
    proof {
        assert(record@ == node_record(*n).1);
        assert(key@ == node_record(*n).0);
    }
    out.push((key, record));
    proof {
        assert(pairs_view(out@) =~= pairs_view(prior) + seq![node_record(*n)]);
    }
    match n {
        SourceNode::Internal { children, .. } => {
            let mut i: usize = 0;
            while i < children.len()
                invariant
                    i <= children@.len(),
                    node_kept(*n),
                    1 <= node_stripped(*n).len(),
                    all_digits(node_stripped(*n)),
                    n is Internal,
                    n.spec_children() == children@,
                    forest_ok(children@.take(i as int)),
                    pairs_view(out@) == pairs_view(old(out)@) + seq![node_record(*n)]
                        + forest_records(children@.take(i as int)),
                decreases children@.len() - i,
            {
                match append_node_records(&children[i], out) {
                    Ok(_) => {},
                    Err(e) => {
                        proof {
                            if forest_ok(children@) {
                                lemma_forest_ok_index(children@, i as int);
                            }
                        }
                        return Err(e);
                    },
                }
                proof {
                    assert(children@.take(i as int + 1).drop_last() =~= children@.take(i as int));
                    assert(children@.take(i as int + 1).last() == children@[i as int]);
                    assert(pairs_view(out@) =~= pairs_view(old(out)@) + seq![node_record(*n)]
                        + forest_records(children@.take(i as int + 1)));
                }
                i = i + 1;
            }
            proof {
                assert(children@.take(children@.len() as int) =~= children@);
                assert(pairs_view(out@) =~= pairs_view(old(out)@) + node_records(*n));
            }
            Ok(())
        },
        SourceNode::Leaf { .. } => {
            proof {
                assert(pairs_view(out@) =~= pairs_view(old(out)@) + node_records(*n));
            }
            Ok(())
        },
    }
}

/// Walks the supplied source forest depth-first and returns the flat list of
/// key/record pairs of every node that survives the depth cutoff, parents
/// before children. Fails when a surviving node's code is empty or not
/// decimal digits once stripped.
pub fn build_records(nodes: &Vec<SourceNode>) -> (result: Result<
    Vec<(Vec<u8>, Class)>,
    BuildFailure,
>)
    ensures
        match result {
            Ok(pairs) => forest_ok(nodes@) && pairs_view(pairs@) == forest_records(nodes@),
            Err(e) => !forest_ok(nodes@) && e == BuildFailure::InvalidCode,
        },
{
    let mut out: Vec<(Vec<u8>, Class)> = Vec::new();
    let mut i: usize = 0;
    while i < nodes.len()
        invariant
            i <= nodes@.len(),
            forest_ok(nodes@.take(i as int)),
            pairs_view(out@) == forest_records(nodes@.take(i as int)),
        decreases nodes@.len() - i,
    {
        match append_node_records(&nodes[i], &mut out) {
            Ok(_) => {},
            Err(e) => {
                proof {
                    if forest_ok(nodes@) {
                        lemma_forest_ok_index(nodes@, i as int);
                    }
                }
                return Err(e);
            },
        }
        proof {
            assert(nodes@.take(i as int + 1).drop_last() =~= nodes@.take(i as int));
            assert(nodes@.take(i as int + 1).last() == nodes@[i as int]);
            assert(pairs_view(out@) =~= forest_records(nodes@.take(i as int + 1)));
        }
        i = i + 1;
    }
    proof {
        assert(nodes@.take(nodes@.len() as int) =~= nodes@);
    }
    Ok(out)
}

/// True when the keys of `pairs` are pairwise distinct.
pub fn check_unique(pairs: &Vec<(Vec<u8>, Class)>) -> (unique: bool)
    ensures
        unique == keys_unique(pairs_view(pairs@)),
{
    let mut j: usize = 0;
    while j < pairs.len()
        invariant
            j <= pairs@.len(),
            forall|x: int, y: int|
                0 <= x < y < j ==> (#[trigger] pairs_view(pairs@)[x]).0 != (
                #[trigger] pairs_view(pairs@)[y]).0,
        decreases pairs@.len() - j,
    {
        let mut i: usize = 0;
        while i < j
            invariant
                i <= j < pairs@.len(),
                forall|x: int|
                    0 <= x < i ==> (#[trigger] pairs_view(pairs@)[x]).0 != pairs_view(
                        pairs@,
                    )[j as int].0,
            decreases j - i,
        {
            if keys_equal(&pairs[i].0, &pairs[j].0) {
                proof {
                    assert((pairs_view(pairs@)[i as int]).0 == (pairs_view(pairs@)[j as int]).0);
                }
                return false;
            }
            i = i + 1;
        }
        j = j + 1;
    }
    true
}

/// Element-wise equality of two keys.
fn keys_equal(a: &Vec<u8>, b: &Vec<u8>) -> (eq: bool)
    ensures
        eq == (a@ == b@),
{
    if a.len() != b.len() {
        return false;
    }
    let mut i: usize = 0;
    while i < a.len()
        invariant
            i <= a@.len(),
            a@.len() == b@.len(),
            forall|x: int| 0 <= x < i ==> a@[x] == b@[x],
        decreases a@.len() - i,
    {
        if a[i] != b[i] {
            return false;
        }
        i = i + 1;
    }
    proof {
        assert(a@ =~= b@);
    }
    true
}

} // verus!

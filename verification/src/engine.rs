//! The hierarchy query engine: an immutable index built once from the source
//! forest, answering exact lookup, prefix search and parent/child navigation.

use vstd::prelude::*;

verus! {

use crate::builder::BuildFailure;
use crate::builder::build_records;
use crate::builder::check_unique;
use crate::builder::forest_ok;
use crate::builder::forest_records;
use crate::builder::keys_unique;
use crate::builder::lemma_forest_records_wf;
use crate::builder::lemma_map_of_pairs_entry;
use crate::builder::map_of_pairs;
use crate::builder::pairs_view;
use crate::builder::spec_index;
use crate::codes::InvalidCodeFormat;
use crate::codes::chars_of_key;
use crate::codes::digit_char;
use crate::codes::key_of_chars;
use crate::codes::lemma_key_of_chars_roundtrip;
use crate::codes::lex_lt;
use crate::codes::normalize;
use crate::codes::spec_normalize;
use crate::codes::strip_placeholders;
use crate::codes::stripped_len;
use crate::laws::lemma_indexed_code_roundtrip;
use crate::records::Class;
use crate::records::RecordV;
use crate::records::SourceNode;
use crate::records::record_wf;
use crate::store::ClassTrie;
use crate::store::builder_contents;
use crate::store::trie_build;
use crate::store::trie_builder_new;
use crate::store::trie_builder_push;
use crate::store::trie_clone;
use crate::store::trie_contents;
use crate::store::trie_exact_match;
use crate::store::trie_search;
use vstd::string::StrSliceExecFns;

/// Every indexed entry is well formed: one to four digit values as key, and a
/// code that spells exactly that key.
pub open spec fn map_wf(m: Map<Seq<u8>, RecordV>) -> bool {
    forall|k: Seq<u8>| #[trigger] m.contains_key(k) ==> record_wf(k, m[k])
}

/// Each of the ten top-level single-digit categories is indexed.
pub open spec fn has_categories(m: Map<Seq<u8>, RecordV>) -> bool {
    forall|d: u8| d < 10 ==> #[trigger] m.contains_key(seq![d])
}

/// What an exact lookup of the normalized form of `s` must return.
pub open spec fn lookup_result(
    m: Map<Seq<u8>, RecordV>,
    s: Seq<char>,
    found: Option<Class>,
) -> bool {
    match spec_normalize(s) {
        Some(key) => match found {
            Some(c) => m.contains_key(key) && c@ == m[key],
            None => !m.contains_key(key),
        },
        None => false,
    }
}

/// One record of a search result: indexed under a key that extends `key`,
/// and passing `pred`.
pub open spec fn entry_matches(
    m: Map<Seq<u8>, RecordV>,
    key: Seq<u8>,
    pred: spec_fn(RecordV) -> bool,
    r: RecordV,
) -> bool {
    &&& m.contains_key(key_of_chars(r.code))
    &&& m[key_of_chars(r.code)] == r
    &&& key.is_prefix_of(key_of_chars(r.code))
    &&& pred(r)
}

/// What a prefix search for `key`, filtered by `pred`, must return: exactly
/// the indexed records under `key` that pass `pred`, in strictly ascending
/// lexicographic key order.
pub open spec fn filtered_matches(
    m: Map<Seq<u8>, RecordV>,
    key: Seq<u8>,
    pred: spec_fn(RecordV) -> bool,
    found: Seq<Class>,
) -> bool {
    &&& forall|i: int|
        0 <= i < found.len() ==> entry_matches(m, key, pred, (#[trigger] found[i])@)
    &&& forall|k: Seq<u8>|
        #[trigger] m.contains_key(k) && key.is_prefix_of(k) && pred(m[k]) ==> exists|i: int|
            0 <= i < found.len() && (#[trigger] found[i])@ == m[k]
    &&& forall|i: int, j: int|
        0 <= i < j < found.len() ==> lex_lt(
            key_of_chars((#[trigger] found[i])@.code),
            key_of_chars((#[trigger] found[j])@.code),
        )
}

/// The classification index: built exactly once from the source forest,
/// immutable afterwards.
pub struct Dewey {
    index: ClassTrie,
}

impl View for Dewey {
    type V = Map<Seq<u8>, RecordV>;

    closed spec fn view(&self) -> Map<Seq<u8>, RecordV> {
        trie_contents(self.index)
    }
}

impl Dewey {
    /// The index is well formed and holds all ten top-level categories.
    pub open spec fn wf(&self) -> bool {
        map_wf(self@) && has_categories(self@)
    }

    /// Builds the index from the supplied source forest.
    ///
    /// Fails when a surviving node's code is malformed, when two surviving
    /// nodes collide on one canonical key, or when one of the ten top-level
    /// single-digit categories is missing - an empty forest falls under the
    /// last case.
    #[verifier::loop_isolation(false)]
    pub fn new(nodes: &Vec<SourceNode>) -> (result: Result<Dewey, BuildFailure>)
        ensures
            match result {
                Ok(d) => {
                    &&& forest_ok(nodes@)
                    &&& keys_unique(forest_records(nodes@))
                    &&& d@ == spec_index(nodes@)
                    &&& d.wf()
                },
                Err(e) => match e {
                    BuildFailure::InvalidCode => !forest_ok(nodes@),
                    BuildFailure::DuplicateKey => forest_ok(nodes@) && !keys_unique(
                        forest_records(nodes@),
                    ),
                    BuildFailure::MissingCategory => forest_ok(nodes@) && keys_unique(
                        forest_records(nodes@),
                    ) && !has_categories(spec_index(nodes@)),
                },
            },
    {
        let pairs = match build_records(nodes) {
            Ok(pairs) => pairs,
            Err(e) => {
                return Err(e);
            },
        };
        if !check_unique(&pairs) {
            return Err(BuildFailure::DuplicateKey);
        }
        proof {
            lemma_forest_records_wf(nodes@);
        }
        let mut accum = trie_builder_new();
        let mut i: usize = 0;
        while i < pairs.len()
            invariant
                i <= pairs@.len(),
                builder_contents(accum) == map_of_pairs(pairs_view(pairs@).take(i as int)),
            decreases pairs@.len() - i,
        {
            proof {
                assert(record_wf(
                    (pairs_view(pairs@)[i as int]).0,
                    pairs_view(pairs@)[i as int].1,
                ));
            }
            let value = pairs[i].1.clone();
            trie_builder_push(&mut accum, &pairs[i].0, value);
            proof {
                assert(pairs_view(pairs@).take(i as int + 1).drop_last() =~= pairs_view(
                    pairs@,
                ).take(i as int));
                assert(pairs_view(pairs@).take(i as int + 1).last() == pairs_view(
                    pairs@,
                )[i as int]);
            }
            i = i + 1;
        }
        proof {
            assert(pairs_view(pairs@).take(pairs@.len() as int) =~= pairs_view(pairs@));
        }
        let index = trie_build(accum);
        let mut d: u8 = 0;
        while d < 10
            invariant
                d <= 10,
                trie_contents(index) == spec_index(nodes@),
                forall|x: u8| x < d ==> #[trigger] trie_contents(index).contains_key(seq![x]),
            decreases 10 - d,
        {
            let key: Vec<u8> = vec![d];
            proof {
                assert(key@ =~= seq![d]);
            }
            match trie_exact_match(&index, &key) {
                Some(_) => {},
                None => {
                    return Err(BuildFailure::MissingCategory);
                },
            }
            d = d + 1;
        }
        proof {
            assert forall|k: Seq<u8>| #[trigger]
                trie_contents(index).contains_key(k) implies record_wf(
                k,
                trie_contents(index)[k],
            ) by {
                lemma_map_of_pairs_entry(forest_records(nodes@), k);
            }
        }
        Ok(Dewey { index })
    }

    /// Converts a textual code into the digit-sequence label used as trie
    /// key.
    pub fn as_label(&self, code: &str) -> (result: Result<Vec<u8>, InvalidCodeFormat>)
        ensures
            match result {
                Ok(key) => spec_normalize(code@) == Some(key@),
                Err(_) => spec_normalize(code@) is None,
            },
    {
        normalize(code)
    }

    /// The underlying prefix trie, as an owned copy.
    pub fn map(&self) -> (result: ClassTrie)
        ensures
            trie_contents(result) == self@,
    {
        trie_clone(&self.index)
    }

    /// Exact lookup: the record whose canonical code is the normalized form
    /// of `code`, if any.
    pub fn get_class(&self, code: &str) -> (result: Result<Option<Class>, InvalidCodeFormat>)
        ensures
            match result {
                Ok(found) => lookup_result(self@, code@, found),
                Err(_) => spec_normalize(code@) is None,
            },
    {
        let key = match normalize(code) {
            Ok(key) => key,
            Err(e) => {
                return Err(e);
            },
        };
        Ok(trie_exact_match(&self.index, &key))
    }

    /// Prefix search: every indexed record whose code starts with the
    /// normalized form of `code`, the exact match included, in ascending
    /// code order.
    #[verifier::loop_isolation(false)]
    pub fn get_matches(&self, code: &str) -> (result: Result<Vec<Class>, InvalidCodeFormat>)
        requires
            self.wf(),
        ensures
            match result {
                Ok(found) => spec_normalize(code@) matches Some(key) && filtered_matches(
                    self@,
                    key,
                    |r: RecordV| true,
                    found@,
                ),
                Err(_) => spec_normalize(code@) is None,
            },
    {
        let key = match normalize(code) {
            Ok(key) => key,
            Err(e) => {
                return Err(e);
            },
        };
        let pairs = trie_search(&self.index, &key);
        let mut out: Vec<Class> = Vec::new();
        let mut i: usize = 0;
        while i < pairs.len()
            invariant
                i <= pairs@.len(),
                out@.len() == i,
                forall|x: int| 0 <= x < i ==> (#[trigger] out@[x])@ == pairs@[x].1@,
            decreases pairs@.len() - i,
        {
            let c = pairs[i].1.clone();
            out.push(c);
            i = i + 1;
        }
        proof {
            assert forall|x: int|
                0 <= x < out@.len() implies entry_matches(
                self@,
                key@,
                |r: RecordV| true,
                (#[trigger] out@[x])@,
            ) by {
                let k = (pairs@[x]).0@;
                lemma_indexed_code_roundtrip(self@, k);
            }
            assert forall|k: Seq<u8>| #[trigger]
                self@.contains_key(k) && key@.is_prefix_of(k) && (|r: RecordV| true)(
                self@[k],
            ) implies exists|x: int| 0 <= x < out@.len() && (#[trigger] out@[x])@ == self@[k] by {
                let w = choose|w: int| 0 <= w < pairs@.len() && (#[trigger] pairs@[w]).0@ == k;
                assert((out@[w])@ == self@[k]);
            }
            assert forall|x: int, y: int|
                0 <= x < y < out@.len() implies lex_lt(
                key_of_chars((#[trigger] out@[x])@.code),
                key_of_chars((#[trigger] out@[y])@.code),
            ) by {
                lemma_indexed_code_roundtrip(self@, (pairs@[x]).0@);
                lemma_indexed_code_roundtrip(self@, (pairs@[y]).0@);
            }
        }
        Ok(out)
    }

    /// The records exactly one level below `code`: prefix matches whose code
    /// is one character longer than the caller-supplied code itself.
    #[verifier::loop_isolation(false)]
    pub fn get_direct_children(&self, code: &str) -> (result: Result<
        Vec<Class>,
        InvalidCodeFormat,
    >)
        requires
            self.wf(),
        ensures
            match result {
                Ok(found) => spec_normalize(code@) matches Some(key) && filtered_matches(
                    self@,
                    key,
                    |r: RecordV| r.code.len() == code@.len() + 1,
                    found@,
                ),
                Err(_) => spec_normalize(code@) is None,
            },
    {
        let all = match self.get_matches(code) {
            Ok(all) => all,
            Err(e) => {
                return Err(e);
            },
        };
        let target = code.unicode_len();
        let ghost key = spec_normalize(code@)->Some_0;
        let ghost pred = |r: RecordV| r.code.len() == code@.len() + 1;
        let mut out: Vec<Class> = Vec::new();
        let ghost mut src: Seq<int> = Seq::empty();
        let ghost mut hit: Map<int, int> = Map::empty();
        let mut i: usize = 0;
        while i < all.len()
            invariant
                i <= all@.len(),
                src.len() == out@.len(),
                forall|x: int| 0 <= x < src.len() ==> 0 <= #[trigger] src[x] < i,
                forall|x: int| 0 <= x < src.len() ==> (#[trigger] out@[x])@ == (all@[src[x]])@,
                forall|x: int, y: int| 0 <= x < y < src.len() ==> #[trigger] src[x] < #[trigger] src[y],
                forall|x: int| 0 <= x < src.len() ==> pred((#[trigger] out@[x])@),
                forall|j: int|
                    0 <= j < i && pred((#[trigger] all@[j])@) ==> hit.contains_key(j) && 0 <= hit[j]
                        < out@.len() && (out@[hit[j]])@ == all@[j]@,
            decreases all@.len() - i,
        {
            let clen = all[i].code.as_str().unicode_len();
            if clen >= 1 && clen - 1 == target {
                out.push(all[i].clone());
                proof {
                    src = src.push(i as int);
                    hit = hit.insert(i as int, out@.len() - 1);
                    assert((out@[out@.len() - 1])@ == (all@[i as int])@);
                    assert(pred((all@[i as int])@));
                }
            } else {
                proof {
                    assert(!pred((all@[i as int])@));
                }
            }
            i = i + 1;
        }
        proof {
            assert forall|x: int|
                0 <= x < out@.len() implies entry_matches(
                self@,
                key,
                pred,
                (#[trigger] out@[x])@,
            ) by {
                assert(entry_matches(self@, key, |r: RecordV| true, (all@[src[x]])@));
            }
            assert forall|k: Seq<u8>| #[trigger]
                self@.contains_key(k) && key.is_prefix_of(k) && pred(self@[k]) implies exists|
                x: int,
            | 0 <= x < out@.len() && (#[trigger] out@[x])@ == self@[k] by {
                let j = choose|j: int| 0 <= j < all@.len() && (#[trigger] all@[j])@ == self@[k];
                assert(pred(all@[j]@));
                assert((out@[hit[j]])@ == self@[k]);
            }
            assert forall|x: int, y: int|
                0 <= x < y < out@.len() implies lex_lt(
                key_of_chars((#[trigger] out@[x])@.code),
                key_of_chars((#[trigger] out@[y])@.code),
            ) by {
                assert(lex_lt(
                    key_of_chars((all@[src[x]])@.code),
                    key_of_chars((all@[src[y]])@.code),
                ));
            }
        }
        Ok(out)
    }

    /// The strict descendants of `code`: prefix matches whose code is not
    /// the normalized code itself, at any depth.
    #[verifier::loop_isolation(false)]
    pub fn get_all_children(&self, code: &str) -> (result: Result<Vec<Class>, InvalidCodeFormat>)
        requires
            self.wf(),
        ensures
            match result {
                Ok(found) => spec_normalize(code@) matches Some(key) && filtered_matches(
                    self@,
                    key,
                    |r: RecordV| r.code != chars_of_key(key),
                    found@,
                ),
                Err(_) => spec_normalize(code@) is None,
            },
    {
        let all = match self.get_matches(code) {
            Ok(all) => all,
            Err(e) => {
                return Err(e);
            },
        };
        let slen = stripped_len(code);
        let stripped = code.substring_char(0, slen).to_owned();
        let ghost key = spec_normalize(code@)->Some_0;
        let ghost pred = |r: RecordV| r.code != chars_of_key(key);
        proof {
            lemma_key_of_chars_roundtrip(strip_placeholders(code@));
            assert(stripped@ == chars_of_key(key));
        }
        let mut out: Vec<Class> = Vec::new();
        let ghost mut src: Seq<int> = Seq::empty();
        let ghost mut hit: Map<int, int> = Map::empty();
        let mut i: usize = 0;
        while i < all.len()
            invariant
                i <= all@.len(),
                src.len() == out@.len(),
                forall|x: int| 0 <= x < src.len() ==> 0 <= #[trigger] src[x] < i,
                forall|x: int| 0 <= x < src.len() ==> (#[trigger] out@[x])@ == (all@[src[x]])@,
                forall|x: int, y: int| 0 <= x < y < src.len() ==> #[trigger] src[x] < #[trigger] src[y],
                forall|x: int| 0 <= x < src.len() ==> pred((#[trigger] out@[x])@),
                forall|j: int|
                    0 <= j < i && pred((#[trigger] all@[j])@) ==> hit.contains_key(j) && 0 <= hit[j]
                        < out@.len() && (out@[hit[j]])@ == all@[j]@,
            decreases all@.len() - i,
        {
            if !(all[i].code == stripped) {
                out.push(all[i].clone());
                proof {
                    src = src.push(i as int);
                    hit = hit.insert(i as int, out@.len() - 1);
                    assert((out@[out@.len() - 1])@ == (all@[i as int])@);
                    assert(pred((all@[i as int])@));
                }
            } else {
                proof {
                    assert(!pred((all@[i as int])@));
                }
            }
            i = i + 1;
        }
        proof {
            assert forall|x: int|
                0 <= x < out@.len() implies entry_matches(
                self@,
                key,
                pred,
                (#[trigger] out@[x])@,
            ) by {
                assert(entry_matches(self@, key, |r: RecordV| true, (all@[src[x]])@));
            }
            assert forall|k: Seq<u8>| #[trigger]
                self@.contains_key(k) && key.is_prefix_of(k) && pred(self@[k]) implies exists|
                x: int,
            | 0 <= x < out@.len() && (#[trigger] out@[x])@ == self@[k] by {
                let j = choose|j: int| 0 <= j < all@.len() && (#[trigger] all@[j])@ == self@[k];
                assert(pred(all@[j]@));
                assert((out@[hit[j]])@ == self@[k]);
            }
            assert forall|x: int, y: int|
                0 <= x < y < out@.len() implies lex_lt(
                key_of_chars((#[trigger] out@[x])@.code),
                key_of_chars((#[trigger] out@[y])@.code),
            ) by {
                assert(lex_lt(
                    key_of_chars((all@[src[x]])@.code),
                    key_of_chars((all@[src[y]])@.code),
                ));
            }
        }
        Ok(out)
    }

    /// The parent of `code`: when the caller-supplied code has more than one
    /// character, the exact match of that code with its last character
    /// removed; nothing otherwise.
    pub fn get_parent(&self, code: &str) -> (result: Result<Option<Class>, InvalidCodeFormat>)
        ensures
            code@.len() <= 1 ==> (result matches Ok(found) && found is None),
            code@.len() > 1 ==> match result {
                Ok(found) => lookup_result(self@, code@.drop_last(), found),
                Err(_) => spec_normalize(code@.drop_last()) is None,
            },
    {
        let n = code.unicode_len();
        if n <= 1 {
            return Ok(None);
        }
        let truncated = code.substring_char(0, n - 1);
        proof {
            assert(truncated@ =~= code@.drop_last());
        }
        self.get_class(truncated)
    }

    /// The ten top-level categories, in order: the records at the
    /// single-digit codes `"0"` through `"9"`.
    #[verifier::loop_isolation(false)]
    pub fn categories(&self) -> (result: Vec<Class>)
        requires
            self.wf(),
        ensures
            result@.len() == 10,
            forall|i: int|
                0 <= i < 10 ==> {
                    &&& self@.contains_key(seq![i as u8])
                    &&& (#[trigger] result@[i])@ == self@[seq![i as u8]]
                    &&& result@[i]@.code == seq![digit_char(i as u8)]
                },
    {
        let mut out: Vec<Class> = Vec::new();
        let mut d: u8 = 0;
        while d < 10
            invariant
                d <= 10,
                out@.len() == d as int,
                forall|i: int|
                    0 <= i < d ==> {
                        &&& self@.contains_key(seq![i as u8])
                        &&& (#[trigger] out@[i])@ == self@[seq![i as u8]]
                        &&& out@[i]@.code == seq![digit_char(i as u8)]
                    },
            decreases 10 - d,
        {
            let key: Vec<u8> = vec![d];
            proof {
                assert(key@ =~= seq![d]);
                assert(self@.contains_key(seq![d]));
            }
            let found = trie_exact_match(&self.index, &key);
            let c = found.unwrap();
            proof {
                assert(record_wf(key@, self@[key@]));
                assert(chars_of_key(seq![d]) =~= seq![digit_char(d)]);
            }
            out.push(c);
            d = d + 1;
        }
        out
    }
}

impl Class {
    /// Exact lookup of `code` in `dewey`'s index.
    pub fn get(dewey: &Dewey, code: &str) -> (result: Result<Option<Class>, InvalidCodeFormat>)
        ensures
            match result {
                Ok(found) => lookup_result(dewey@, code@, found),
                Err(_) => spec_normalize(code@) is None,
            },
    {
        dewey.get_class(code)
    }

    /// Every record whose code extends this record's code, itself included.
    pub fn matches(&self, dewey: &Dewey) -> (result: Result<Vec<Class>, InvalidCodeFormat>)
        requires
            dewey.wf(),
        ensures
            match result {
                Ok(found) => spec_normalize(self.code@) matches Some(key) && filtered_matches(
                    dewey@,
                    key,
                    |r: RecordV| true,
                    found@,
                ),
                Err(_) => spec_normalize(self.code@) is None,
            },
    {
        dewey.get_matches(self.code.as_str())
    }

    /// The strict descendants of this record's code, at any depth.
    pub fn all_children(&self, dewey: &Dewey) -> (result: Result<Vec<Class>, InvalidCodeFormat>)
        requires
            dewey.wf(),
        ensures
            match result {
                Ok(found) => spec_normalize(self.code@) matches Some(key) && filtered_matches(
                    dewey@,
                    key,
                    |r: RecordV| r.code != chars_of_key(key),
                    found@,
                ),
                Err(_) => spec_normalize(self.code@) is None,
            },
    {
        dewey.get_all_children(self.code.as_str())
    }

    /// The records exactly one level below this record's code.
    pub fn children(&self, dewey: &Dewey) -> (result: Result<Vec<Class>, InvalidCodeFormat>)
        requires
            dewey.wf(),
        ensures
            match result {
                Ok(found) => spec_normalize(self.code@) matches Some(key) && filtered_matches(
                    dewey@,
                    key,
                    |r: RecordV| r.code.len() == self.code@.len() + 1,
                    found@,
                ),
                Err(_) => spec_normalize(self.code@) is None,
            },
    {
        dewey.get_direct_children(self.code.as_str())
    }

    /// The parent of this record's code, if its code has more than one
    /// character.
    pub fn parent(&self, dewey: &Dewey) -> (result: Result<Option<Class>, InvalidCodeFormat>)
        ensures
            self.code@.len() <= 1 ==> (result matches Ok(found) && found is None),
            self.code@.len() > 1 ==> match result {
                Ok(found) => lookup_result(dewey@, self.code@.drop_last(), found),
                Err(_) => spec_normalize(self.code@.drop_last()) is None,
            },
    {
        dewey.get_parent(self.code.as_str())
    }
}

} // verus!

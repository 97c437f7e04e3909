//! The trie index storage, kept in `trie_rs`'s prefix-tree map behind trusted
//! wrappers.
//!
//! The key -> record mapping held by a builder or by a finished trie is named
//! by the uninterpreted functions below; every wrapper's contract speaks of
//! those names, and the query engine is verified against them.

use vstd::prelude::*;

verus! {

use crate::codes::lex_lt;
use crate::records::Class;
use crate::records::RecordV;
use trie_rs::map::Trie;
use trie_rs::map::TrieBuilder;

/// The concrete trie type that stores the index.
pub type ClassTrie = Trie<u8, Class>;

/// The concrete builder type that accumulates the index.
pub type ClassTrieBuilder = TrieBuilder<u8, Class>;

/// `trie_rs`'s immutable prefix-tree map, declared so that its values can be
/// held and passed by verified code.
#[verifier::external_type_specification]
#[verifier::external_body]
#[verifier::reject_recursive_types(Label)]
#[verifier::reject_recursive_types(Value)]
pub struct ExTrie<Label, Value>(Trie<Label, Value>);

/// `trie_rs`'s trie builder, declared for the same reason.
#[verifier::external_type_specification]
#[verifier::external_body]
#[verifier::reject_recursive_types(Label)]
#[verifier::reject_recursive_types(Value)]
pub struct ExTrieBuilder<Label, Value>(TrieBuilder<Label, Value>);

/// The key -> record mapping held by a finished trie.
pub uninterp spec fn trie_contents(t: ClassTrie) -> Map<Seq<u8>, RecordV>;

/// The key -> record mapping accumulated so far by a trie builder.
pub uninterp spec fn builder_contents(b: ClassTrieBuilder) -> Map<Seq<u8>, RecordV>;

/// Relies on `trie_rs::map::TrieBuilder::new`: a fresh builder holds no
/// entries.
#[verifier::external_body]
pub(crate) fn trie_builder_new() -> (result: ClassTrieBuilder)
    ensures
        builder_contents(result) =~= Map::empty(),
{
    TrieBuilder::new()
}

/// Relies on `trie_rs::map::TrieBuilder::push`: records `value` under `key`,
/// overwriting an entry already pushed under the same key. An empty key is
/// excluded: the builder does not accept one.
#[verifier::external_body]
pub(crate) fn trie_builder_push(b: &mut ClassTrieBuilder, key: &Vec<u8>, value: Class)
    requires
        key@.len() >= 1,
    ensures
        builder_contents(*final(b)) == builder_contents(*old(b)).insert(key@, value@),
{
    b.push(key, value)
}

/// Relies on `trie_rs::map::TrieBuilder::build`: the finished trie holds
/// exactly the entries the builder accumulated.
#[verifier::external_body]
pub(crate) fn trie_build(b: ClassTrieBuilder) -> (t: ClassTrie)
    ensures
        trie_contents(t) == builder_contents(b),
{
    b.build()
}

/// Relies on `trie_rs::map::Trie::exact_match`: returns the record stored at
/// exactly `key`, if any.
#[verifier::external_body]
pub(crate) fn trie_exact_match(t: &ClassTrie, key: &Vec<u8>) -> (found: Option<Class>)
    ensures
        match found {
            Some(c) => trie_contents(*t).contains_key(key@) && c@ == trie_contents(*t)[key@],
            None => !trie_contents(*t).contains_key(key@),
        },
{
    t.exact_match(key).cloned()
}

/// Relies on `trie_rs::map::Trie::predictive_search`: yields every entry
/// whose key starts with `prefix` - the entry at `prefix` itself included -
/// in strictly ascending lexicographic key order.
#[verifier::external_body]
pub(crate) fn trie_search(t: &ClassTrie, prefix: &Vec<u8>) -> (found: Vec<(Vec<u8>, Class)>)
    ensures
        forall|i: int|
            0 <= i < found@.len() ==> {
                &&& trie_contents(*t).contains_key((#[trigger] found@[i]).0@)
                &&& found@[i].1@ == trie_contents(*t)[found@[i].0@]
                &&& prefix@.is_prefix_of(found@[i].0@)
            },
        forall|k: Seq<u8>|
            #[trigger] trie_contents(*t).contains_key(k) && prefix@.is_prefix_of(k) ==> exists|
                i: int,
            | 0 <= i < found@.len() && (#[trigger] found@[i]).0@ == k,
        forall|i: int, j: int| 0 <= i < j < found@.len() ==> lex_lt(found@[i].0@, found@[j].0@),
{
    t.predictive_search(prefix).map(|entry: (Vec<u8>, &Class)| (entry.0, entry.1.clone())).collect()
}

/// Relies on the derived `Clone` of `trie_rs::map::Trie`: the clone holds the
/// same entries.
#[verifier::external_body]
pub(crate) fn trie_clone(t: &ClassTrie) -> (c: ClassTrie)
    ensures
        trie_contents(c) == trie_contents(*t),
{
    t.clone()
}

} // verus!

//! The data model: classification records and the source tree they are built
//! from.

use vstd::prelude::*;

verus! {

use crate::codes::chars_of_key;
use crate::codes::key_digits;

/// One classification record of the index.
#[derive(Debug)]
pub struct Class {
    /// Canonical digit-only code of this record.
    pub code: String,
    /// Human-readable label of this record.
    pub name: String,
    /// Whether the source tree node carried descendants.
    pub has_children: bool,
}

/// The mathematical shape of a [`Class`]: its fields as sequences.
pub ghost struct RecordV {
    pub code: Seq<char>,
    pub name: Seq<char>,
    pub has_children: bool,
}

impl View for Class {
    type V = RecordV;

    open spec fn view(&self) -> RecordV {
        RecordV { code: self.code@, name: self.name@, has_children: self.has_children }
    }
}

impl Clone for Class {
    fn clone(&self) -> (result: Self)
        ensures
            result@ == self@,
    {
        Class { code: self.code.clone(), name: self.name.clone(), has_children: self.has_children }
    }
}

/// One node of the externally supplied classification tree: an internal node
/// carries descendants, a leaf does not. Both carry a name and a raw code that
/// may end in placeholder characters.
pub enum SourceNode {
    Internal { name: String, code: String, children: Vec<SourceNode> },
    Leaf { name: String, code: String },
}

impl SourceNode {
    /// The raw code carried by this node.
    pub open spec fn spec_code(&self) -> Seq<char> {
        match *self {
            SourceNode::Internal { code, .. } => code@,
            SourceNode::Leaf { code, .. } => code@,
        }
    }

    /// The name carried by this node.
    pub open spec fn spec_name(&self) -> Seq<char> {
        match *self {
            SourceNode::Internal { name, .. } => name@,
            SourceNode::Leaf { name, .. } => name@,
        }
    }

    /// Whether this node is an internal node of the source tree.
    pub open spec fn spec_has_children(&self) -> bool {
        self is Internal
    }

    /// The descendants of this node; a leaf has none.
    pub open spec fn spec_children(&self) -> Seq<SourceNode> {
        match *self {
            SourceNode::Internal { children, .. } => children@,
            SourceNode::Leaf { .. } => Seq::empty(),
        }
    }
}

/// Well-formedness of one indexed entry: the key is one to four digit values
/// and the record's code spells exactly that key.
pub open spec fn record_wf(k: Seq<u8>, r: RecordV) -> bool {
    &&& 1 <= k.len() <= 4
    &&& key_digits(k)
    &&& r.code == chars_of_key(k)
}

} // verus!

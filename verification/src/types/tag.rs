//! Tags, what they mean, and how they relate to each other.

use vstd::prelude::*;
use crate::ordmap::Duplicate;
use crate::types::id::TagId;
use crate::types::policy::StoragePolicy;

verus! {

/// What kind of value an attribute tag expects.
#[derive(Clone, Copy, Debug, PartialEq, Eq, Structural)]
pub enum ValueType {
    Text,
    Int,
    Float,
    Timestamp,
    Blob,
}

/// The semantic meaning of a tag.
#[derive(Clone, Copy, Debug, PartialEq, Eq, Structural)]
pub enum TagSemantics {
    /// Simple label: "electronic", "favorite".
    Label,
    /// Key and value: "artist=Aphex Twin".
    Attribute { value_type: ValueType },
    /// Unordered group: "genre:ambient".
    Grouping,
    /// Ordered collection: "playlist:workout", "album:SAW-II".
    OrderedCollection { element_constraint: Option<TagId> },
    /// Hierarchical: "location:europe/france/paris".
    Hierarchical,
}

/// Relationships between tags themselves, not between objects.
#[derive(Clone, Copy, Debug, PartialEq, Eq, PartialOrd, Ord, Structural)]
pub enum TagRelation {
    /// "car" implies "vehicle".
    ImpliedBy,
    /// "active" against "discontinued".
    MutuallyExclusive,
    /// "usb-c" requires "electronics".
    Requires,
    /// "laptop" is "notebook".
    Alias,
}

/// A tag definition in the ontology.
#[derive(Clone, Debug, PartialEq)]
pub struct TagDefinition {
    pub id: TagId,
    pub name: String,
    pub semantics: TagSemantics,
    /// The tags that this one directly implies.
    pub implies: Vec<TagId>,
    /// The storage axes that the tag declares.
    pub storage: Option<StoragePolicy>,
}

/// The mathematical content of a [`TagDefinition`].
pub ghost struct TagModel {
    pub id: TagId,
    pub name: Seq<char>,
    pub semantics: TagSemantics,
    pub implies: Seq<TagId>,
    pub storage: Option<StoragePolicy>,
}

impl View for TagDefinition {
    type V = TagModel;

    open spec fn view(&self) -> TagModel {
        TagModel {
            id: self.id,
            name: self.name@,
            semantics: self.semantics,
            implies: self.implies@,
            storage: self.storage,
        }
    }
}

impl TagDefinition {
    /// A definition that implies nothing and declares no storage axis.
    pub fn new(id: TagId, name: &str, semantics: TagSemantics) -> (r: Self)
        ensures
            r@ == (TagModel {
                id,
                name: name@,
                semantics,
                implies: Seq::empty(),
                storage: None,
            }),
    {
        TagDefinition { id, name: name.to_owned(), semantics, implies: Vec::new(), storage: None }
    }

    /// The same definition with `implies` as its implications.
    pub fn with_implies(self, implies: Vec<TagId>) -> (r: Self)
        ensures
            r@ == (TagModel { implies: implies@, ..self@ }),
    {
        TagDefinition {
            id: self.id,
            name: self.name,
            semantics: self.semantics,
            implies,
            storage: self.storage,
        }
    }

    /// A copy of the definition.
    pub fn duplicate(&self) -> (r: Self)
        ensures
            r@ == self@,
    {
        TagDefinition {
            id: self.id,
            name: self.name.clone(),
            semantics: self.semantics,
            implies: copy_tags(&self.implies),
            storage: self.storage,
        }
    }
}

impl Duplicate for TagDefinition {
    fn copy_value(&self) -> (r: Self) {
        self.duplicate()
    }
}

/// A copy of a list of tags.
pub fn copy_tags(v: &Vec<TagId>) -> (r: Vec<TagId>)
    ensures
        r@ == v@,
{
    let mut out: Vec<TagId> = Vec::new();
    let mut i: usize = 0;
    while i < v.len()
        invariant
            i <= v@.len(),
            out@ =~= v@.take(i as int),
        decreases v@.len() - i,
    {
        out.push(v[i]);
        i = i + 1;
    }
    out
}

/// Whether `t` is in the list.
pub fn has_tag(v: &Vec<TagId>, t: TagId) -> (r: bool)
    ensures
        r == v@.contains(t),
{
    let mut i: usize = 0;
    while i < v.len()
        invariant
            i <= v@.len(),
            forall|j: int| 0 <= j < i ==> v@[j] != t,
        decreases v@.len() - i,
    {
        if v[i] == t {
            proof {
                assert(v@[i as int] == t);
            }
            return true;
        }
        i = i + 1;
    }
    false
}

} // verus!

//! Errors of the ontology.

use vstd::prelude::*;
use crate::types::id::{ModuleId, TagId};

verus! {

/// One of the three things that a storage policy decides.
#[derive(Clone, Copy, Debug, PartialEq, Eq, Structural)]
pub enum StorageAxis {
    Chunking,
    Compression,
    Encryption,
}

/// What can go wrong in the ontology.
#[derive(Clone, Debug, PartialEq, Eq)]
pub enum OntologyError {
    /// The tag is not a node of the implication graph.
    TagNotFound(TagId),
    /// A tag was asked for by a name that none has.
    TagNameNotFound(String),
    /// A second tag would have the name.
    DuplicateTagName(String),
    /// No tag has this name.
    UnknownTag(String),
    /// The implications would contain a cycle through `to`, into which
    /// `from` leads.
    CycleDetected { from: TagId, to: TagId },
    /// Two tags declare the same storage axis and neither implies the other.
    AxisConflict { axis: StorageAxis, a: TagId, a_name: String, b: TagId, b_name: String },
    ModuleAlreadyInstalled(ModuleId),
    ModuleNotInstalled(ModuleId),
    /// The module's text or content is not acceptable.
    ModuleParse(String),
    /// The module cannot be written out.
    ModuleSerialise(String),
    /// The stored image cannot be read or written.
    Cbor(String),
}

} // verus!

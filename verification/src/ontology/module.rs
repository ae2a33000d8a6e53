//! Ontology modules: the unit in which tags, implications and relations are
//! distributed and installed, and the shape of their TOML text.

use vstd::prelude::*;
use crate::ontology::error::OntologyError;
use crate::text::{joined, same_text};
use crate::types::id::{ModuleId, TagId};
use crate::types::policy::{ChunkParams, ChunkingAlgo, CompressionAlgo, EncryptionMode,
    StoragePolicy};
use crate::types::tag::{TagDefinition, TagModel, TagRelation, TagSemantics, ValueType};

verus! {

/// A parsed ontology module.
///
/// The ids of `tags` are placeholders until the module is installed.
#[derive(Clone, Debug, PartialEq)]
pub struct OntologyModule {
    pub id: ModuleId,
    pub version: String,
    pub name: String,
    pub tags: Vec<TagDefinition>,
    /// `(from, to)` pairs of tag names.
    pub implications: Vec<(String, String)>,
    /// `(from, kind, to)` for the relations that are not implications.
    pub relations: Vec<(String, TagRelation, String)>,
}

/// The mathematical content of an [`OntologyModule`].
pub ghost struct ModuleModel {
    pub id: Seq<char>,
    pub version: Seq<char>,
    pub name: Seq<char>,
    pub tags: Seq<TagModel>,
    pub implications: Seq<(Seq<char>, Seq<char>)>,
    pub relations: Seq<(Seq<char>, TagRelation, Seq<char>)>,
}

impl View for OntologyModule {
    type V = ModuleModel;

    open spec fn view(&self) -> ModuleModel {
        ModuleModel {
            id: self.id@,
            version: self.version@,
            name: self.name@,
            tags: self.tags@.map_values(|d: TagDefinition| d@),
            implications: self.implications@.map_values(|p: (String, String)| (p.0@, p.1@)),
            relations: self.relations@.map_values(
                |p: (String, TagRelation, String)| (p.0@, p.1, p.2@),
            ),
        }
    }
}

/// What installing a module did.
#[derive(Clone, Debug, PartialEq, Eq)]
pub struct InstallResult {
    pub tags_registered: usize,
    pub tags_skipped: usize,
    pub implications_added: usize,
    pub module_id: ModuleId,
    pub module_name: String,
}

/// Hands out fresh tag ids. Kept across installs so that ids never collide.
#[derive(Clone, Copy, Debug)]
pub struct IdAllocator {
    pub next: u32,
}

impl Default for IdAllocator {
    /// An allocator that would hand out the reserved id `0` first.
    fn default() -> (r: Self)
        ensures
            r.next == 0,
    {
        IdAllocator { next: 0 }
    }
}

impl IdAllocator {
    /// An allocator that starts at `1`; id `0` means "not allocated".
    pub fn new() -> (r: Self)
        ensures
            r.next == 1,
    {
        IdAllocator { next: 1 }
    }

    /// An allocator that starts at `start`, but not below `1`.
    pub fn starting_at(start: u32) -> (r: Self)
        ensures
            r.next == if start < 1 { 1 } else { start },
    {
        IdAllocator { next: if start < 1 { 1 } else { start } }
    }

    /// The next id.
    pub fn next_id(&mut self) -> (r: TagId)
        requires
            old(self).next < u32::MAX,
        ensures
            r.id == old(self).next,
            final(self).next == old(self).next + 1,
    {
        let id = TagId::new(self.next);
        self.next = self.next + 1;
        id
    }

    /// Move past `id`, so that it is not handed out later.
    pub fn observe(&mut self, id: TagId)
        requires
            id.id < old(self).next || id.id < u32::MAX,
        ensures
            final(self).next == if id.id >= old(self).next { id.id + 1 } else { old(self).next as int },
    {
        if id.raw() >= self.next {
            self.next = id.raw() + 1;
        }
    }
}

/// A module as it stands in TOML text.
#[derive(Clone, Debug)]
pub struct TomlModule {
    pub module: TomlHeader,
    pub tags: Vec<TomlTag>,
    pub implications: Vec<TomlImplication>,
    pub relations: Vec<TomlRelation>,
}

/// The `[module]` table.
#[derive(Clone, Debug)]
pub struct TomlHeader {
    pub id: String,
    pub version: String,
    pub name: String,
}

/// One `[[tags]]` entry.
#[derive(Clone, Debug)]
pub struct TomlTag {
    pub name: String,
    pub semantics: String,
    pub value_type: Option<String>,
    pub element_constraint: Option<String>,
    pub storage: Option<TomlStoragePolicy>,
}

/// The storage axes of a tag.
#[derive(Clone, Debug)]
pub struct TomlStoragePolicy {
    pub chunking: Option<TomlChunkParams>,
    pub compression: Option<TomlCompression>,
    pub encryption: Option<TomlEncryption>,
}

/// A chunking algorithm with its sizes.
#[derive(Clone, Debug)]
pub struct TomlChunkParams {
    pub algo: String,
    pub min_size: u32,
    pub avg_size: u32,
    pub max_size: u32,
}

/// A compression algorithm, with or without a level.
#[derive(Clone, Debug)]
pub enum TomlCompression {
    Plain(String),
    Levelled { algo: String, level: i32 },
}

/// An encryption mode, with or without an object id.
#[derive(Clone, Debug)]
pub enum TomlEncryption {
    Plain(String),
    Hctr2 { algo: String, object_id: u64 },
}

/// One `[[implications]]` entry.
#[derive(Clone, Debug)]
pub struct TomlImplication {
    pub from: String,
    pub to: String,
}

/// One `[[relations]]` entry.
#[derive(Clone, Debug)]
pub struct TomlRelation {
    pub from: String,
    /// One of `mutex` or `mutually-exclusive`, `requires`, `alias`.
    pub kind: String,
    pub to: String,
}

/// Why a module's text is refused.
pub ghost enum ModuleFault {
    /// A name of a tag that the module does not define.
    Unknown(Seq<char>),
    /// Anything else, with the message.
    Bad(Seq<char>),
}

/// `e` reports the fault `f`.
pub open spec fn reports(e: OntologyError, f: ModuleFault) -> bool {
    match f {
        ModuleFault::Unknown(n) => match e {
            OntologyError::UnknownTag(s) => s@ == n,
            _ => false,
        },
        ModuleFault::Bad(m) => match e {
            OntologyError::ModuleParse(s) => s@ == m,
            _ => false,
        },
    }
}

/// The text of an optional string.
pub open spec fn opt_text(s: Option<String>) -> Option<Seq<char>> {
    match s {
        Some(t) => Some(t@),
        None => None,
    }
}

/// What a value type's name means.
pub open spec fn value_type_named(s: Seq<char>) -> Option<ValueType> {
    if s == "text"@ {
        Some(ValueType::Text)
    } else if s == "int"@ {
        Some(ValueType::Int)
    } else if s == "float"@ {
        Some(ValueType::Float)
    } else if s == "timestamp"@ {
        Some(ValueType::Timestamp)
    } else if s == "blob"@ {
        Some(ValueType::Blob)
    } else {
        None
    }
}

/// What a tag's `semantics` and `value_type` mean.
pub open spec fn semantics_named(s: Seq<char>, value_type: Option<Seq<char>>) -> Result<
    TagSemantics,
    ModuleFault,
> {
    if s == "label"@ {
        Ok(TagSemantics::Label)
    } else if s == "attribute"@ || s == "attr"@ {
        let v = match value_type {
            Some(t) => t,
            None => "text"@,
        };
        match value_type_named(v) {
            Some(t) => Ok(TagSemantics::Attribute { value_type: t }),
            None => Err(ModuleFault::Bad("unknown value type `"@ + v + "`"@)),
        }
    } else if s == "grouping"@ {
        Ok(TagSemantics::Grouping)
    } else if s == "ordered-collection"@ || s == "ordered"@ {
        Ok(TagSemantics::OrderedCollection { element_constraint: None })
    } else if s == "hierarchical"@ {
        Ok(TagSemantics::Hierarchical)
    } else {
        Err(ModuleFault::Bad("unknown semantics `"@ + s + "`"@))
    }
}

/// What a relation's `kind` means.
pub open spec fn relation_named(s: Seq<char>) -> Result<TagRelation, ModuleFault> {
    if s == "mutex"@ || s == "mutually-exclusive"@ {
        Ok(TagRelation::MutuallyExclusive)
    } else if s == "requires"@ {
        Ok(TagRelation::Requires)
    } else if s == "alias"@ {
        Ok(TagRelation::Alias)
    } else if s == "implies"@ || s == "implied-by"@ || s == "is-a"@ {
        Err(ModuleFault::Bad("use [[implications]] for relation kind `"@ + s + "`"@))
    } else {
        Err(ModuleFault::Bad("unknown relation kind `"@ + s + "`"@))
    }
}

/// What a chunking table means.
pub open spec fn chunking_named(c: Option<TomlChunkParams>) -> Result<
    Option<ChunkParams>,
    ModuleFault,
> {
    match c {
        None => Ok(None),
        Some(c) => {
            let algo = if c.algo@ == "none"@ {
                Some(ChunkingAlgo::Whole)
            } else if c.algo@ == "fixed"@ || c.algo@ == "fixed-size"@ {
                Some(ChunkingAlgo::FixedSize)
            } else if c.algo@ == "fastcdc"@ || c.algo@ == "cdc"@ {
                Some(ChunkingAlgo::FastCDC)
            } else {
                None
            };
            match algo {
                Some(a) => Ok(
                    Some(
                        ChunkParams {
                            algo: a,
                            min_size: c.min_size,
                            avg_size: c.avg_size,
                            max_size: c.max_size,
                        },
                    ),
                ),
                None => Err(ModuleFault::Bad("unknown chunking algo `"@ + c.algo@ + "`"@)),
            }
        },
    }
}

/// What a compression entry means.
pub open spec fn compression_named(c: Option<TomlCompression>) -> Result<
    Option<CompressionAlgo>,
    ModuleFault,
> {
    match c {
        None => Ok(None),
        Some(TomlCompression::Plain(name)) => if name@ == "none"@ {
            Ok(Some(CompressionAlgo::Off))
        } else if name@ == "lz4"@ {
            Ok(Some(CompressionAlgo::Lz4))
        } else if name@ == "zstd"@ {
            Ok(Some(CompressionAlgo::Zstd(3)))
        } else {
            Err(ModuleFault::Bad("unknown compression algo `"@ + name@ + "`"@))
        },
        Some(TomlCompression::Levelled { algo, level }) => if algo@ == "zstd"@ {
            Ok(Some(CompressionAlgo::Zstd(level)))
        } else {
            Err(ModuleFault::Bad("compression algo `"@ + algo@ + "` does not take a level"@))
        },
    }
}

/// What an encryption entry means.
pub open spec fn encryption_named(e: Option<TomlEncryption>) -> Result<
    Option<EncryptionMode>,
    ModuleFault,
> {
    match e {
        None => Ok(None),
        Some(TomlEncryption::Plain(name)) => if name@ == "none"@ {
            Ok(Some(EncryptionMode::Off))
        } else if name@ == "xts"@ {
            Ok(Some(EncryptionMode::Xts))
        } else if name@ == "aes-gcm"@ || name@ == "gcm"@ {
            Ok(Some(EncryptionMode::AesGcm))
        } else if name@ == "chacha20"@ || name@ == "chacha20-poly1305"@ {
            Ok(Some(EncryptionMode::ChaCha20Poly1305))
        } else {
            Err(ModuleFault::Bad("unknown encryption mode `"@ + name@ + "`"@))
        },
        Some(TomlEncryption::Hctr2 { algo, object_id }) => if algo@ == "hctr2"@ {
            Ok(Some(EncryptionMode::Hctr2 { object_id }))
        } else {
            Err(ModuleFault::Bad("encryption mode `"@ + algo@ + "` does not take an object_id"@))
        },
    }
}

/// What a storage table means. The axes are read in order; the first bad one
/// is the fault.
pub open spec fn storage_named(s: Option<TomlStoragePolicy>) -> Result<
    Option<StoragePolicy>,
    ModuleFault,
> {
    match s {
        None => Ok(None),
        Some(p) => match chunking_named(p.chunking) {
            Err(f) => Err(f),
            Ok(chunking) => match compression_named(p.compression) {
                Err(f) => Err(f),
                Ok(compression) => match encryption_named(p.encryption) {
                    Err(f) => Err(f),
                    Ok(encryption) => Ok(
                        Some(StoragePolicy { chunking, compression, encryption }),
                    ),
                },
            },
        },
    }
}

/// The module defines a tag of this name.
pub open spec fn defines(tags: Seq<TomlTag>, name: Seq<char>) -> bool {
    exists|i: int| 0 <= i < tags.len() && (#[trigger] tags[i]).name@ == name
}

/// What one tag entry means among all entries of the module.
pub open spec fn tag_named(t: TomlTag, all: Seq<TomlTag>) -> Result<TagModel, ModuleFault> {
    match semantics_named(t.semantics@, opt_text(t.value_type)) {
        Err(f) => Err(f),
        Ok(semantics) => if semantics is OrderedCollection && t.element_constraint is Some
            && !defines(all, t.element_constraint->0@) {
            Err(ModuleFault::Unknown(t.element_constraint->0@))
        } else {
            match storage_named(t.storage) {
                Err(f) => Err(f),
                Ok(storage) => Ok(
                    TagModel {
                        id: TagId { id: 0 },
                        name: t.name@,
                        semantics,
                        implies: Seq::empty(),
                        storage,
                    },
                ),
            }
        },
    }
}

/// What the first `k` tag entries mean; the first bad one is the fault.
pub open spec fn tags_named(tags: Seq<TomlTag>, k: int) -> Result<Seq<TagModel>, ModuleFault>
    decreases k,
{
    if k <= 0 {
        Ok(Seq::empty())
    } else {
        match tags_named(tags, k - 1) {
            Err(f) => Err(f),
            Ok(s) => match tag_named(tags[k - 1], tags) {
                Err(f) => Err(f),
                Ok(t) => Ok(s.push(t)),
            },
        }
    }
}

/// What the first `k` relation entries mean; the first bad one is the fault.
pub open spec fn relations_named(rels: Seq<TomlRelation>, k: int) -> Result<
    Seq<(Seq<char>, TagRelation, Seq<char>)>,
    ModuleFault,
>
    decreases k,
{
    if k <= 0 {
        Ok(Seq::empty())
    } else {
        match relations_named(rels, k - 1) {
            Err(f) => Err(f),
            Ok(s) => match relation_named(rels[k - 1].kind@) {
                Err(f) => Err(f),
                Ok(kind) => Ok(s.push((rels[k - 1].from@, kind, rels[k - 1].to@))),
            },
        }
    }
}

/// What a module's text means.
pub open spec fn module_named(m: TomlModule) -> Result<ModuleModel, ModuleFault> {
    match tags_named(m.tags@, m.tags@.len() as int) {
        Err(f) => Err(f),
        Ok(tags) => match relations_named(m.relations@, m.relations@.len() as int) {
            Err(f) => Err(f),
            Ok(relations) => Ok(
                ModuleModel {
                    id: m.module.id@,
                    version: m.module.version@,
                    name: m.module.name@,
                    tags,
                    implications: m.implications@.map_values(|i: TomlImplication| (i.from@, i.to@)),
                    relations,
                },
            ),
        },
    }
}

fn bad(head: &str, name: &str, tail: &str) -> (r: OntologyError)
    ensures
        reports(r, ModuleFault::Bad(head@ + name@ + tail@)),
{
    OntologyError::ModuleParse(joined(head, name, tail))
}

fn parse_semantics(s: &str, value_type: Option<&String>) -> (r: Result<TagSemantics, OntologyError>)
    ensures
        match semantics_named(
            s@,
            match value_type {
                Some(t) => Some(t@),
                None => None,
            },
        ) {
            Ok(t) => r == Ok::<TagSemantics, OntologyError>(t),
            Err(f) => r is Err && reports(r->Err_0, f),
        },
{
    if same_text(s, "label") {
        Ok(TagSemantics::Label)
    } else if same_text(s, "attribute") || same_text(s, "attr") {
        let v: &str = match value_type {
            Some(t) => t.as_str(),
            None => "text",
        };
        let vt = if same_text(v, "text") {
            ValueType::Text
        } else if same_text(v, "int") {
            ValueType::Int
        } else if same_text(v, "float") {
            ValueType::Float
        } else if same_text(v, "timestamp") {
            ValueType::Timestamp
        } else if same_text(v, "blob") {
            ValueType::Blob
        } else {
            return Err(bad("unknown value type `", v, "`"));
        };
        Ok(TagSemantics::Attribute { value_type: vt })
    } else if same_text(s, "grouping") {
        Ok(TagSemantics::Grouping)
    } else if same_text(s, "ordered-collection") || same_text(s, "ordered") {
        Ok(TagSemantics::OrderedCollection { element_constraint: None })
    } else if same_text(s, "hierarchical") {
        Ok(TagSemantics::Hierarchical)
    } else {
        Err(bad("unknown semantics `", s, "`"))
    }
}

fn parse_relation_kind(s: &str) -> (r: Result<TagRelation, OntologyError>)
    ensures
        match relation_named(s@) {
            Ok(k) => r == Ok::<TagRelation, OntologyError>(k),
            Err(f) => r is Err && reports(r->Err_0, f),
        },
{
    if same_text(s, "mutex") || same_text(s, "mutually-exclusive") {
        Ok(TagRelation::MutuallyExclusive)
    } else if same_text(s, "requires") {
        Ok(TagRelation::Requires)
    } else if same_text(s, "alias") {
        Ok(TagRelation::Alias)
    } else if same_text(s, "implies") || same_text(s, "implied-by") || same_text(s, "is-a") {
        Err(bad("use [[implications]] for relation kind `", s, "`"))
    } else {
        Err(bad("unknown relation kind `", s, "`"))
    }
}

fn parse_chunking(c: &Option<TomlChunkParams>) -> (r: Result<Option<ChunkParams>, OntologyError>)
    ensures
        match chunking_named(*c) {
            Ok(p) => r == Ok::<Option<ChunkParams>, OntologyError>(p),
            Err(f) => r is Err && reports(r->Err_0, f),
        },
{
    match c {
        None => Ok(None),
        Some(c) => {
            let algo = if same_text(c.algo.as_str(), "none") {
                ChunkingAlgo::Whole
            } else if same_text(c.algo.as_str(), "fixed") || same_text(
                c.algo.as_str(),
                "fixed-size",
            ) {
                ChunkingAlgo::FixedSize
            } else if same_text(c.algo.as_str(), "fastcdc") || same_text(c.algo.as_str(), "cdc") {
                ChunkingAlgo::FastCDC
            } else {
                return Err(bad("unknown chunking algo `", c.algo.as_str(), "`"));
            };
            Ok(
                Some(
                    ChunkParams {
                        algo,
                        min_size: c.min_size,
                        avg_size: c.avg_size,
                        max_size: c.max_size,
                    },
                ),
            )
        },
    }
}

fn parse_compression(c: &Option<TomlCompression>) -> (r: Result<
    Option<CompressionAlgo>,
    OntologyError,
>)
    ensures
        match compression_named(*c) {
            Ok(p) => r == Ok::<Option<CompressionAlgo>, OntologyError>(p),
            Err(f) => r is Err && reports(r->Err_0, f),
        },
{
    match c {
        None => Ok(None),
        Some(TomlCompression::Plain(name)) => {
            if same_text(name.as_str(), "none") {
                Ok(Some(CompressionAlgo::Off))
            } else if same_text(name.as_str(), "lz4") {
                Ok(Some(CompressionAlgo::Lz4))
            } else if same_text(name.as_str(), "zstd") {
                Ok(Some(CompressionAlgo::Zstd(3)))
            } else {
                Err(bad("unknown compression algo `", name.as_str(), "`"))
            }
        },
        Some(TomlCompression::Levelled { algo, level }) => {
            if same_text(algo.as_str(), "zstd") {
                Ok(Some(CompressionAlgo::Zstd(*level)))
            } else {
                Err(bad("compression algo `", algo.as_str(), "` does not take a level"))
            }
        },
    }
}

fn parse_encryption(e: &Option<TomlEncryption>) -> (r: Result<
    Option<EncryptionMode>,
    OntologyError,
>)
    ensures
        match encryption_named(*e) {
            Ok(p) => r == Ok::<Option<EncryptionMode>, OntologyError>(p),
            Err(f) => r is Err && reports(r->Err_0, f),
        },
{
    match e {
        None => Ok(None),
        Some(TomlEncryption::Plain(name)) => {
            if same_text(name.as_str(), "none") {
                Ok(Some(EncryptionMode::Off))
            } else if same_text(name.as_str(), "xts") {
                Ok(Some(EncryptionMode::Xts))
            } else if same_text(name.as_str(), "aes-gcm") || same_text(name.as_str(), "gcm") {
                Ok(Some(EncryptionMode::AesGcm))
            } else if same_text(name.as_str(), "chacha20") || same_text(
                name.as_str(),
                "chacha20-poly1305",
            ) {
                Ok(Some(EncryptionMode::ChaCha20Poly1305))
            } else {
                Err(bad("unknown encryption mode `", name.as_str(), "`"))
            }
        },
        Some(TomlEncryption::Hctr2 { algo, object_id }) => {
            if same_text(algo.as_str(), "hctr2") {
                Ok(Some(EncryptionMode::Hctr2 { object_id: *object_id }))
            } else {
                Err(bad("encryption mode `", algo.as_str(), "` does not take an object_id"))
            }
        },
    }
}

/// The storage policy that a table means, none where there is no table.
pub fn parse_storage(s: &Option<TomlStoragePolicy>) -> (r: Result<
    Option<StoragePolicy>,
    OntologyError,
>)
    ensures
        match storage_named(*s) {
            Ok(p) => r == Ok::<Option<StoragePolicy>, OntologyError>(p),
            Err(f) => r is Err && reports(r->Err_0, f),
        },
{
    match s {
        None => Ok(None),
        Some(p) => {
            let chunking = match parse_chunking(&p.chunking) {
                Ok(c) => c,
                Err(e) => {
                    return Err(e);
                },
            };
            let compression = match parse_compression(&p.compression) {
                Ok(c) => c,
                Err(e) => {
                    return Err(e);
                },
            };
            let encryption = match parse_encryption(&p.encryption) {
                Ok(c) => c,
                Err(e) => {
                    return Err(e);
                },
            };
            Ok(Some(StoragePolicy { chunking, compression, encryption }))
        },
    }
}

fn defines_name(tags: &Vec<TomlTag>, name: &str) -> (r: bool)
    ensures
        r == defines(tags@, name@),
{
    let mut i: usize = 0;
    while i < tags.len()
        invariant
            i <= tags@.len(),
            forall|j: int| 0 <= j < i ==> (#[trigger] tags@[j]).name@ != name@,
        decreases tags@.len() - i,
    {
        if same_text(tags[i].name.as_str(), name) {
            return true;
        }
        i = i + 1;
    }
    false
}

fn parse_tag(t: &TomlTag, all: &Vec<TomlTag>) -> (r: Result<TagDefinition, OntologyError>)
    ensures
        match tag_named(*t, all@) {
            Ok(m) => r is Ok && r->Ok_0@ == m,
            Err(f) => r is Err && reports(r->Err_0, f),
        },
{
    let semantics = match parse_semantics(t.semantics.as_str(), t.value_type.as_ref()) {
        Ok(s) => s,
        Err(e) => {
            return Err(e);
        },
    };
    match semantics {
        TagSemantics::OrderedCollection { element_constraint: _ } => {
            match &t.element_constraint {
                Some(name) => {
                    if !defines_name(all, name.as_str()) {
                        return Err(OntologyError::UnknownTag(name.clone()));
                    }
                },
                None => {},
            }
        },
        _ => {},
    }
    let storage = match parse_storage(&t.storage) {
        Ok(s) => s,
        Err(e) => {
            return Err(e);
        },
    };
    let def = TagDefinition {
        id: TagId::new(0),
        name: t.name.clone(),
        semantics,
        implies: Vec::new(),
        storage,
    };
    Ok(def)
}

/// The name of a value type.
pub open spec fn value_type_text(t: ValueType) -> Seq<char> {
    match t {
        ValueType::Text => "text"@,
        ValueType::Int => "int"@,
        ValueType::Float => "float"@,
        ValueType::Timestamp => "timestamp"@,
        ValueType::Blob => "blob"@,
    }
}

/// The `semantics` and `value_type` that stand for `s`.
pub open spec fn semantics_text(s: TagSemantics) -> (Seq<char>, Option<Seq<char>>) {
    match s {
        TagSemantics::Label => ("label"@, None),
        TagSemantics::Attribute { value_type } => (
            "attribute"@,
            Some(value_type_text(value_type)),
        ),
        TagSemantics::Grouping => ("grouping"@, None),
        TagSemantics::OrderedCollection { element_constraint: _ } => ("ordered-collection"@, None),
        TagSemantics::Hierarchical => ("hierarchical"@, None),
    }
}

/// The `kind` that stands for a relation.
pub open spec fn relation_text(k: TagRelation) -> Seq<char> {
    match k {
        TagRelation::MutuallyExclusive => "mutually-exclusive"@,
        TagRelation::Requires => "requires"@,
        TagRelation::Alias => "alias"@,
        TagRelation::ImpliedBy => "implied-by"@,
    }
}

fn encode_semantics(s: &TagSemantics) -> (r: (String, Option<String>))
    ensures
        (r.0@, opt_text(r.1)) == semantics_text(*s),
{
    match s {
        TagSemantics::Label => ("label".to_owned(), None),
        TagSemantics::Attribute { value_type } => {
            let vt: &str = match value_type {
                ValueType::Text => "text",
                ValueType::Int => "int",
                ValueType::Float => "float",
                ValueType::Timestamp => "timestamp",
                ValueType::Blob => "blob",
            };
            ("attribute".to_owned(), Some(vt.to_owned()))
        },
        TagSemantics::Grouping => ("grouping".to_owned(), None),
        TagSemantics::OrderedCollection { element_constraint: _ } => (
            "ordered-collection".to_owned(),
            None,
        ),
        TagSemantics::Hierarchical => ("hierarchical".to_owned(), None),
    }
}

/// The text for a relation's kind.
fn relation_kind_to_str(kind: TagRelation) -> (r: &'static str)
    ensures
        r@ == relation_text(kind),
{
    match kind {
        TagRelation::MutuallyExclusive => "mutually-exclusive",
        TagRelation::Requires => "requires",
        TagRelation::Alias => "alias",
        TagRelation::ImpliedBy => "implied-by",
    }
}

/// The table `t` spells out the policy `p`.
pub open spec fn spells_storage(t: Option<TomlStoragePolicy>, p: Option<StoragePolicy>) -> bool {
    match p {
        None => t is None,
        Some(p) => match t {
            None => false,
            Some(t) => {
                &&& match p.chunking {
                    None => t.chunking is None,
                    Some(c) => {
                        &&& t.chunking is Some
                        &&& t.chunking->0.algo@ == match c.algo {
                            ChunkingAlgo::Whole => "none"@,
                            ChunkingAlgo::FixedSize => "fixed"@,
                            ChunkingAlgo::FastCDC => "fastcdc"@,
                        }
                        &&& t.chunking->0.min_size == c.min_size
                        &&& t.chunking->0.avg_size == c.avg_size
                        &&& t.chunking->0.max_size == c.max_size
                    },
                }
                &&& match p.compression {
                    None => t.compression is None,
                    Some(CompressionAlgo::Off) => t.compression is Some
                        && t.compression->0 is Plain && t.compression->0->Plain_0@ == "none"@,
                    Some(CompressionAlgo::Lz4) => t.compression is Some
                        && t.compression->0 is Plain && t.compression->0->Plain_0@ == "lz4"@,
                    Some(CompressionAlgo::Zstd(l)) => t.compression is Some
                        && t.compression->0 is Levelled && t.compression->0->algo@ == "zstd"@
                        && t.compression->0->level == l,
                }
                &&& match p.encryption {
                    None => t.encryption is None,
                    Some(EncryptionMode::Hctr2 { object_id }) => t.encryption is Some
                        && t.encryption->0 is Hctr2 && t.encryption->0->algo@ == "hctr2"@
                        && t.encryption->0->object_id == object_id,
                    Some(e) => t.encryption is Some && t.encryption->0 is Plain
                        && t.encryption->0->Plain_0@ == match e {
                        EncryptionMode::Off => "none"@,
                        EncryptionMode::Xts => "xts"@,
                        EncryptionMode::AesGcm => "aes-gcm"@,
                        _ => "chacha20-poly1305"@,
                    },
                }
            },
        },
    }
}

/// The table of a storage policy, none where there is no policy.
pub fn encode_storage(p: &Option<StoragePolicy>) -> (r: Option<TomlStoragePolicy>)
    ensures
        spells_storage(r, *p),
{
    match p {
        None => None,
        Some(p) => {
            let chunking = match p.chunking {
                None => None,
                Some(c) => {
                    let algo: &str = match c.algo {
                        ChunkingAlgo::Whole => "none",
                        ChunkingAlgo::FixedSize => "fixed",
                        ChunkingAlgo::FastCDC => "fastcdc",
                    };
                    Some(
                        TomlChunkParams {
                            algo: algo.to_owned(),
                            min_size: c.min_size,
                            avg_size: c.avg_size,
                            max_size: c.max_size,
                        },
                    )
                },
            };
            let compression = match p.compression {
                None => None,
                Some(CompressionAlgo::Off) => Some(TomlCompression::Plain("none".to_owned())),
                Some(CompressionAlgo::Lz4) => Some(TomlCompression::Plain("lz4".to_owned())),
                Some(CompressionAlgo::Zstd(level)) => Some(
                    TomlCompression::Levelled { algo: "zstd".to_owned(), level },
                ),
            };
            let encryption = match p.encryption {
                None => None,
                Some(EncryptionMode::Off) => Some(TomlEncryption::Plain("none".to_owned())),
                Some(EncryptionMode::Xts) => Some(TomlEncryption::Plain("xts".to_owned())),
                Some(EncryptionMode::AesGcm) => Some(TomlEncryption::Plain("aes-gcm".to_owned())),
                Some(EncryptionMode::ChaCha20Poly1305) => Some(
                    TomlEncryption::Plain("chacha20-poly1305".to_owned()),
                ),
                Some(EncryptionMode::Hctr2 { object_id }) => Some(
                    TomlEncryption::Hctr2 { algo: "hctr2".to_owned(), object_id },
                ),
            };
            Some(TomlStoragePolicy { chunking, compression, encryption })
        },
    }
}

/// The entry `t` spells out the definition `d`, its id and implications left out.
pub open spec fn spells_tag(t: TomlTag, d: TagModel) -> bool {
    &&& t.name@ == d.name
    &&& (t.semantics@, opt_text(t.value_type)) == semantics_text(d.semantics)
    &&& t.element_constraint is None
    &&& spells_storage(t.storage, d.storage)
}

/// The text `t` spells out the module `m`.
pub open spec fn spells_module(t: TomlModule, m: ModuleModel) -> bool {
    &&& t.module.id@ == m.id
    &&& t.module.version@ == m.version
    &&& t.module.name@ == m.name
    &&& t.tags@.len() == m.tags.len()
    &&& forall|i: int| 0 <= i < m.tags.len() ==> spells_tag(#[trigger] t.tags@[i], m.tags[i])
    &&& t.implications@.map_values(|i: TomlImplication| (i.from@, i.to@)) == m.implications
    &&& t.relations@.len() == m.relations.len()
    &&& forall|i: int|
        0 <= i < m.relations.len() ==> (#[trigger] t.relations@[i]).from@ == m.relations[i].0
            && t.relations@[i].kind@ == relation_text(m.relations[i].1) && t.relations@[i].to@
            == m.relations[i].2
}

impl OntologyModule {
    /// Take a module from its TOML tables. Tag ids are left as placeholder
    /// zeros. An `element_constraint` has to name a tag of the module.
    pub fn from_toml(parsed: TomlModule) -> (r: Result<Self, OntologyError>)
        ensures
            match module_named(parsed) {
                Ok(m) => r is Ok && r->Ok_0@ == m,
                Err(f) => r is Err && reports(r->Err_0, f),
            },
    {
        let ghost all = parsed.tags@;
        let mut tags: Vec<TagDefinition> = Vec::new();
        let mut i: usize = 0;
        proof {
            assert(tags@.map_values(|d: TagDefinition| d@) =~= Seq::<TagModel>::empty());
        }
        while i < parsed.tags.len()
            invariant
                i <= all.len(),
                all == parsed.tags@,
                tags_named(all, i as int) == Ok::<Seq<TagModel>, ModuleFault>(
                    tags@.map_values(|d: TagDefinition| d@),
                ),
            decreases all.len() - i,
        {
            match parse_tag(&parsed.tags[i], &parsed.tags) {
                Ok(d) => {
                    let ghost before = tags@.map_values(|d: TagDefinition| d@);
                    tags.push(d);
                    proof {
                        assert(tags@.map_values(|d: TagDefinition| d@) =~= before.push(d@));
                    }
                },
                Err(e) => {
                    proof {
                        assert(tags_named(all, i + 1) is Err);
                        lemma_tags_fault(all, i + 1, all.len() as int);
                    }
                    return Err(e);
                },
            }
            i = i + 1;
        }
        let mut implications: Vec<(String, String)> = Vec::new();
        let ghost imps = parsed.implications@;
        let mut j: usize = 0;
        while j < parsed.implications.len()
            invariant
                j <= imps.len(),
                imps == parsed.implications@,
                implications@.len() == j,
                forall|x: int|
                    0 <= x < j ==> (#[trigger] implications@[x]).0@ == imps[x].from@
                        && implications@[x].1@ == imps[x].to@,
            decreases imps.len() - j,
        {
            implications.push(
                (parsed.implications[j].from.clone(), parsed.implications[j].to.clone()),
            );
            j = j + 1;
        }
        proof {
            assert(implications@.map_values(|p: (String, String)| (p.0@, p.1@))
                =~= imps.map_values(|i: TomlImplication| (i.from@, i.to@)));
        }
        let ghost rels = parsed.relations@;
        let mut relations: Vec<(String, TagRelation, String)> = Vec::new();
        let mut k: usize = 0;
        proof {
            assert(relations@.map_values(|p: (String, TagRelation, String)| (p.0@, p.1, p.2@))
                =~= Seq::<(Seq<char>, TagRelation, Seq<char>)>::empty());
        }
        while k < parsed.relations.len()
            invariant
                k <= rels.len(),
                rels == parsed.relations@,
                relations_named(rels, k as int) == Ok::<
                    Seq<(Seq<char>, TagRelation, Seq<char>)>,
                    ModuleFault,
                >(relations@.map_values(|p: (String, TagRelation, String)| (p.0@, p.1, p.2@))),
                tags_named(parsed.tags@, parsed.tags@.len() as int) is Ok,
            decreases rels.len() - k,
        {
            let kind = match parse_relation_kind(parsed.relations[k].kind.as_str()) {
                Ok(kind) => kind,
                Err(e) => {
                    proof {
                        assert(relations_named(rels, k + 1) is Err);
                        lemma_relations_fault(rels, k + 1, rels.len() as int);
                    }
                    return Err(e);
                },
            };
            let ghost before = relations@.map_values(
                |p: (String, TagRelation, String)| (p.0@, p.1, p.2@),
            );
            let item = (
                parsed.relations[k].from.clone(),
                kind,
                parsed.relations[k].to.clone(),
            );
            relations.push(item);
            proof {
                assert(relations@.map_values(|p: (String, TagRelation, String)| (p.0@, p.1, p.2@))
                    =~= before.push((item.0@, item.1, item.2@)));
            }
            k = k + 1;
        }
        Ok(
            OntologyModule {
                id: parsed.module.id,
                version: parsed.module.version,
                name: parsed.module.name,
                tags,
                implications,
                relations,
            },
        )
    }

    /// The module's TOML tables. Tag ids, the tags' own implication lists and
    /// element constraints are left out.
    pub fn to_toml(&self) -> (r: TomlModule)
        ensures
            spells_module(r, self@),
    {
        let mut tags: Vec<TomlTag> = Vec::new();
        let mut i: usize = 0;
        while i < self.tags.len()
            invariant
                i <= self.tags@.len(),
                tags@.len() == i,
                forall|x: int| 0 <= x < i ==> spells_tag(#[trigger] tags@[x], self.tags@[x]@),
            decreases self.tags@.len() - i,
        {
            let d = &self.tags[i];
            let (semantics, value_type) = encode_semantics(&d.semantics);
            let t = TomlTag {
                name: d.name.clone(),
                semantics,
                value_type,
                element_constraint: None,
                storage: encode_storage(&d.storage),
            };
            tags.push(t);
            i = i + 1;
        }
        let mut implications: Vec<TomlImplication> = Vec::new();
        let mut j: usize = 0;
        while j < self.implications.len()
            invariant
                j <= self.implications@.len(),
                implications@.len() == j,
                forall|x: int|
                    0 <= x < j ==> (#[trigger] implications@[x]).from@ == self.implications@[x].0@
                        && implications@[x].to@ == self.implications@[x].1@,
            decreases self.implications@.len() - j,
        {
            implications.push(
                TomlImplication {
                    from: self.implications[j].0.clone(),
                    to: self.implications[j].1.clone(),
                },
            );
            j = j + 1;
        }
        proof {
            assert(implications@.map_values(|i: TomlImplication| (i.from@, i.to@))
                =~= self@.implications);
        }
        let mut relations: Vec<TomlRelation> = Vec::new();
        let mut k: usize = 0;
        while k < self.relations.len()
            invariant
                k <= self.relations@.len(),
                relations@.len() == k,
                forall|x: int|
                    0 <= x < k ==> (#[trigger] relations@[x]).from@ == self.relations@[x].0@
                        && relations@[x].kind@ == relation_text(self.relations@[x].1)
                        && relations@[x].to@ == self.relations@[x].2@,
            decreases self.relations@.len() - k,
        {
            relations.push(
                TomlRelation {
                    from: self.relations[k].0.clone(),
                    kind: relation_kind_to_str(self.relations[k].1).to_owned(),
                    to: self.relations[k].2.clone(),
                },
            );
            k = k + 1;
        }
        TomlModule {
            module: TomlHeader {
                id: self.id.clone(),
                version: self.version.clone(),
                name: self.name.clone(),
            },
            tags,
            implications,
            relations,
        }
    }
}

proof fn lemma_tags_fault(tags: Seq<TomlTag>, k: int, n: int)
    requires
        0 <= k <= n,
        tags_named(tags, k) is Err,
    ensures
        tags_named(tags, n) == tags_named(tags, k),
    decreases n - k,
{
    if k < n {
        lemma_tags_fault(tags, k, n - 1);
    }
}

proof fn lemma_relations_fault(rels: Seq<TomlRelation>, k: int, n: int)
    requires
        0 <= k <= n,
        relations_named(rels, k) is Err,
    ensures
        relations_named(rels, n) == relations_named(rels, k),
    decreases n - k,
{
    if k < n {
        lemma_relations_fault(rels, k, n - 1);
    }
}

/// A module that text can carry: no tag has an id, an implication list or an
/// element constraint of its own, and implications do not stand among the
/// relations.
pub open spec fn writable(m: ModuleModel) -> bool {
    &&& forall|i: int|
        0 <= i < m.tags.len() ==> (#[trigger] m.tags[i]).id == TagId { id: 0 } && m.tags[i].implies
            == Seq::<TagId>::empty() && (m.tags[i].semantics is OrderedCollection
            ==> m.tags[i].semantics->element_constraint is None)
    &&& forall|i: int|
        0 <= i < m.relations.len() ==> (#[trigger] m.relations[i]).1 != TagRelation::ImpliedBy
}

/// A storage policy, or none, that is written as a table and read again is the
/// same on every axis.
pub proof fn storage_round_trip(t: Option<TomlStoragePolicy>, p: Option<StoragePolicy>)
    requires
        spells_storage(t, p),
    ensures
        storage_named(t) == Ok::<Option<StoragePolicy>, ModuleFault>(p),
{
    lemma_words_differ();
}

/// Reading what [`OntologyModule::to_toml`] wrote gives the module back.
pub proof fn toml_round_trip(t: TomlModule, m: ModuleModel)
    requires
        spells_module(t, m),
        writable(m),
    ensures
        module_named(t) == Ok::<ModuleModel, ModuleFault>(m),
{
    lemma_tags_round_trip(t, m, m.tags.len() as int);
    lemma_relations_round_trip(t, m, m.relations.len() as int);
    assert(m.tags.take(m.tags.len() as int) =~= m.tags);
    assert(m.relations.take(m.relations.len() as int) =~= m.relations);
}

proof fn lemma_tags_round_trip(t: TomlModule, m: ModuleModel, k: int)
    requires
        spells_module(t, m),
        writable(m),
        0 <= k <= m.tags.len(),
    ensures
        tags_named(t.tags@, k) == Ok::<Seq<TagModel>, ModuleFault>(m.tags.take(k)),
    decreases k,
{
    if k == 0 {
        assert(m.tags.take(0) =~= Seq::<TagModel>::empty());
    } else {
        lemma_tags_round_trip(t, m, k - 1);
        let e = t.tags@[k - 1];
        let d = m.tags[k - 1];
        assert(spells_tag(e, d));
        lemma_words_differ();
        storage_round_trip(e.storage, d.storage);
        assert(semantics_named(e.semantics@, opt_text(e.value_type)) == Ok::<
            TagSemantics,
            ModuleFault,
        >(d.semantics));
        assert(m.tags.take(k) =~= m.tags.take(k - 1).push(d));
    }
}

proof fn lemma_relations_round_trip(t: TomlModule, m: ModuleModel, k: int)
    requires
        spells_module(t, m),
        writable(m),
        0 <= k <= m.relations.len(),
    ensures
        relations_named(t.relations@, k) == Ok::<
            Seq<(Seq<char>, TagRelation, Seq<char>)>,
            ModuleFault,
        >(m.relations.take(k)),
    decreases k,
{
    if k == 0 {
        assert(m.relations.take(0) =~= Seq::<(Seq<char>, TagRelation, Seq<char>)>::empty());
    } else {
        lemma_relations_round_trip(t, m, k - 1);
        lemma_words_differ();
        assert(t.relations@[k - 1].from@ == m.relations[k - 1].0);
        assert(m.relations[k - 1].1 != TagRelation::ImpliedBy);
        assert(m.relations.take(k) =~= m.relations.take(k - 1).push(m.relations[k - 1]));
    }
}

/// The words of the format that the readers have to tell apart.
proof fn lemma_words_differ()
    ensures
        "label"@ != "attribute"@,
        "label"@ != "grouping"@,
        "label"@ != "ordered-collection"@,
        "label"@ != "hierarchical"@,
        "attribute"@ != "grouping"@,
        "attribute"@ != "ordered-collection"@,
        "attribute"@ != "hierarchical"@,
        "attr"@ != "grouping"@,
        "attr"@ != "ordered-collection"@,
        "attr"@ != "hierarchical"@,
        "grouping"@ != "ordered-collection"@,
        "grouping"@ != "hierarchical"@,
        "ordered-collection"@ != "hierarchical"@,
        "ordered"@ != "hierarchical"@,
        "text"@ != "int"@,
        "text"@ != "float"@,
        "text"@ != "timestamp"@,
        "text"@ != "blob"@,
        "int"@ != "float"@,
        "int"@ != "timestamp"@,
        "int"@ != "blob"@,
        "float"@ != "timestamp"@,
        "float"@ != "blob"@,
        "timestamp"@ != "blob"@,
        "mutex"@ != "requires"@,
        "mutex"@ != "alias"@,
        "mutually-exclusive"@ != "requires"@,
        "mutually-exclusive"@ != "alias"@,
        "requires"@ != "alias"@,
        "none"@ != "fixed"@,
        "none"@ != "fastcdc"@,
        "fixed"@ != "fastcdc"@,
        "fixed-size"@ != "fastcdc"@,
        "none"@ != "lz4"@,
        "none"@ != "xts"@,
        "none"@ != "aes-gcm"@,
        "none"@ != "chacha20-poly1305"@,
        "xts"@ != "aes-gcm"@,
        "xts"@ != "chacha20-poly1305"@,
        "aes-gcm"@ != "chacha20-poly1305"@,
        "gcm"@ != "chacha20-poly1305"@,
{
    reveal_strlit("label");
    reveal_strlit("attribute");
    reveal_strlit("attr");
    reveal_strlit("grouping");
    reveal_strlit("ordered-collection");
    reveal_strlit("ordered");
    reveal_strlit("hierarchical");
    reveal_strlit("text");
    reveal_strlit("int");
    reveal_strlit("float");
    reveal_strlit("timestamp");
    reveal_strlit("blob");
    reveal_strlit("mutex");
    reveal_strlit("mutually-exclusive");
    reveal_strlit("requires");
    reveal_strlit("alias");
    reveal_strlit("none");
    reveal_strlit("fixed");
    reveal_strlit("fixed-size");
    reveal_strlit("fastcdc");
    reveal_strlit("lz4");
    reveal_strlit("xts");
    reveal_strlit("aes-gcm");
    reveal_strlit("gcm");
    reveal_strlit("chacha20-poly1305");
    assert("label"@.len() != "attribute"@.len());
    assert("label"@.len() != "grouping"@.len());
    assert("label"@.len() != "ordered-collection"@.len());
    assert("label"@.len() != "hierarchical"@.len());
    assert("attribute"@.len() != "grouping"@.len());
    assert("attribute"@.len() != "ordered-collection"@.len());
    assert("attribute"@.len() != "hierarchical"@.len());
    assert("attr"@.len() != "grouping"@.len());
    assert("attr"@.len() != "ordered-collection"@.len());
    assert("attr"@.len() != "hierarchical"@.len());
    assert("grouping"@.len() != "ordered-collection"@.len());
    assert("grouping"@.len() != "hierarchical"@.len());
    assert("ordered-collection"@.len() != "hierarchical"@.len());
    assert("ordered"@.len() != "hierarchical"@.len());
    assert("text"@.len() != "int"@.len());
    assert("text"@.len() != "float"@.len());
    assert("text"@.len() != "timestamp"@.len());
    assert("text"@[0] != "blob"@[0]);
    assert("int"@.len() != "float"@.len());
    assert("int"@.len() != "timestamp"@.len());
    assert("int"@.len() != "blob"@.len());
    assert("float"@.len() != "timestamp"@.len());
    assert("float"@.len() != "blob"@.len());
    assert("timestamp"@.len() != "blob"@.len());
    assert("mutex"@.len() != "requires"@.len());
    assert("mutex"@[0] != "alias"@[0]);
    assert("mutually-exclusive"@.len() != "requires"@.len());
    assert("mutually-exclusive"@.len() != "alias"@.len());
    assert("requires"@.len() != "alias"@.len());
    assert("none"@.len() != "fixed"@.len());
    assert("none"@.len() != "fastcdc"@.len());
    assert("fixed"@.len() != "fastcdc"@.len());
    assert("fixed-size"@.len() != "fastcdc"@.len());
    assert("none"@.len() != "lz4"@.len());
    assert("none"@.len() != "xts"@.len());
    assert("none"@.len() != "aes-gcm"@.len());
    assert("none"@.len() != "chacha20-poly1305"@.len());
    assert("xts"@.len() != "aes-gcm"@.len());
    assert("xts"@.len() != "chacha20-poly1305"@.len());
    assert("aes-gcm"@.len() != "chacha20-poly1305"@.len());
    assert("gcm"@.len() != "chacha20-poly1305"@.len());
}

} // verus!

//! What the words of a module's text mean.

use vstd::prelude::*;
use crate::ontology::error::OntologyError;
use crate::ontology::module::{encode_storage, module_named, parse_storage, relations_named,
    storage_round_trip, tag_named, tags_named, toml_round_trip, writable, OntologyModule,
    TomlCompression, TomlEncryption, TomlModule, TomlRelation, TomlStoragePolicy, TomlTag};
use crate::types::id::TagId;
use crate::types::policy::{ChunkingAlgo, CompressionAlgo, EncryptionMode, StoragePolicy};
use crate::types::tag::{TagRelation, ValueType};

verus! {

/// A module that is read has the tags, implications and relations of its text,
/// in their order and with their names, and the names of its header.
pub proof fn read_module_has_what_the_text_lists(
    text: TomlModule,
    r: Result<OntologyModule, OntologyError>,
    i: int,
)
    requires
        call_ensures(OntologyModule::from_toml, (text,), r),
        r is Ok,
    ensures
        r->Ok_0.id@ == text.module.id@,
        r->Ok_0.version@ == text.module.version@,
        r->Ok_0.name@ == text.module.name@,
        r->Ok_0.tags@.len() == text.tags@.len(),
        0 <= i < text.tags@.len() ==> r->Ok_0.tags@[i].name@ == text.tags@[i].name@
            && r->Ok_0.tags@[i].id == (TagId { id: 0 }) && r->Ok_0.tags@[i].implies@.len() == 0,
        r->Ok_0.implications@.len() == text.implications@.len(),
        0 <= i < text.implications@.len() ==> r->Ok_0.implications@[i].0@
            == text.implications@[i].from@ && r->Ok_0.implications@[i].1@
            == text.implications@[i].to@,
        r->Ok_0.relations@.len() == text.relations@.len(),
        0 <= i < text.relations@.len() ==> r->Ok_0.relations@[i].0@ == text.relations@[i].from@
            && r->Ok_0.relations@[i].2@ == text.relations@[i].to@,
{
    let m = r->Ok_0;
    lemma_tags_read(text.tags@, text.tags@.len() as int);
    lemma_relations_read(text.relations@, text.relations@.len() as int);
    assert(m@ == module_named(text)->Ok_0);
    assert(m@.tags.len() == m.tags@.len());
    assert(m@.implications.len() == m.implications@.len());
    assert(m@.relations.len() == m.relations@.len());
    if 0 <= i < text.tags@.len() {
        assert(m@.tags[i] == m.tags@[i]@);
        assert(tag_named(text.tags@[i], text.tags@) is Ok);
    }
    if 0 <= i < text.implications@.len() {
        assert(m@.implications[i] == (m.implications@[i].0@, m.implications@[i].1@));
    }
    if 0 <= i < text.relations@.len() {
        assert(m@.relations[i] == (
            m.relations@[i].0@,
            m.relations@[i].1,
            m.relations@[i].2@,
        ));
    }
}

/// The kind of a tag that is read is the one that the text says: `label`,
/// `attribute` with the type of its values, which is text where none is named,
/// `grouping`, `ordered-collection` or `hierarchical`.
pub proof fn kinds_of_tags_are_read(
    text: TomlModule,
    r: Result<OntologyModule, OntologyError>,
    i: int,
)
    requires
        call_ensures(OntologyModule::from_toml, (text,), r),
        r is Ok,
        0 <= i < text.tags@.len(),
    ensures
        ({
            let word = text.tags@[i].semantics@;
            let named = text.tags@[i].value_type;
            let kind = r->Ok_0.tags@[i].semantics;
            let attribute = word == "attribute"@ || word == "attr"@;
            &&& word == "label"@ ==> kind is Label
            &&& word == "grouping"@ ==> kind is Grouping
            &&& word == "hierarchical"@ ==> kind is Hierarchical
            &&& word == "ordered-collection"@ || word == "ordered"@ ==> kind is OrderedCollection
            &&& attribute ==> kind is Attribute
            &&& attribute && named is None ==> kind->value_type == ValueType::Text
            &&& attribute && named is Some && named->0@ == "text"@ ==> kind->value_type
                == ValueType::Text
            &&& attribute && named is Some && named->0@ == "int"@ ==> kind->value_type
                == ValueType::Int
            &&& attribute && named is Some && named->0@ == "float"@ ==> kind->value_type
                == ValueType::Float
            &&& attribute && named is Some && named->0@ == "timestamp"@ ==> kind->value_type
                == ValueType::Timestamp
            &&& attribute && named is Some && named->0@ == "blob"@ ==> kind->value_type
                == ValueType::Blob
        }),
{
    lemma_all_words_differ();
    let m = r->Ok_0;
    lemma_tags_read(text.tags@, text.tags@.len() as int);
    assert(m@ == module_named(text)->Ok_0);
    assert(m@.tags[i] == m.tags@[i]@);
    assert(tag_named(text.tags@[i], text.tags@) is Ok);
}

/// The kind of a relation that is read is the one that the text says.
/// Implications have a list of their own and are refused among the relations.
pub proof fn kinds_of_relations_are_read(
    text: TomlModule,
    r: Result<OntologyModule, OntologyError>,
    i: int,
)
    requires
        call_ensures(OntologyModule::from_toml, (text,), r),
        0 <= i < text.relations@.len(),
    ensures
        ({
            let word = text.relations@[i].kind@;
            let kind = r->Ok_0.relations@[i].1;
            &&& r is Ok && (word == "mutex"@ || word == "mutually-exclusive"@) ==> kind
                == TagRelation::MutuallyExclusive
            &&& r is Ok && word == "requires"@ ==> kind == TagRelation::Requires
            &&& r is Ok && word == "alias"@ ==> kind == TagRelation::Alias
            &&& word == "implies"@ || word == "implied-by"@ || word == "is-a"@ ==> r is Err
        }),
{
    lemma_all_words_differ();
    if r is Ok {
        let m = r->Ok_0;
        lemma_relations_read(text.relations@, text.relations@.len() as int);
        assert(m@ == module_named(text)->Ok_0);
        assert(m@.relations[i] == (
            m.relations@[i].0@,
            m.relations@[i].1,
            m.relations@[i].2@,
        ));
    }
}

/// `t` says a kind and, for an attribute, a type that there is.
pub open spec fn known_kind(t: TomlTag) -> bool {
    ||| t.semantics@ == "label"@
    ||| t.semantics@ == "grouping"@
    ||| t.semantics@ == "hierarchical"@
    ||| t.semantics@ == "attribute"@ && t.value_type is None
    ||| t.semantics@ == "attribute"@ && t.value_type is Some && (t.value_type->0@ == "text"@
        || t.value_type->0@ == "int"@ || t.value_type->0@ == "float"@ || t.value_type->0@
        == "timestamp"@ || t.value_type->0@ == "blob"@)
}

/// A module is read where every tag is of a kind that there is and has no
/// storage table, and every relation is of a kind that there is.
pub proof fn plain_modules_are_read(text: TomlModule, r: Result<OntologyModule, OntologyError>)
    requires
        call_ensures(OntologyModule::from_toml, (text,), r),
        forall|i: int|
            0 <= i < text.tags@.len() ==> known_kind(#[trigger] text.tags@[i])
                && text.tags@[i].storage is None,
        forall|i: int|
            0 <= i < text.relations@.len() ==> {
                ||| (#[trigger] text.relations@[i]).kind@ == "mutex"@
                ||| text.relations@[i].kind@ == "requires"@
                ||| text.relations@[i].kind@ == "alias"@
            },
    ensures
        r is Ok,
{
    lemma_all_words_differ();
    lemma_plain_tags(text.tags@, text.tags@.len() as int);
    lemma_plain_relations(text.relations@, text.relations@.len() as int);
}

proof fn lemma_plain_tags(tags: Seq<TomlTag>, k: int)
    requires
        0 <= k <= tags.len(),
        forall|i: int|
            0 <= i < tags.len() ==> known_kind(#[trigger] tags[i]) && tags[i].storage is None,
    ensures
        tags_named(tags, k) is Ok,
    decreases k,
{
    if k > 0 {
        lemma_plain_tags(tags, k - 1);
        lemma_all_words_differ();
        assert(known_kind(tags[k - 1]));
        assert(tag_named(tags[k - 1], tags) is Ok);
    }
}

proof fn lemma_plain_relations(rels: Seq<TomlRelation>, k: int)
    requires
        0 <= k <= rels.len(),
        forall|i: int|
            0 <= i < rels.len() ==> {
                ||| (#[trigger] rels[i]).kind@ == "mutex"@
                ||| rels[i].kind@ == "requires"@
                ||| rels[i].kind@ == "alias"@
            },
    ensures
        relations_named(rels, k) is Ok,
    decreases k,
{
    if k > 0 {
        lemma_plain_relations(rels, k - 1);
        assert(rels[k - 1].kind@ == "mutex"@ || rels[k - 1].kind@ == "requires"@ || rels[k
            - 1].kind@ == "alias"@);
    }
}

/// The axes of a storage table are read one by one: an axis is set where the
/// table says something of it, and as the table says.
pub proof fn storage_axes_are_read(
    t: TomlStoragePolicy,
    r: Result<Option<StoragePolicy>, OntologyError>,
)
    requires
        call_ensures(parse_storage, (&Some(t),), r),
        r is Ok,
    ensures
        r->Ok_0 is Some,
        ({
            let p = r->Ok_0->Some_0;
            &&& p.chunking is Some <==> t.chunking is Some
            &&& p.compression is Some <==> t.compression is Some
            &&& p.encryption is Some <==> t.encryption is Some
            &&& t.chunking is Some ==> {
                let c = t.chunking->0;
                &&& p.chunking->0.min_size == c.min_size
                &&& p.chunking->0.avg_size == c.avg_size
                &&& p.chunking->0.max_size == c.max_size
                &&& c.algo@ == "none"@ ==> p.chunking->0.algo == ChunkingAlgo::Whole
                &&& c.algo@ == "fixed"@ || c.algo@ == "fixed-size"@ ==> p.chunking->0.algo
                    == ChunkingAlgo::FixedSize
                &&& c.algo@ == "fastcdc"@ || c.algo@ == "cdc"@ ==> p.chunking->0.algo
                    == ChunkingAlgo::FastCDC
            }
            &&& match t.compression {
                Some(TomlCompression::Plain(w)) => {
                    &&& w@ == "none"@ ==> p.compression->0 == CompressionAlgo::Off
                    &&& w@ == "lz4"@ ==> p.compression->0 == CompressionAlgo::Lz4
                    &&& w@ == "zstd"@ ==> p.compression->0 == CompressionAlgo::Zstd(3)
                },
                Some(TomlCompression::Levelled { algo, level }) => algo@ == "zstd"@
                    && p.compression->0 == CompressionAlgo::Zstd(level),
                None => true,
            }
            &&& match t.encryption {
                Some(TomlEncryption::Plain(w)) => {
                    &&& w@ == "none"@ ==> p.encryption->0 == EncryptionMode::Off
                    &&& w@ == "xts"@ ==> p.encryption->0 == EncryptionMode::Xts
                    &&& w@ == "aes-gcm"@ || w@ == "gcm"@ ==> p.encryption->0
                        == EncryptionMode::AesGcm
                    &&& w@ == "chacha20"@ || w@ == "chacha20-poly1305"@ ==> p.encryption->0
                        == EncryptionMode::ChaCha20Poly1305
                },
                Some(TomlEncryption::Hctr2 { algo, object_id }) => algo@ == "hctr2"@
                    && p.encryption->0 == (EncryptionMode::Hctr2 { object_id }),
                None => true,
            }
        }),
{
    lemma_all_words_differ();
}

/// A policy that is written as a table is read back from it.
pub proof fn written_storage_is_read_back(
    p: Option<StoragePolicy>,
    t: Option<TomlStoragePolicy>,
    r: Result<Option<StoragePolicy>, OntologyError>,
)
    requires
        call_ensures(encode_storage, (&p,), t),
        call_ensures(parse_storage, (&t,), r),
    ensures
        r == Ok::<Option<StoragePolicy>, OntologyError>(p),
{
    storage_round_trip(t, p);
}

/// A module that is written as text is read back from it.
pub proof fn written_module_is_read_back(
    m: OntologyModule,
    text: TomlModule,
    r: Result<OntologyModule, OntologyError>,
)
    requires
        writable(m@),
        call_ensures(OntologyModule::to_toml, (&m,), text),
        call_ensures(OntologyModule::from_toml, (text,), r),
    ensures
        r is Ok,
        r->Ok_0@ == m@,
{
    toml_round_trip(text, m@);
}

proof fn lemma_tags_read(tags: Seq<TomlTag>, k: int)
    requires
        0 <= k <= tags.len(),
        tags_named(tags, k) is Ok,
    ensures
        tags_named(tags, k)->Ok_0.len() == k,
        forall|i: int|
            #![trigger tags_named(tags, k)->Ok_0[i]]
            #![trigger tag_named(tags[i], tags)]
            0 <= i < k ==> tag_named(tags[i], tags) is Ok && tags_named(tags, k)->Ok_0[i]
                == tag_named(tags[i], tags)->Ok_0,
    decreases k,
{
    if k > 0 {
        lemma_tags_read(tags, k - 1);
    }
}

proof fn lemma_relations_read(rels: Seq<TomlRelation>, k: int)
    requires
        0 <= k <= rels.len(),
        relations_named(rels, k) is Ok,
    ensures
        relations_named(rels, k)->Ok_0.len() == k,
        forall|i: int|
            #![trigger relations_named(rels, k)->Ok_0[i]]
            #![trigger rels[i]]
            0 <= i < k ==> crate::ontology::module::relation_named(rels[i].kind@) is Ok
                && relations_named(rels, k)->Ok_0[i] == (
                rels[i].from@,
                crate::ontology::module::relation_named(rels[i].kind@)->Ok_0,
                rels[i].to@,
            ),
    decreases k,
{
    if k > 0 {
        lemma_relations_read(rels, k - 1);
    }
}

/// The words of the format are told apart by their lengths and first letters.
proof fn lemma_all_words_differ()
    ensures
        "label"@ != "grouping"@,
        "label"@ != "hierarchical"@,
        "label"@ != "ordered-collection"@,
        "label"@ != "ordered"@,
        "label"@ != "attribute"@,
        "label"@ != "attr"@,
        "attribute"@ != "grouping"@,
        "attribute"@ != "hierarchical"@,
        "attribute"@ != "ordered-collection"@,
        "attribute"@ != "ordered"@,
        "attr"@ != "grouping"@,
        "attr"@ != "hierarchical"@,
        "attr"@ != "ordered-collection"@,
        "attr"@ != "ordered"@,
        "grouping"@ != "hierarchical"@,
        "grouping"@ != "ordered-collection"@,
        "grouping"@ != "ordered"@,
        "hierarchical"@ != "ordered-collection"@,
        "hierarchical"@ != "ordered"@,
        "text"@ != "int"@,
        "text"@ != "float"@,
        "text"@ != "timestamp"@,
        "text"@ != "blob"@,
        "int"@ != "float"@,
        "int"@ != "timestamp"@,
        "int"@ != "blob"@,
        "float"@ != "timestamp"@,
        "float"@ != "blob"@,
        "timestamp"@ != "blob"@,
        "mutex"@ != "requires"@,
        "mutex"@ != "alias"@,
        "mutex"@ != "implies"@,
        "mutex"@ != "implied-by"@,
        "mutex"@ != "is-a"@,
        "mutually-exclusive"@ != "requires"@,
        "mutually-exclusive"@ != "alias"@,
        "mutually-exclusive"@ != "implies"@,
        "mutually-exclusive"@ != "implied-by"@,
        "mutually-exclusive"@ != "is-a"@,
        "requires"@ != "alias"@,
        "requires"@ != "implies"@,
        "requires"@ != "implied-by"@,
        "requires"@ != "is-a"@,
        "alias"@ != "implies"@,
        "alias"@ != "implied-by"@,
        "alias"@ != "is-a"@,
        "none"@ != "fixed"@,
        "none"@ != "fixed-size"@,
        "none"@ != "fastcdc"@,
        "none"@ != "cdc"@,
        "fixed"@ != "fastcdc"@,
        "fixed"@ != "cdc"@,
        "fixed-size"@ != "fastcdc"@,
        "fixed-size"@ != "cdc"@,
        "none"@ != "lz4"@,
        "none"@ != "zstd"@,
        "lz4"@ != "zstd"@,
        "none"@ != "xts"@,
        "none"@ != "aes-gcm"@,
        "none"@ != "gcm"@,
        "none"@ != "chacha20"@,
        "none"@ != "chacha20-poly1305"@,
        "xts"@ != "aes-gcm"@,
        "xts"@ != "gcm"@,
        "xts"@ != "chacha20"@,
        "xts"@ != "chacha20-poly1305"@,
        "aes-gcm"@ != "chacha20"@,
        "aes-gcm"@ != "chacha20-poly1305"@,
        "gcm"@ != "chacha20"@,
        "gcm"@ != "chacha20-poly1305"@,
{
    reveal_strlit("label");
    reveal_strlit("attribute");
    reveal_strlit("attr");
    reveal_strlit("grouping");
    reveal_strlit("ordered-collection");
    reveal_strlit("ordered");
    reveal_strlit("hierarchical");
    reveal_strlit("text");
    reveal_strlit("int");
    reveal_strlit("float");
    reveal_strlit("timestamp");
    reveal_strlit("blob");
    reveal_strlit("mutex");
    reveal_strlit("mutually-exclusive");
    reveal_strlit("requires");
    reveal_strlit("alias");
    reveal_strlit("implies");
    reveal_strlit("implied-by");
    reveal_strlit("is-a");
    reveal_strlit("none");
    reveal_strlit("fixed");
    reveal_strlit("fixed-size");
    reveal_strlit("fastcdc");
    reveal_strlit("cdc");
    reveal_strlit("lz4");
    reveal_strlit("zstd");
    reveal_strlit("xts");
    reveal_strlit("aes-gcm");
    reveal_strlit("gcm");
    reveal_strlit("chacha20");
    reveal_strlit("chacha20-poly1305");
    assert("label"@.len() == 5);
    assert("attribute"@.len() == 9);
    assert("attr"@.len() == 4);
    assert("grouping"@.len() == 8);
    assert("ordered-collection"@.len() == 18);
    assert("ordered"@.len() == 7);
    assert("hierarchical"@.len() == 12);
    assert("text"@.len() == 4);
    assert("int"@.len() == 3);
    assert("float"@.len() == 5);
    assert("timestamp"@.len() == 9);
    assert("blob"@.len() == 4);
    assert("mutex"@.len() == 5);
    assert("mutually-exclusive"@.len() == 18);
    assert("requires"@.len() == 8);
    assert("alias"@.len() == 5);
    assert("implies"@.len() == 7);
    assert("implied-by"@.len() == 10);
    assert("is-a"@.len() == 4);
    assert("none"@.len() == 4);
    assert("fixed"@.len() == 5);
    assert("fixed-size"@.len() == 10);
    assert("fastcdc"@.len() == 7);
    assert("cdc"@.len() == 3);
    assert("lz4"@.len() == 3);
    assert("zstd"@.len() == 4);
    assert("xts"@.len() == 3);
    assert("aes-gcm"@.len() == 7);
    assert("gcm"@.len() == 3);
    assert("chacha20"@.len() == 8);
    assert("chacha20-poly1305"@.len() == 17);
    assert("text"@[0] != "blob"@[0]);
    assert("mutex"@[0] != "alias"@[0]);
    assert("none"@[0] != "zstd"@[0]);
    assert("xts"@[0] != "gcm"@[0]);
}

} // verus!

//! What is written is what is read.

use vstd::prelude::*;
use crate::query::error::{QueryError, QueryFault};
use crate::query::lexer::{before, byte_at, colon_at, digit_value, digits_end, digits_value,
    ends_word, lexed, local_part, node_part, object_prefix, quoted_text, signed_literal, text_end,
    unsigned_literal, word_end, word_token, PlacedModel, TokenModel};
use crate::query::parser::{answered, comparison, parsed_atom, parsed_list, parsed_query,
    parsed_tag, parsed_value, query_reports, reads, row_of, Answers, Parsed, TokenRow};
use crate::query::render::{escaped, escaped_char, is_float_text, is_name, is_written,
    list_named_by, list_text, named_by, object_text, op_text, plain, plain_list, query_text,
    value_text, writes, NamedQuery};
use crate::text::{dec, digit, hex, signed_dec};
use crate::types::id::{ObjectId, TagId, LOCAL_SEQ_SPAN};
use crate::types::query::{CmpOp, Query, QueryModel};
use crate::types::value::ValueModel;

verus! {

/// `w` is read as one word.
pub open spec fn is_bare(w: Seq<char>) -> bool {
    &&& w.len() > 0
    &&& forall|i: int| 0 <= i < w.len() ==> !ends_word(#[trigger] w[i])
    &&& w[0] != '@'
    &&& !object_prefix(w)
}

/// The name is one word, or the number of the tag behind `@`.
pub open spec fn name_reads(tag: TagId, name: Seq<char>) -> bool {
    is_bare(name) || name == "@"@ + dec(tag.id as nat)
}

/// The value's text is read as the value: an integer, text, or a
/// floating-point number that is not written like an integer.
pub open spec fn value_reads(v: ValueModel, f: Seq<char>) -> bool {
    match v {
        ValueModel::Int(i) => i64::MIN <= i <= i64::MAX,
        ValueModel::Text(_) => true,
        ValueModel::Float(_) => is_bare(f) && signed_literal(f) is None,
        _ => false,
    }
}

/// All names and values of the query can be read back.
pub open spec fn readable(n: NamedQuery) -> bool
    decreases n, 0int,
{
    match n {
        NamedQuery::HasTag(t, name) => name_reads(t, name),
        NamedQuery::IsA(t, name) => name_reads(t, name),
        NamedQuery::HasAttr(t, name, _, v, f) => name_reads(t, name) && value_reads(v, f),
        NamedQuery::Related(t, name, _) => name_reads(t, name),
        NamedQuery::And(v) => list_readable(v, v.len() as int),
        NamedQuery::Or(v) => list_readable(v, v.len() as int),
        NamedQuery::Not(q) => readable(*q),
    }
}

/// All names and values of the first `k` queries can be read back.
pub open spec fn list_readable(v: Seq<NamedQuery>, k: int) -> bool
    decreases v, k,
{
    if k <= 0 || k > v.len() {
        true
    } else {
        list_readable(v, k - 1) && readable(v[k - 1])
    }
}

/// The token of a name.
pub open spec fn name_token(tag: TagId, name: Seq<char>) -> TokenModel {
    if is_bare(name) {
        TokenModel::Word(name)
    } else {
        TokenModel::AtId(tag.id)
    }
}

/// The token of a value.
pub open spec fn value_token(v: ValueModel, f: Seq<char>) -> TokenModel {
    match v {
        ValueModel::Int(i) => TokenModel::Word(signed_dec(i)),
        ValueModel::Text(s) => TokenModel::Str(s),
        _ => TokenModel::Word(f),
    }
}

/// The opening parenthesis and the operator.
pub open spec fn opening(head: Seq<char>) -> Seq<TokenModel> {
    seq![TokenModel::LParen, TokenModel::Word(head)]
}

/// The tokens of a query.
pub open spec fn tokens_of(n: NamedQuery) -> Seq<TokenModel>
    decreases n, 0int,
{
    match n {
        NamedQuery::HasTag(t, name) => opening("tag"@) + seq![
            name_token(t, name),
            TokenModel::RParen,
        ],
        NamedQuery::IsA(t, name) => opening("isa"@) + seq![
            name_token(t, name),
            TokenModel::RParen,
        ],
        NamedQuery::HasAttr(t, name, op, v, f) => opening("attr"@) + seq![
            name_token(t, name),
            TokenModel::Word(op_text(op)),
            value_token(v, f),
            TokenModel::RParen,
        ],
        NamedQuery::Related(t, name, o) => opening("related"@) + seq![
            name_token(t, name),
            TokenModel::ObjId(o),
            TokenModel::RParen,
        ],
        NamedQuery::And(v) => opening("and"@) + list_tokens(v, v.len() as int) + seq![
            TokenModel::RParen,
        ],
        NamedQuery::Or(v) => opening("or"@) + list_tokens(v, v.len() as int) + seq![
            TokenModel::RParen,
        ],
        NamedQuery::Not(q) => opening("not"@) + tokens_of(*q) + seq![TokenModel::RParen],
    }
}

/// The tokens of the first `k` queries.
pub open spec fn list_tokens(v: Seq<NamedQuery>, k: int) -> Seq<TokenModel>
    decreases v, k,
{
    if k <= 0 || k > v.len() {
        Seq::empty()
    } else {
        list_tokens(v, k - 1) + tokens_of(v[k - 1])
    }
}

/// The resolver gives the tag for its name, where it is asked.
pub open spec fn name_resolves<R: Fn(&str) -> Option<TagId>>(
    tag: TagId,
    name: Seq<char>,
    resolver: R,
) -> bool {
    is_bare(name) ==> forall|s: &str, answer: Option<TagId>|
        s@ == name && #[trigger] resolver.ensures((s,), answer) ==> answer == Some(tag)
}

/// The reader gives the bits of the floating-point number for its text.
pub open spec fn value_resolves<P: Fn(&str) -> Option<u64>>(
    v: ValueModel,
    f: Seq<char>,
    read_float: P,
) -> bool {
    v is Float ==> forall|s: &str, answer: Option<u64>|
        s@ == f && #[trigger] read_float.ensures((s,), answer) ==> answer == Some(v->Float_0)
}

/// The resolver gives each tag for its name, and the reader the bits for the
/// text of each floating-point number.
spec fn resolves<R: Fn(&str) -> Option<TagId>, P: Fn(&str) -> Option<u64>>(
    n: NamedQuery,
    resolver: R,
    read_float: P,
) -> bool
    decreases n, 0int,
{
    match n {
        NamedQuery::HasTag(t, name) => name_resolves(t, name, resolver),
        NamedQuery::IsA(t, name) => name_resolves(t, name, resolver),
        NamedQuery::HasAttr(t, name, _, v, f) => name_resolves(t, name, resolver)
            && value_resolves(v, f, read_float),
        NamedQuery::Related(t, name, _) => name_resolves(t, name, resolver),
        NamedQuery::And(v) => list_resolves(v, v.len() as int, resolver, read_float),
        NamedQuery::Or(v) => list_resolves(v, v.len() as int, resolver, read_float),
        NamedQuery::Not(q) => resolves(*q, resolver, read_float),
    }
}

/// The same for the first `k` queries of a list.
spec fn list_resolves<R: Fn(&str) -> Option<TagId>, P: Fn(&str) -> Option<u64>>(
    v: Seq<NamedQuery>,
    k: int,
    resolver: R,
    read_float: P,
) -> bool
    decreases v, k,
{
    if k <= 0 || k > v.len() {
        true
    } else {
        list_resolves(v, k - 1, resolver, read_float) && resolves(v[k - 1], resolver, read_float)
    }
}

/// Every name that `name_lookup` gives the tag is read as the tag: it is the
/// number of the tag behind `@`, or one word for which `resolver` gives the tag.
pub open spec fn tag_reads_back<F: Fn(TagId) -> String, R: Fn(&str) -> Option<TagId>>(
    tag: TagId,
    name_lookup: F,
    resolver: R,
) -> bool {
    forall|name: Seq<char>| #[trigger]
        is_name(name_lookup, tag, name) ==> name_reads(tag, name) && name_resolves(
            tag,
            name,
            resolver,
        )
}

/// The value is read back: an integer, text, or a floating-point number whose
/// text is one word that is not written like an integer and for which
/// `read_float` gives the number.
pub open spec fn value_reads_back<G: Fn(u64) -> String, P: Fn(&str) -> Option<u64>>(
    v: ValueModel,
    write_float: G,
    read_float: P,
) -> bool {
    match v {
        ValueModel::Int(i) => i64::MIN <= i <= i64::MAX,
        ValueModel::Text(_) => true,
        ValueModel::Float(bits) => forall|f: Seq<char>| #[trigger]
            is_written(write_float, bits, f) ==> value_reads(v, f) && value_resolves(
                v,
                f,
                read_float,
            ),
        _ => false,
    }
}

/// All tags and values of the query are read back.
pub open spec fn query_reads_back<
    F: Fn(TagId) -> String,
    G: Fn(u64) -> String,
    R: Fn(&str) -> Option<TagId>,
    P: Fn(&str) -> Option<u64>,
>(q: QueryModel, name_lookup: F, write_float: G, resolver: R, read_float: P) -> bool
    decreases q, 0int,
{
    match q {
        QueryModel::HasTag(t) => tag_reads_back(t, name_lookup, resolver),
        QueryModel::IsA(t) => tag_reads_back(t, name_lookup, resolver),
        QueryModel::HasAttr(t, _, v) => tag_reads_back(t, name_lookup, resolver)
            && value_reads_back(v, write_float, read_float),
        QueryModel::Related(t, _) => tag_reads_back(t, name_lookup, resolver),
        QueryModel::And(v) => list_reads_back(
            v,
            v.len() as int,
            name_lookup,
            write_float,
            resolver,
            read_float,
        ),
        QueryModel::Or(v) => list_reads_back(
            v,
            v.len() as int,
            name_lookup,
            write_float,
            resolver,
            read_float,
        ),
        QueryModel::Not(inner) => query_reads_back(
            *inner,
            name_lookup,
            write_float,
            resolver,
            read_float,
        ),
    }
}

/// All tags and values of the first `k` queries are read back.
pub open spec fn list_reads_back<
    F: Fn(TagId) -> String,
    G: Fn(u64) -> String,
    R: Fn(&str) -> Option<TagId>,
    P: Fn(&str) -> Option<u64>,
>(
    v: Seq<QueryModel>,
    k: int,
    name_lookup: F,
    write_float: G,
    resolver: R,
    read_float: P,
) -> bool
    decreases v, k,
{
    if k <= 0 || k > v.len() {
        true
    } else {
        list_reads_back(v, k - 1, name_lookup, write_float, resolver, read_float)
            && query_reads_back(v[k - 1], name_lookup, write_float, resolver, read_float)
    }
}

/// The tokens without their offsets.
spec fn kinds(placed: Seq<PlacedModel>) -> Seq<TokenModel> {
    placed.map_values(|t: PlacedModel| t.1)
}

/// The tokens from character `i` on, without their offsets.
spec fn read_from(s: Seq<char>, i: int) -> Result<Seq<TokenModel>, QueryFault> {
    match lexed(s, i) {
        Ok(placed) => Ok(kinds(placed)),
        Err(f) => Err(f),
    }
}

/// `done` in front of what is still to come.
spec fn joined_to(done: Seq<TokenModel>, r: Result<Seq<TokenModel>, QueryFault>) -> Result<
    Seq<TokenModel>,
    QueryFault,
> {
    match r {
        Ok(s) => Ok(done + s),
        Err(e) => Err(e),
    }
}

/// A token in front of what is still to come, without the offsets.
proof fn lemma_before(s: Seq<char>, i: int, at: nat, t: TokenModel, e: int)
    requires
        lexed(s, i) == before(at, t, lexed(s, e)),
    ensures
        read_from(s, i) == joined_to(seq![t], read_from(s, e)),
{
    if lexed(s, e) is Ok {
        let rest = lexed(s, e)->Ok_0;
        assert(kinds(seq![(at, t)] + rest) =~= seq![t] + kinds(rest));
    }
}

/// `t` stands in `s` at `i`.
spec fn piece<A>(s: Seq<A>, i: int, t: Seq<A>) -> bool {
    0 <= i && i + t.len() <= s.len() && s.subrange(i, i + t.len()) == t
}

proof fn lemma_piece_at<A>(s: Seq<A>, i: int, t: Seq<A>, j: int)
    requires
        piece(s, i, t),
        0 <= j < t.len(),
    ensures
        s[i + j] == t[j],
{
    assert(s.subrange(i, i + t.len())[j] == s[i + j]);
}

proof fn lemma_split<A>(s: Seq<A>, i: int, a: Seq<A>, b: Seq<A>)
    requires
        piece(s, i, a + b),
    ensures
        piece(s, i, a),
        piece(s, i + a.len(), b),
{
    let t = a + b;
    assert(s.subrange(i, i + a.len()) =~= t.subrange(0, a.len() as int));
    assert(t.subrange(0, a.len() as int) =~= a);
    assert(s.subrange(i + a.len(), i + a.len() + b.len()) =~= t.subrange(
        a.len() as int,
        t.len() as int,
    ));
    assert(t.subrange(a.len() as int, t.len() as int) =~= b);
}

/// What is written in decimal digits.
proof fn lemma_dec(n: nat)
    ensures
        dec(n).len() > 0,
        forall|i: int| 0 <= i < dec(n).len() ==> '0' <= #[trigger] dec(n)[i] <= '9',
        digits_value(dec(n), 10) == Some(n),
    decreases n,
{
    if n < 10 {
        assert(dec(n).drop_last() =~= Seq::empty());
        assert(digits_value(Seq::<char>::empty(), 10) == Some(0nat));
        assert(dec(n).last() == digit(n));
        assert(digit_value(digit(n), 10) == Some(n));
    } else {
        lemma_dec(n / 10);
        assert(dec(n).drop_last() =~= dec(n / 10));
        assert(digit_value(digit(n % 10), 10) == Some(n % 10));
    }
}

/// What is written in hexadecimal digits.
pub(crate) proof fn lemma_hex(n: nat)
    ensures
        hex(n).len() > 0,
        forall|i: int|
            0 <= i < hex(n).len() ==> ('0' <= #[trigger] hex(n)[i] <= '9' || 'a' <= hex(n)[i]
                <= 'f'),
        digits_value(hex(n), 16) == Some(n),
    decreases n,
{
    if n < 16 {
        assert(hex(n).drop_last() =~= Seq::empty());
        assert(digits_value(Seq::<char>::empty(), 16) == Some(0nat));
        assert(hex(n).last() == digit(n));
        assert(digit_value(digit(n), 16) == Some(n));
    } else {
        lemma_hex(n / 16);
        assert(hex(n).drop_last() =~= hex(n / 16));
        assert(digit_value(digit(n % 16), 16) == Some(n % 16));
    }
}

/// The text of an integer is a word that is read as the integer.
pub(crate) proof fn lemma_signed(i: int)
    requires
        i64::MIN <= i <= i64::MAX,
    ensures
        is_bare(signed_dec(i)),
        signed_literal(signed_dec(i)) == Some(i),
{
    let w = signed_dec(i);
    if i < 0 {
        lemma_dec((-i) as nat);
        assert(w.skip(1) =~= dec((-i) as nat));
        assert forall|j: int| 0 <= j < w.len() implies !ends_word(#[trigger] w[j]) by {
            if j > 0 {
                assert(w[j] == dec((-i) as nat)[j - 1]);
            }
        }
    } else {
        lemma_dec(i as nat);
        assert(w[0] == dec(i as nat)[0]);
    }
}

proof fn lemma_word_end_at(s: Seq<char>, i: int, w: Seq<char>, k: int)
    requires
        piece(s, i, w),
        0 <= k <= w.len(),
        forall|j: int| 0 <= j < w.len() ==> !ends_word(#[trigger] w[j]),
        i + w.len() == s.len() || ends_word(s[i + w.len()]),
    ensures
        word_end(s, i + k) == i + w.len(),
    decreases w.len() - k,
{
    if k < w.len() {
        lemma_piece_at(s, i, w, k);
        lemma_word_end_at(s, i, w, k + 1);
    }
}

/// A word in front of what ends it.
proof fn lemma_lex_word(s: Seq<char>, i: int, w: Seq<char>)
    requires
        piece(s, i, w),
        is_bare(w),
        i + w.len() == s.len() || ends_word(s[i + w.len()]),
    ensures
        read_from(s, i) == joined_to(seq![TokenModel::Word(w)], read_from(s, i + w.len())),
{
    lemma_word_end_at(s, i, w, 0);
    lemma_piece_at(s, i, w, 0);
    assert(!ends_word(w[0]));
    assert(s.subrange(i, i + w.len()) == w);
    lemma_before(s, i, byte_at(s, i), TokenModel::Word(w), i + w.len());
}

proof fn lemma_digits_end_at(s: Seq<char>, i: int, w: Seq<char>, k: int)
    requires
        piece(s, i, w),
        0 <= k <= w.len(),
        forall|j: int| 0 <= j < w.len() ==> '0' <= #[trigger] w[j] <= '9',
        i + w.len() == s.len() || ends_word(s[i + w.len()]),
    ensures
        digits_end(s, i + k) == i + w.len(),
    decreases w.len() - k,
{
    if k < w.len() {
        lemma_piece_at(s, i, w, k);
        lemma_digits_end_at(s, i, w, k + 1);
    }
}

/// The number of a tag behind `@`.
proof fn lemma_lex_at(s: Seq<char>, i: int, id: u32)
    requires
        piece(s, i, "@"@ + dec(id as nat)),
        i + ("@"@ + dec(id as nat)).len() == s.len() || ends_word(
            s[i + ("@"@ + dec(id as nat)).len()],
        ),
    ensures
        read_from(s, i) == joined_to(seq![TokenModel::AtId(id)],
            read_from(s, i + ("@"@ + dec(id as nat)).len()),
        ),
{
    reveal_strlit("@");
    let d = dec(id as nat);
    lemma_dec(id as nat);
    lemma_split(s, i, "@"@, d);
    lemma_piece_at(s, i, "@"@, 0);
    lemma_digits_end_at(s, i + 1, d, 0);
    let e = i + 1 + d.len();
    assert(s.subrange(i + 1, e) == d);
    assert(d[0] != '+');
    assert(unsigned_literal(d, 10, 0xFFFF_FFFF) == Some(id as nat));
    lemma_before(s, i, byte_at(s, i), TokenModel::AtId(id), e);
}

proof fn lemma_lex_name(s: Seq<char>, i: int, tag: TagId, name: Seq<char>)
    requires
        piece(s, i, name),
        name_reads(tag, name),
        i + name.len() < s.len(),
        ends_word(s[i + name.len()]),
    ensures
        read_from(s, i) == joined_to(seq![name_token(tag, name)], read_from(s, i + name.len())),
{
    if is_bare(name) {
        lemma_lex_word(s, i, name);
    } else {
        lemma_lex_at(s, i, tag.id);
    }
}

/// The characters from `k` on within quotes.
spec fn escaped_from(s: Seq<char>, k: int) -> Seq<char>
    decreases s.len() - k,
{
    if k >= s.len() {
        Seq::empty()
    } else {
        escaped_char(s[k]) + escaped_from(s, k + 1)
    }
}

proof fn lemma_escaped_parts(s: Seq<char>, k: int)
    requires
        0 <= k <= s.len(),
    ensures
        escaped(s, s.len() as int) == escaped(s, k) + escaped_from(s, k),
    decreases s.len() - k,
{
    if k < s.len() {
        lemma_escaped_parts(s, k + 1);
        assert(escaped(s, k) + escaped_from(s, k) =~= escaped(s, k + 1) + escaped_from(s, k + 1));
    } else {
        assert(escaped(s, k) + escaped_from(s, k) =~= escaped(s, k));
    }
}

/// Text within quotes is read up to the closing quote, as it was.
proof fn lemma_lex_escaped(s: Seq<char>, i: int, t: Seq<char>, k: int)
    requires
        0 <= k <= t.len(),
        piece(s, i, escaped_from(t, k)),
        i + escaped_from(t, k).len() < s.len(),
        s[i + escaped_from(t, k).len()] == '"',
    ensures
        text_end(s, i) == i + escaped_from(t, k).len(),
        quoted_text(s, i) == t.skip(k),
    decreases t.len() - k,
{
    let e = escaped_from(t, k);
    if k < t.len() {
        let c = t[k];
        let head = escaped_char(c);
        let rest = escaped_from(t, k + 1);
        lemma_split(s, i, head, rest);
        lemma_lex_escaped(s, i + head.len(), t, k + 1);
        reveal_strlit("\\\"");
        reveal_strlit("\\\\");
        lemma_piece_at(s, i, head, 0);
        if c == '"' || c == '\\' {
            lemma_piece_at(s, i, head, 1);
            assert(head.len() == 2);
            assert(s[i] == '\\' && s[i + 1] == c);
            assert(quoted_text(s, i) == seq![c] + quoted_text(s, i + 2));
        } else {
            assert(head.len() == 1);
            assert(s[i] == c);
            assert(quoted_text(s, i) == seq![c] + quoted_text(s, i + 1));
        }
        assert(seq![c] + t.skip(k + 1) =~= t.skip(k));
    } else {
        assert(t.skip(k) =~= Seq::empty());
    }
}

proof fn lemma_lex_text(s: Seq<char>, i: int, t: Seq<char>)
    requires
        piece(s, i, "\""@ + escaped(t, t.len() as int) + "\""@),
    ensures
        read_from(s, i) == joined_to(seq![TokenModel::Str(t)],
            read_from(s, i + ("\""@ + escaped(t, t.len() as int) + "\""@).len()),
        ),
{
    reveal_strlit("\"");
    let e = escaped(t, t.len() as int);
    lemma_escaped_parts(t, 0);
    assert(escaped(t, 0) + escaped_from(t, 0) =~= escaped_from(t, 0));
    assert(e == escaped_from(t, 0));
    lemma_split(s, i, "\""@ + e, "\""@);
    lemma_split(s, i, "\""@, e);
    lemma_piece_at(s, i, "\""@, 0);
    lemma_piece_at(s, i + 1 + e.len(), "\""@, 0);
    lemma_lex_escaped(s, i + 1, t, 0);
    assert(t.skip(0) =~= t);
    lemma_before(s, i, byte_at(s, i), TokenModel::Str(t), i + 1 + e.len() + 1);
}

proof fn lemma_colon_at(w: Seq<char>, i: int, end: int)
    requires
        0 <= i <= end < w.len(),
        w[end] == ':',
        forall|j: int| i <= j < end ==> #[trigger] w[j] != ':',
    ensures
        colon_at(w, i) == end,
    decreases end - i,
{
    if i < end {
        lemma_colon_at(w, i + 1, end);
    }
}

/// The text of an object is read as the object.
proof fn lemma_lex_object(s: Seq<char>, i: int, o: ObjectId)
    requires
        piece(s, i, object_text(o)),
        i + object_text(o).len() < s.len(),
        ends_word(s[i + object_text(o).len()]),
    ensures
        read_from(s, i) == joined_to(seq![TokenModel::ObjId(o)], read_from(s, i + object_text(o).len())),
{
    reveal_strlit("obj:");
    reveal_strlit(":");
    let w = object_text(o);
    let h = hex(o.node() as nat);
    let d = dec(o.local() as nat);
    lemma_hex(o.node() as nat);
    lemma_dec(o.local() as nat);
    crate::types::id::object_id_from_parts(o);
    let c = 4 + h.len() as int;
    assert(w.len() == c + 1 + d.len());
    assert forall|j: int| 0 <= j < w.len() implies !ends_word(#[trigger] w[j]) by {
        if 4 <= j < c {
            assert(w[j] == h[j - 4]);
        } else if j > c {
            assert(w[j] == d[j - c - 1]);
        }
    }
    assert(object_prefix(w));
    assert(w[c] == ':');
    assert forall|j: int| 4 <= j < c implies #[trigger] w[j] != ':' by {
        assert(w[j] == h[j - 4]);
    }
    lemma_colon_at(w, 4, c);
    assert(node_part(w) =~= h);
    assert(local_part(w) =~= d);
    assert(h[0] != '+' && d[0] != '+');
    assert(unsigned_literal(h, 16, 0xFFFF) == Some(o.node() as nat));
    assert(unsigned_literal(d, 10, 0xFFFF_FFFF_FFFF_FFFF) == Some(o.local() as nat));
    let span = LOCAL_SEQ_SPAN as nat;
    assert((o.local() as nat) % span == o.local() as nat);
    assert(word_token(w, byte_at(s, i)) == Ok::<TokenModel, QueryFault>(TokenModel::ObjId(o)));
    lemma_word_end_at(s, i, w, 0);
    lemma_piece_at(s, i, w, 0);
    assert(s.subrange(i, i + w.len()) == w);
    lemma_before(s, i, byte_at(s, i), TokenModel::ObjId(o), i + w.len());
}

proof fn lemma_op(op: CmpOp)
    ensures
        is_bare(op_text(op)),
        comparison(op_text(op)) == Some(op),
{
    reveal_strlit("=");
    reveal_strlit("!=");
    reveal_strlit("<");
    reveal_strlit("<=");
    reveal_strlit(">");
    reveal_strlit(">=");
    reveal_strlit("prefix");
    reveal_strlit("contains");
    let w = op_text(op);
    assert("="@[0] == '=' && "="@.len() == 1);
    assert("!="@[0] == '!' && "!="@.len() == 2);
    assert("<"@[0] == '<' && "<"@.len() == 1);
    assert("<="@[0] == '<' && "<="@.len() == 2);
    assert(">"@[0] == '>' && ">"@.len() == 1);
    assert(">="@[0] == '>' && ">="@.len() == 2);
    assert("prefix"@[0] == 'p' && "prefix"@.len() == 6);
    assert("contains"@[0] == 'c' && "contains"@.len() == 8);
}

proof fn lemma_lex_value(s: Seq<char>, i: int, v: ValueModel, f: Seq<char>)
    requires
        value_reads(v, f),
        piece(s, i, value_text(v, f)),
        i + value_text(v, f).len() < s.len(),
        ends_word(s[i + value_text(v, f).len()]),
    ensures
        read_from(s, i) == joined_to(seq![value_token(v, f)], read_from(s, i + value_text(v, f).len())),
{
    match v {
        ValueModel::Int(n) => {
            lemma_signed(n);
            lemma_lex_word(s, i, signed_dec(n));
        },
        ValueModel::Text(t) => {
            lemma_lex_text(s, i, t);
        },
        ValueModel::Float(_) => {
            lemma_lex_word(s, i, f);
        },
        _ => {},
    }
}

/// Tokens in front of what is still to come, in two steps.
proof fn lemma_join(a: Seq<TokenModel>, b: Seq<TokenModel>, r: Result<Seq<TokenModel>, QueryFault>)
    ensures
        joined_to(a, joined_to(b, r)) == joined_to(a + b, r),
{
    if r is Ok {
        assert(a + (b + r->Ok_0) =~= (a + b) + r->Ok_0);
    }
}

/// An opening parenthesis, an operator, and what ends it.
proof fn lemma_lex_open(s: Seq<char>, i: int, head: Seq<char>)
    requires
        0 <= i,
        i + 1 + head.len() < s.len(),
        s[i] == '(',
        piece(s, i + 1, head),
        is_bare(head),
        ends_word(s[i + 1 + head.len()]),
    ensures
        read_from(s, i) == joined_to(opening(head), read_from(s, i + 1 + head.len())),
{
    lemma_lex_word(s, i + 1, head);
    lemma_before(s, i, byte_at(s, i), TokenModel::LParen, i + 1);
    let r = read_from(s, i + 1 + head.len());
    if r is Ok {
        assert(seq![TokenModel::LParen] + (seq![TokenModel::Word(head)] + r->Ok_0) =~= opening(head)
            + r->Ok_0);
    }
}

/// The operators are words.
proof fn lemma_heads()
    ensures
        is_bare("tag"@),
        is_bare("isa"@),
        is_bare("attr"@),
        is_bare("related"@),
        is_bare("and"@),
        is_bare("or"@),
        is_bare("not"@),
{
    reveal_strlit("tag");
    reveal_strlit("isa");
    reveal_strlit("attr");
    reveal_strlit("related");
    reveal_strlit("and");
    reveal_strlit("or");
    reveal_strlit("not");
}

/// The start of a query's text: parenthesis, operator, and a space or
/// whatever else follows.
proof fn lemma_start(s: Seq<char>, i: int, text: Seq<char>, head: Seq<char>, rest: Seq<char>)
    requires
        piece(s, i, text),
        text == seq!['('] + head + rest,
        is_bare(head),
        rest.len() > 0,
        ends_word(rest[0]),
    ensures
        read_from(s, i) == joined_to(opening(head), read_from(s, i + 1 + head.len())),
        piece(s, i + 1 + head.len(), rest),
{
    lemma_split(s, i, seq!['('] + head, rest);
    lemma_split(s, i, seq!['('], head);
    lemma_piece_at(s, i, seq!['('], 0);
    lemma_piece_at(s, i + 1 + head.len(), rest, 0);
    lemma_lex_open(s, i, head);
}

/// A space is passed over.
proof fn lemma_lex_space(s: Seq<char>, i: int, rest: Seq<char>)
    requires
        piece(s, i, seq![' '] + rest),
    ensures
        read_from(s, i) == read_from(s, i + 1),
        piece(s, i + 1, rest),
{
    lemma_split(s, i, seq![' '], rest);
    lemma_piece_at(s, i, seq![' '], 0);
}

/// A name and what follows it.
proof fn lemma_lex_name_then(
    s: Seq<char>,
    i: int,
    tag: TagId,
    name: Seq<char>,
    rest: Seq<char>,
)
    requires
        piece(s, i, name + rest),
        name_reads(tag, name),
        rest.len() > 0,
        ends_word(rest[0]),
    ensures
        read_from(s, i) == joined_to(seq![name_token(tag, name)], read_from(s, i + name.len())),
        piece(s, i + name.len(), rest),
{
    lemma_split(s, i, name, rest);
    lemma_piece_at(s, i + name.len(), rest, 0);
    lemma_lex_name(s, i, tag, name);
}

proof fn lemma_lex_close(s: Seq<char>, i: int)
    requires
        piece(s, i, seq![')']),
    ensures
        read_from(s, i) == joined_to(seq![TokenModel::RParen], read_from(s, i + 1)),
{
    lemma_piece_at(s, i, seq![')'], 0);
    lemma_before(s, i, byte_at(s, i), TokenModel::RParen, i + 1);
}

/// The text of a tag query.
proof fn lemma_lex_tag(s: Seq<char>, i: int, head: Seq<char>, tag: TagId, name: Seq<char>)
    requires
        is_bare(head),
        name_reads(tag, name),
        piece(s, i, seq!['('] + head + (seq![' '] + (name + seq![')']))),
    ensures
        read_from(s, i) == joined_to(
            opening(head) + seq![name_token(tag, name), TokenModel::RParen],
            read_from(s, i + 1 + head.len() + 1 + name.len() + 1),
        ),
{
    let rest = seq![' '] + (name + seq![')']);
    lemma_start(s, i, seq!['('] + head + rest, head, rest);
    let a = i + 1 + head.len();
    lemma_lex_space(s, a, name + seq![')']);
    lemma_lex_name_then(s, a + 1, tag, name, seq![')']);
    let b = a + 1 + name.len();
    lemma_lex_close(s, b);
    let end = read_from(s, b + 1);
    lemma_join(seq![name_token(tag, name)], seq![TokenModel::RParen], end);
    lemma_join(opening(head), seq![name_token(tag, name)] + seq![TokenModel::RParen], end);
    assert(opening(head) + (seq![name_token(tag, name)] + seq![TokenModel::RParen]) =~= opening(
        head,
    ) + seq![name_token(tag, name), TokenModel::RParen]);
}

/// The comparison and the value of an attribute query.
proof fn lemma_lex_comparison(s: Seq<char>, b: int, op: CmpOp, v: ValueModel, f: Seq<char>)
    requires
        value_reads(v, f),
        piece(
            s,
            b,
            seq![' '] + (op_text(op) + (seq![' '] + (value_text(v, f) + seq![')']))),
        ),
    ensures
        read_from(s, b) == joined_to(
            seq![TokenModel::Word(op_text(op))] + (seq![value_token(v, f)] + seq![
                TokenModel::RParen,
            ]),
            read_from(s, b + 1 + op_text(op).len() + 1 + value_text(v, f).len() + 1),
        ),
{
    let o = op_text(op);
    let t = value_text(v, f);
    lemma_op(op);
    let r5 = seq![')'];
    let r4 = seq![' '] + (t + r5);
    lemma_lex_space(s, b, o + r4);
    lemma_split(s, b + 1, o, r4);
    let c = b + 1 + o.len();
    lemma_piece_at(s, c, r4, 0);
    lemma_lex_word(s, b + 1, o);
    lemma_lex_space(s, c, t + r5);
    lemma_split(s, c + 1, t, r5);
    let d = c + 1 + t.len();
    lemma_piece_at(s, d, r5, 0);
    lemma_lex_value(s, c + 1, v, f);
    lemma_lex_close(s, d);
    let end = read_from(s, d + 1);
    let t2 = seq![TokenModel::Word(o)];
    let t3 = seq![value_token(v, f)];
    let t4 = seq![TokenModel::RParen];
    lemma_join(t3, t4, end);
    lemma_join(t2, t3 + t4, end);
}

/// The text of an attribute query.
#[verifier::rlimit(40)]
proof fn lemma_lex_attr(
    s: Seq<char>,
    i: int,
    tag: TagId,
    name: Seq<char>,
    op: CmpOp,
    v: ValueModel,
    f: Seq<char>,
)
    requires
        name_reads(tag, name),
        value_reads(v, f),
        piece(s, i, query_text(NamedQuery::HasAttr(tag, name, op, v, f))),
    ensures
        read_from(s, i) == joined_to(
            tokens_of(NamedQuery::HasAttr(tag, name, op, v, f)),
            read_from(s, i + query_text(NamedQuery::HasAttr(tag, name, op, v, f)).len()),
        ),
{
    let n = NamedQuery::HasAttr(tag, name, op, v, f);
    let text = query_text(n);
    let o = op_text(op);
    let t = value_text(v, f);
    let head = "attr"@;
    reveal_strlit("(attr ");
    reveal_strlit("attr");
    reveal_strlit(" ");
    reveal_strlit(")");
    lemma_heads();
    let r3 = seq![' '] + (o + (seq![' '] + (t + seq![')'])));
    let r2 = seq![' '] + (name + r3);
    assert(text =~= seq!['('] + head + r2);
    lemma_start(s, i, text, head, r2);
    let a = i + 1 + head.len();
    lemma_lex_space(s, a, name + r3);
    lemma_lex_name_then(s, a + 1, tag, name, r3);
    let b = a + 1 + name.len();
    lemma_lex_comparison(s, b, op, v, f);
    let e = b + 1 + o.len() + 1 + t.len() + 1;
    assert(e == i + text.len());
    let end = read_from(s, e);
    let t1 = seq![name_token(tag, name)];
    let t2 = seq![TokenModel::Word(o)] + (seq![value_token(v, f)] + seq![TokenModel::RParen]);
    lemma_join(t1, t2, end);
    lemma_join(opening(head), t1 + t2, end);
    assert(opening(head) + (t1 + t2) =~= tokens_of(n));
}

/// The text of a relation query.
proof fn lemma_lex_related(s: Seq<char>, i: int, tag: TagId, name: Seq<char>, o: ObjectId)
    requires
        name_reads(tag, name),
        piece(s, i, query_text(NamedQuery::Related(tag, name, o))),
    ensures
        read_from(s, i) == joined_to(
            tokens_of(NamedQuery::Related(tag, name, o)),
            read_from(s, i + query_text(NamedQuery::Related(tag, name, o)).len()),
        ),
{
    let n = NamedQuery::Related(tag, name, o);
    let text = query_text(n);
    let t = object_text(o);
    let head = "related"@;
    reveal_strlit("(related ");
    reveal_strlit("related");
    reveal_strlit(" ");
    reveal_strlit(")");
    lemma_heads();
    let r4 = seq![')'];
    let r3 = seq![' '] + (t + r4);
    let r2 = seq![' '] + (name + r3);
    assert(text =~= seq!['('] + head + r2);
    lemma_start(s, i, text, head, r2);
    let a = i + 1 + head.len();
    lemma_lex_space(s, a, name + r3);
    lemma_lex_name_then(s, a + 1, tag, name, r3);
    let b = a + 1 + name.len();
    lemma_lex_space(s, b, t + r4);
    lemma_split(s, b + 1, t, r4);
    let c = b + 1 + t.len();
    lemma_piece_at(s, c, r4, 0);
    lemma_lex_object(s, b + 1, o);
    lemma_lex_close(s, c);
    let end = read_from(s, c + 1);
    let t1 = seq![name_token(tag, name)];
    let t2 = seq![TokenModel::ObjId(o)];
    let t3 = seq![TokenModel::RParen];
    lemma_join(t2, t3, end);
    lemma_join(t1, t2 + t3, end);
    lemma_join(opening(head), t1 + (t2 + t3), end);
    assert(opening(head) + (t1 + (t2 + t3)) =~= tokens_of(n));
}

/// The text of a query is read as its tokens.
#[verifier::rlimit(100)]
proof fn lemma_lex_query(s: Seq<char>, i: int, n: NamedQuery)
    requires
        readable(n),
        piece(s, i, query_text(n)),
    ensures
        read_from(s, i) == joined_to(tokens_of(n), read_from(s, i + query_text(n).len())),
    decreases n, 0int,
{
    reveal_strlit(")");
    lemma_heads();
    let text = query_text(n);
    match n {
        NamedQuery::HasTag(t, name) => {
            reveal_strlit("(tag ");
            reveal_strlit("tag");
            assert(text =~= seq!['('] + "tag"@ + (seq![' '] + (name + seq![')'])));
            lemma_lex_tag(s, i, "tag"@, t, name);
        },
        NamedQuery::IsA(t, name) => {
            reveal_strlit("(isa ");
            reveal_strlit("isa");
            assert(text =~= seq!['('] + "isa"@ + (seq![' '] + (name + seq![')'])));
            lemma_lex_tag(s, i, "isa"@, t, name);
        },
        NamedQuery::HasAttr(t, name, op, v, f) => {
            lemma_lex_attr(s, i, t, name, op, v, f);
        },
        NamedQuery::Related(t, name, o) => {
            lemma_lex_related(s, i, t, name, o);
        },
        NamedQuery::And(v) => {
            reveal_strlit("(and");
            reveal_strlit("and");
            let list = list_text(v, v.len() as int);
            assert(text =~= seq!['('] + "and"@ + (list + seq![')']));
            lemma_lex_group(s, i, "and"@, v);
            assert(tokens_of(n) =~= opening("and"@) + (list_tokens(v, v.len() as int) + seq![
                TokenModel::RParen,
            ]));
        },
        NamedQuery::Or(v) => {
            reveal_strlit("(or");
            reveal_strlit("or");
            let list = list_text(v, v.len() as int);
            assert(text =~= seq!['('] + "or"@ + (list + seq![')']));
            lemma_lex_group(s, i, "or"@, v);
            assert(tokens_of(n) =~= opening("or"@) + (list_tokens(v, v.len() as int) + seq![
                TokenModel::RParen,
            ]));
        },
        NamedQuery::Not(q) => {
            reveal_strlit("(not ");
            reveal_strlit("not");
            let inner = query_text(*q);
            let rest = seq![' '] + (inner + seq![')']);
            assert(text =~= seq!['('] + "not"@ + rest);
            lemma_start(s, i, text, "not"@, rest);
            let a = i + 1 + "not"@.len();
            lemma_lex_space(s, a, inner + seq![')']);
            lemma_split(s, a + 1, inner, seq![')']);
            lemma_lex_query(s, a + 1, *q);
            let b = a + 1 + inner.len();
            lemma_lex_close(s, b);
            let end = read_from(s, b + 1);
            lemma_join(tokens_of(*q), seq![TokenModel::RParen], end);
            lemma_join(opening("not"@), tokens_of(*q) + seq![TokenModel::RParen], end);
            assert(tokens_of(n) =~= opening("not"@) + (tokens_of(*q) + seq![TokenModel::RParen]));
        },
    }
}

proof fn lemma_lex_group(s: Seq<char>, i: int, head: Seq<char>, v: Seq<NamedQuery>)
    requires
        is_bare(head),
        list_readable(v, v.len() as int),
        piece(s, i, seq!['('] + head + (list_text(v, v.len() as int) + seq![')'])),
    ensures
        read_from(s, i) == joined_to(
            opening(head) + (list_tokens(v, v.len() as int) + seq![TokenModel::RParen]),
            read_from(s, i + 1 + head.len() + list_text(v, v.len() as int).len() + 1),
        ),
    decreases v, v.len() + 1,
{
    let k = v.len() as int;
    let list = list_text(v, k);
    let rest = list + seq![')'];
    assert(ends_word(rest[0])) by {
        if k > 0 {
            lemma_list_space(v, k);
        }
    }
    lemma_start(s, i, seq!['('] + head + rest, head, rest);
    let a = i + 1 + head.len();
    lemma_split(s, a, list, seq![')']);
    lemma_lex_list(s, a, v, k);
    let b = a + list.len();
    lemma_lex_close(s, b);
    let end = read_from(s, b + 1);
    lemma_join(list_tokens(v, k), seq![TokenModel::RParen], end);
    lemma_join(opening(head), list_tokens(v, k) + seq![TokenModel::RParen], end);
}

/// A list starts with a space.
proof fn lemma_list_space(v: Seq<NamedQuery>, k: int)
    requires
        0 < k <= v.len(),
    ensures
        list_text(v, k).len() > 0,
        list_text(v, k)[0] == ' ',
    decreases k,
{
    reveal_strlit(" ");
    let q = query_text(v[k - 1]);
    if k > 1 {
        lemma_list_space(v, k - 1);
        assert(list_text(v, k)[0] == list_text(v, k - 1)[0]);
    } else {
        assert(list_text(v, 0) =~= Seq::empty());
        assert(list_text(v, 1) =~= seq![' '] + q);
    }
}

proof fn lemma_lex_list(s: Seq<char>, i: int, v: Seq<NamedQuery>, k: int)
    requires
        0 <= k <= v.len(),
        list_readable(v, k),
        piece(s, i, list_text(v, k)),
    ensures
        read_from(s, i) == joined_to(list_tokens(v, k), read_from(s, i + list_text(v, k).len())),
    decreases v, k,
{
    if k > 0 {
        reveal_strlit(" ");
        let front = list_text(v, k - 1);
        let q = query_text(v[k - 1]);
        assert(list_text(v, k) =~= front + (seq![' '] + q));
        lemma_split(s, i, front, seq![' '] + q);
        lemma_lex_list(s, i, v, k - 1);
        let a = i + front.len();
        lemma_lex_space(s, a, q);
        lemma_lex_query(s, a + 1, v[k - 1]);
        let end = read_from(s, a + 1 + q.len());
        lemma_join(list_tokens(v, k - 1), tokens_of(v[k - 1]), end);
    } else {
        let r = read_from(s, i);
        if r is Ok {
            assert(Seq::<TokenModel>::empty() + r->Ok_0 =~= r->Ok_0);
        }
    }
}

/// The operators differ.
proof fn lemma_heads_differ()
    ensures
        "tag"@ != "isa"@,
        "attr"@ != "tag"@,
        "attr"@ != "isa"@,
        "related"@ != "tag"@,
        "related"@ != "isa"@,
        "related"@ != "attr"@,
        "and"@ != "tag"@,
        "and"@ != "isa"@,
        "and"@ != "attr"@,
        "and"@ != "related"@,
        "or"@ != "tag"@,
        "or"@ != "isa"@,
        "or"@ != "attr"@,
        "or"@ != "related"@,
        "or"@ != "and"@,
        "not"@ != "tag"@,
        "not"@ != "isa"@,
        "not"@ != "attr"@,
        "not"@ != "related"@,
        "not"@ != "and"@,
        "not"@ != "or"@,
{
    reveal_strlit("tag");
    reveal_strlit("isa");
    reveal_strlit("attr");
    reveal_strlit("related");
    reveal_strlit("and");
    reveal_strlit("or");
    reveal_strlit("not");
    assert("tag"@[0] == 't' && "isa"@[0] == 'i' && "attr"@[0] == 'a' && "attr"@[1] == 't'
        && "related"@[0] == 'r' && "and"@[0] == 'a' && "and"@[1] == 'n' && "or"@[0] == 'o'
        && "not"@[0] == 'n');
}

/// What the tokens of a row are without their offsets.
proof fn lemma_kinds(row: TokenRow)
    ensures
        kinds(row.placed).len() == row.len(),
        forall|p: int| 0 <= p < row.len() ==> #[trigger] row[p] == kinds(row.placed)[p],
{
}

/// A name's token is read as the tag, where the resolver was asked.
proof fn lemma_parse_tag<R: Fn(&str) -> Option<TagId>, P: Fn(&str) -> Option<u64>>(
    row: TokenRow,
    p: int,
    resolver: R,
    read_float: P,
    answers: Answers,
    tag: TagId,
    name: Seq<char>,
)
    requires
        0 <= p < row.len(),
        row[p] == name_token(tag, name),
        name_reads(tag, name),
        name_resolves(tag, name, resolver),
        answered(resolver, read_float, row, answers),
    ensures
        done_or_open(parsed_tag(row, p, answers), tag, p + 1),
{
    if is_bare(name) && answers.names.contains_key(p) {
        let s = choose|s: &str|
            s@ == row[p]->Word_0 && #[trigger] resolver.ensures((s,), answers.names[p]);
        assert(s@ == name && resolver.ensures((s,), answers.names[p]));
    }
}

/// A value's token is read as the value, where the reader was asked.
proof fn lemma_parse_value<R: Fn(&str) -> Option<TagId>, P: Fn(&str) -> Option<u64>>(
    row: TokenRow,
    p: int,
    resolver: R,
    read_float: P,
    answers: Answers,
    v: ValueModel,
    f: Seq<char>,
)
    requires
        0 <= p < row.len(),
        row[p] == value_token(v, f),
        value_reads(v, f),
        value_resolves(v, f, read_float),
        answered(resolver, read_float, row, answers),
    ensures
        done_or_open(parsed_value(row, p, answers), v, p + 1),
{
    match v {
        ValueModel::Int(i) => {
            lemma_signed(i);
        },
        ValueModel::Float(_) => {
            if answers.floats.contains_key(p) {
                let s = choose|s: &str|
                    s@ == row[p]->Word_0 && #[trigger] read_float.ensures((s,), answers.floats[p]);
                assert(s@ == f && read_float.ensures((s,), answers.floats[p]));
            }
        },
        _ => {},
    }
}

/// The tokens of the first queries of a list are its first tokens.
proof fn lemma_list_prefix(v: Seq<NamedQuery>, j: int, k: int)
    requires
        0 <= j <= k <= v.len(),
    ensures
        list_tokens(v, j).len() <= list_tokens(v, k).len(),
        list_tokens(v, k).take(list_tokens(v, j).len() as int) == list_tokens(v, j),
    decreases k - j,
{
    if j < k {
        lemma_list_prefix(v, j, k - 1);
        assert(list_tokens(v, k).take(list_tokens(v, j).len() as int) =~= list_tokens(
            v,
            k - 1,
        ).take(list_tokens(v, j).len() as int));
    } else {
        assert(list_tokens(v, k).take(list_tokens(v, k).len() as int) =~= list_tokens(v, k));
    }
}

proof fn lemma_list_parts<R: Fn(&str) -> Option<TagId>, P: Fn(&str) -> Option<u64>>(
    v: Seq<NamedQuery>,
    k: int,
    j: int,
    resolver: R,
    read_float: P,
)
    requires
        0 <= j < k <= v.len(),
        list_readable(v, k),
        list_resolves(v, k, resolver, read_float),
    ensures
        readable(v[j]),
        resolves(v[j], resolver, read_float),
        plain_list(v, k).len() == k,
        plain_list(v, k)[j] == plain(v[j]),
    decreases k,
{
    lemma_plain_len(v, k - 1);
    if j < k - 1 {
        lemma_list_parts(v, k - 1, j, resolver, read_float);
    }
}

pub(crate) proof fn lemma_plain_len(v: Seq<NamedQuery>, k: int)
    requires
        0 <= k <= v.len(),
    ensures
        plain_list(v, k).len() == k,
    decreases k,
{
    if k > 0 {
        lemma_plain_len(v, k - 1);
    }
}

/// A query has its parentheses and its operator.
proof fn lemma_tokens_shape(n: NamedQuery)
    ensures
        tokens_of(n).len() > 2,
        tokens_of(n)[0] == TokenModel::LParen,
{
}

/// Parsing gave `value` and ended at `end`, or an answer was missing.
spec fn done_or_open<T>(p: Parsed<T>, value: T, end: int) -> bool {
    p is Unanswered || p == Parsed::Done(value, end)
}

/// The tokens of a query are read as the query.
#[verifier::rlimit(60)]
proof fn lemma_parse_query<R: Fn(&str) -> Option<TagId>, P: Fn(&str) -> Option<u64>>(
    row: TokenRow,
    at: int,
    n: NamedQuery,
    resolver: R,
    read_float: P,
    answers: Answers,
)
    requires
        piece(kinds(row.placed), at, tokens_of(n)),
        readable(n),
        resolves(n, resolver, read_float),
        answered(resolver, read_float, row, answers),
    ensures
        done_or_open(parsed_atom(row, at, answers), plain(n), at + tokens_of(n).len()),
    decreases n, 0int,
{
    let tokens = kinds(row.placed);
    lemma_kinds(row);
    lemma_heads_differ();
    let t = tokens_of(n);
    lemma_tokens_shape(n);
    lemma_piece_at(tokens, at, t, 0);
    lemma_piece_at(tokens, at, t, 1);
    lemma_piece_at(tokens, at, t, t.len() - 1);
    match n {
        NamedQuery::HasTag(tag, name) => {
            lemma_piece_at(tokens, at, t, 2);
            lemma_parse_tag(row, at + 2, resolver, read_float, answers, tag, name);
            assert(row[at + 1] == TokenModel::Word("tag"@));
        },
        NamedQuery::IsA(tag, name) => {
            lemma_piece_at(tokens, at, t, 2);
            lemma_parse_tag(row, at + 2, resolver, read_float, answers, tag, name);
            assert(row[at + 1] == TokenModel::Word("isa"@));
        },
        NamedQuery::HasAttr(tag, name, op, v, f) => {
            lemma_piece_at(tokens, at, t, 2);
            lemma_piece_at(tokens, at, t, 3);
            lemma_piece_at(tokens, at, t, 4);
            lemma_parse_tag(row, at + 2, resolver, read_float, answers, tag, name);
            lemma_op(op);
            lemma_parse_value(row, at + 4, resolver, read_float, answers, v, f);
            assert(row[at + 1] == TokenModel::Word("attr"@));
        },
        NamedQuery::Related(tag, name, o) => {
            lemma_piece_at(tokens, at, t, 2);
            lemma_piece_at(tokens, at, t, 3);
            lemma_parse_tag(row, at + 2, resolver, read_float, answers, tag, name);
            assert(row[at + 1] == TokenModel::Word("related"@));
        },
        NamedQuery::And(v) => {
            assert(row[at + 1] == TokenModel::Word("and"@));
            lemma_group(tokens, at, "and"@, v);
            lemma_parse_list(row, at + 2, v, 0, resolver, read_float, answers);
            lemma_plain_len(v, v.len() as int);
            assert(plain_list(v, v.len() as int).skip(0) =~= plain_list(v, v.len() as int));
        },
        NamedQuery::Or(v) => {
            assert(row[at + 1] == TokenModel::Word("or"@));
            lemma_group(tokens, at, "or"@, v);
            lemma_parse_list(row, at + 2, v, 0, resolver, read_float, answers);
            lemma_plain_len(v, v.len() as int);
            assert(plain_list(v, v.len() as int).skip(0) =~= plain_list(v, v.len() as int));
        },
        NamedQuery::Not(q) => {
            assert(row[at + 1] == TokenModel::Word("not"@));
            lemma_split(
                tokens,
                at,
                opening("not"@) + tokens_of(*q),
                seq![TokenModel::RParen],
            );
            lemma_split(tokens, at, opening("not"@), tokens_of(*q));
            lemma_parse_query(row, at + 2, *q, resolver, read_float, answers);
        },
    }
}

/// Where the parts of a group stand.
proof fn lemma_group(tokens: Seq<TokenModel>, at: int, head: Seq<char>, v: Seq<NamedQuery>)
    requires
        piece(
            tokens,
            at,
            opening(head) + list_tokens(v, v.len() as int) + seq![TokenModel::RParen],
        ),
    ensures
        piece(tokens, at + 2, list_tokens(v, v.len() as int)),
        at + 2 + list_tokens(v, v.len() as int).len() < tokens.len(),
        tokens[at + 2 + list_tokens(v, v.len() as int).len()] == TokenModel::RParen,
{
    let list = list_tokens(v, v.len() as int);
    lemma_split(tokens, at, opening(head) + list, seq![TokenModel::RParen]);
    lemma_split(tokens, at, opening(head), list);
    lemma_piece_at(tokens, at + 2 + list.len(), seq![TokenModel::RParen], 0);
}

/// The tokens of the queries of a list from `j` on are read as these queries.
proof fn lemma_parse_list<R: Fn(&str) -> Option<TagId>, P: Fn(&str) -> Option<u64>>(
    row: TokenRow,
    at: int,
    v: Seq<NamedQuery>,
    j: int,
    resolver: R,
    read_float: P,
    answers: Answers,
)
    requires
        0 <= j <= v.len(),
        piece(kinds(row.placed), at, list_tokens(v, v.len() as int)),
        at + list_tokens(v, v.len() as int).len() < row.len(),
        row[at + list_tokens(v, v.len() as int).len()] == TokenModel::RParen,
        list_readable(v, v.len() as int),
        list_resolves(v, v.len() as int, resolver, read_float),
        answered(resolver, read_float, row, answers),
    ensures
        done_or_open(
            parsed_list(row, at + list_tokens(v, j).len(), answers),
            plain_list(v, v.len() as int).skip(j),
            at + list_tokens(v, v.len() as int).len(),
        ),
    decreases v, v.len() - j,
{
    let tokens = kinds(row.placed);
    lemma_kinds(row);
    let n = v.len() as int;
    let p = at + list_tokens(v, j).len();
    let all = plain_list(v, n);
    lemma_plain_len(v, n);
    if j < n {
        lemma_list_parts(v, n, j, resolver, read_float);
        lemma_list_prefix(v, j, n);
        lemma_list_prefix(v, j + 1, n);
        lemma_tokens_shape(v[j]);
        let q = tokens_of(v[j]);
        let list = list_tokens(v, n);
        assert(list_tokens(v, j + 1) == list_tokens(v, j) + q);
        assert(piece(tokens, p, q)) by {
            assert(tokens.subrange(p, p + q.len()) =~= tokens.subrange(
                at,
                at + list.len(),
            ).subrange(list_tokens(v, j).len() as int, list_tokens(v, j + 1).len() as int));
            assert(list.subrange(
                list_tokens(v, j).len() as int,
                list_tokens(v, j + 1).len() as int,
            ) =~= list.take(list_tokens(v, j + 1).len() as int).skip(
                list_tokens(v, j).len() as int,
            ));
            assert((list_tokens(v, j) + q).skip(list_tokens(v, j).len() as int) =~= q);
        }
        lemma_piece_at(tokens, p, q, 0);
        lemma_parse_query(row, p, v[j], resolver, read_float, answers);
        lemma_parse_list(row, at, v, j + 1, resolver, read_float, answers);
        assert(seq![all[j]] + all.skip(j + 1) =~= all.skip(j));
    } else {
        assert(all.skip(j) =~= Seq::empty());
    }
}

/// A named query whose parts are read back.
proof fn lemma_reads_back<
    F: Fn(TagId) -> String,
    G: Fn(u64) -> String,
    R: Fn(&str) -> Option<TagId>,
    P: Fn(&str) -> Option<u64>,
>(n: NamedQuery, name_lookup: F, write_float: G, resolver: R, read_float: P)
    requires
        named_by(name_lookup, write_float, n),
        query_reads_back(plain(n), name_lookup, write_float, resolver, read_float),
    ensures
        readable(n),
        resolves(n, resolver, read_float),
    decreases n, 0int,
{
    match n {
        NamedQuery::HasAttr(t, name, _, v, f) => {
            assert(is_name(name_lookup, t, name));
            assert(is_float_text(write_float, v, f));
            if let ValueModel::Float(bits) = v {
                assert(is_written(write_float, bits, f));
            }
        },
        NamedQuery::And(v) => {
            lemma_plain_len(v, v.len() as int);
            lemma_list_reads_back(
                v,
                v.len() as int,
                name_lookup,
                write_float,
                resolver,
                read_float,
            );
        },
        NamedQuery::Or(v) => {
            lemma_plain_len(v, v.len() as int);
            lemma_list_reads_back(
                v,
                v.len() as int,
                name_lookup,
                write_float,
                resolver,
                read_float,
            );
        },
        NamedQuery::Not(q) => {
            lemma_reads_back(*q, name_lookup, write_float, resolver, read_float);
        },
        _ => {},
    }
}

proof fn lemma_list_reads_back<
    F: Fn(TagId) -> String,
    G: Fn(u64) -> String,
    R: Fn(&str) -> Option<TagId>,
    P: Fn(&str) -> Option<u64>,
>(v: Seq<NamedQuery>, k: int, name_lookup: F, write_float: G, resolver: R, read_float: P)
    requires
        0 <= k <= v.len(),
        list_named_by(name_lookup, write_float, v, k),
        list_reads_back(
            plain_list(v, v.len() as int),
            k,
            name_lookup,
            write_float,
            resolver,
            read_float,
        ),
    ensures
        list_readable(v, k),
        list_resolves(v, k, resolver, read_float),
    decreases v, k,
{
    if k > 0 {
        lemma_plain_len(v, v.len() as int);
        lemma_plain_at(v, v.len() as int, k - 1);
        lemma_list_reads_back(v, k - 1, name_lookup, write_float, resolver, read_float);
        lemma_reads_back(v[k - 1], name_lookup, write_float, resolver, read_float);
    }
}

proof fn lemma_plain_at(v: Seq<NamedQuery>, k: int, j: int)
    requires
        0 <= j < k <= v.len(),
    ensures
        plain_list(v, k)[j] == plain(v[j]),
    decreases k,
{
    lemma_plain_len(v, k);
    lemma_plain_len(v, k - 1);
    if j < k - 1 {
        lemma_plain_at(v, k - 1, j);
    }
}

/// Reading what was written gives the query back: where `text` is what
/// `to_sexpr` gives for `q`, and `r` is what `parse` gives for `text`, `r` is
/// `q`, if every tag and every value of `q` is read back.
pub proof fn text_round_trip<
    F: Fn(TagId) -> String,
    G: Fn(u64) -> String,
    R: Fn(&str) -> Option<TagId>,
    P: Fn(&str) -> Option<u64>,
>(
    q: Query,
    name_lookup: F,
    write_float: G,
    text: Seq<char>,
    resolver: R,
    read_float: P,
    r: Result<Query, QueryError>,
)
    requires
        writes(q@, name_lookup, write_float, text),
        reads(text, resolver, read_float, r),
        query_reads_back(q@, name_lookup, write_float, resolver, read_float),
    ensures
        r is Ok,
        r->Ok_0@ == q@,
{
    let n = choose|n: NamedQuery|
        {
            &&& #[trigger] named_by(name_lookup, write_float, n)
            &&& plain(n) == q@
            &&& text == query_text(n)
        };
    lemma_reads_back(n, name_lookup, write_float, resolver, read_float);
    assert(text.subrange(0, text.len() as int) =~= text);
    lemma_lex_query(text, 0, n);
    assert(tokens_of(n) + Seq::<TokenModel>::empty() =~= tokens_of(n));
    assert(kinds(Seq::empty()) =~= Seq::<TokenModel>::empty());
    assert(read_from(text, text.len() as int) == Ok::<Seq<TokenModel>, QueryFault>(Seq::empty()));
    let placed = lexed(text, 0)->Ok_0;
    assert(kinds(placed) == tokens_of(n));
    let row = row_of(text, placed);
    let answers = choose|answers: Answers|
        #[trigger] answered(resolver, read_float, row, answers) && query_reports(
            r,
            parsed_query(row, answers),
        );
    let t = tokens_of(n);
    assert(t.subrange(0, t.len() as int) =~= t);
    lemma_parse_query(row, 0, n, resolver, read_float, answers);
}

} // verus!

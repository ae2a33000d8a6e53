//! How numbers and queries are worded.

use vstd::prelude::*;
use crate::query::error::QueryError;
use crate::query::explain::{explain, floats_by, indentation, plan_line, plan_text};
use crate::query::lexer::{signed_number, unsigned_number};
use crate::query::parser::QueryParser;
use crate::query::render::{is_name, named_by, plain, query_text, to_sexpr, NamedQuery};
use crate::query::round_trip::{lemma_hex, lemma_plain_len, lemma_signed, query_reads_back,
    text_round_trip};
use crate::text::{dec, hex, push_dec, push_hex, push_signed, signed_dec};
use crate::types::id::{NodeId, ObjectId, TagId};
use crate::types::query::{CmpOp, Query};
use crate::types::value::Value;

verus! {

/// A number is written in decimal: a number below ten as its digit, any other
/// as the tenth of it with the last digit behind.
pub proof fn numbers_are_written_in_decimal(
    out: &mut String,
    other: &mut String,
    n: u64,
    tenth: u64,
)
    requires
        old(out)@.len() == 0,
        old(other)@.len() == 0,
        call_ensures(push_dec, (out, n), ()),
        call_ensures(push_dec, (other, tenth), ()),
    ensures
        n < 10 ==> final(out)@.len() == 1 && final(out)@[0] as int == '0' as int + n,
        n >= 10 && tenth == n / 10 ==> final(out)@ == final(other)@.push(
            final(out)@[final(other)@.len() as int],
        ) && final(out)@[final(other)@.len() as int] as int == '0' as int + n % 10,
{
    assert(final(out)@ =~= dec(n as nat));
    assert(final(other)@ =~= dec(tenth as nat));
}

/// The same in hexadecimal, with the letters `a` to `f` for the digits from ten
/// on.
pub proof fn numbers_are_written_in_hexadecimal(
    out: &mut String,
    other: &mut String,
    n: u64,
    sixteenth: u64,
)
    requires
        old(out)@.len() == 0,
        old(other)@.len() == 0,
        call_ensures(push_hex, (out, n), ()),
        call_ensures(push_hex, (other, sixteenth), ()),
    ensures
        n < 10 ==> final(out)@.len() == 1 && final(out)@[0] as int == '0' as int + n,
        10 <= n < 16 ==> final(out)@.len() == 1 && final(out)@[0] as int == 'a' as int + n - 10,
        n >= 16 && sixteenth == n / 16 ==> {
            let last = final(out)@[final(other)@.len() as int];
            &&& final(out)@ == final(other)@.push(last)
            &&& n % 16 < 10 ==> last as int == '0' as int + n % 16
            &&& n % 16 >= 10 ==> last as int == 'a' as int + n % 16 - 10
        },
{
    assert(final(out)@ =~= hex(n as nat));
    assert(final(other)@ =~= hex(sixteenth as nat));
}

/// A number below zero is written as the number above it with a minus in front.
pub proof fn negative_numbers_have_a_minus(
    out: &mut String,
    other: &mut String,
    i: i64,
    n: u64,
)
    requires
        old(out)@.len() == 0,
        old(other)@.len() == 0,
        call_ensures(push_signed, (out, i), ()),
        call_ensures(push_dec, (other, n), ()),
    ensures
        i >= 0 && n == i ==> final(out)@ == final(other)@,
        i < 0 && n == -i ==> final(out)@ == seq!['-'] + final(other)@,
{
    assert(final(out)@ =~= signed_dec(i as int));
    assert(final(other)@ =~= dec(n as nat));
}

/// A number that is written is read back.
pub proof fn written_numbers_are_read_back(
    out: &mut String,
    i: i64,
    chars: Vec<char>,
    r: Option<i64>,
    hexadecimal: &mut String,
    n: u64,
    digits: Vec<char>,
    from: usize,
    to: usize,
    u: Option<u64>,
)
    requires
        old(out)@.len() == 0,
        call_ensures(push_signed, (out, i), ()),
        chars@ == final(out)@,
        call_ensures(signed_number, (&chars,), r),
        old(hexadecimal)@.len() == 0,
        call_ensures(push_hex, (hexadecimal, n), ()),
        from <= to <= digits@.len(),
        digits@.subrange(from as int, to as int) == final(hexadecimal)@,
        call_ensures(unsigned_number, (&digits, from, to, 16, u64::MAX), u),
    ensures
        r == Some(i),
        u == Some(n),
{
    lemma_signed(i as int);
    assert(chars@ =~= signed_dec(i as int));
    lemma_hex(n as nat);
    assert(final(hexadecimal)@ =~= hex(n as nat));
    assert('0' <= hex(n as nat)[0] <= '9' || 'a' <= hex(n as nat)[0] <= 'f');
}

/// The word of a comparison: `=`, `!=`, `<`, `<=`, `>`, `>=`, `prefix` or
/// `contains`.
pub open spec fn wording(op: CmpOp, word: Seq<char>) -> bool {
    &&& op is Eq ==> word == seq!['=']
    &&& op is Ne ==> word == seq!['!', '=']
    &&& op is Lt ==> word == seq!['<']
    &&& op is Le ==> word == seq!['<', '=']
    &&& op is Gt ==> word == seq!['>']
    &&& op is Ge ==> word == seq!['>', '=']
    &&& op is Prefix ==> word == seq!['p', 'r', 'e', 'f', 'i', 'x']
    &&& op is Contains ==> word == seq!['c', 'o', 'n', 't', 'a', 'i', 'n', 's']
}

/// A query for a tag, an instance or a relation is written as a list of its
/// word and the name that the tag was given.
pub proof fn tags_are_written_by_their_names<F: Fn(TagId) -> String, G: Fn(u64) -> String>(
    q: Query,
    name_lookup: F,
    write_float: G,
    r: String,
)
    requires
        call_ensures(to_sexpr::<F, G>, (&q, name_lookup, write_float), r),
    ensures
        match q {
            Query::HasTag(t) => exists|s: String| #[trigger]
                name_lookup.ensures((t,), s) && r@ == seq!['(', 't', 'a', 'g', ' '] + s@ + seq![
                    ')',
                ],
            Query::IsA(t) => exists|s: String| #[trigger]
                name_lookup.ensures((t,), s) && r@ == seq!['(', 'i', 's', 'a', ' '] + s@ + seq![
                    ')',
                ],
            _ => true,
        },
{
    reveal_strlit("(tag ");
    reveal_strlit("(isa ");
    reveal_strlit(")");
    assert("(tag "@ =~= seq!['(', 't', 'a', 'g', ' ']);
    assert("(isa "@ =~= seq!['(', 'i', 's', 'a', ' ']);
    assert(")"@ =~= seq![')']);
    let n = choose|n: NamedQuery|
        {
            &&& #[trigger] named_by(name_lookup, write_float, n)
            &&& plain(n) == q@
            &&& r@ == query_text(n)
        };
    match (q, n) {
        (Query::HasTag(t), NamedQuery::HasTag(u, name)) => {
            assert(is_name(name_lookup, t, name));
        },
        (Query::IsA(t), NamedQuery::IsA(u, name)) => {
            assert(is_name(name_lookup, t, name));
        },
        _ => {},
    }
}

/// A comparison with a number or a text is written as a list of `attr`, the
/// name of the attribute, the word of the comparison and the value: a number
/// in decimal, a text in quotes.
pub proof fn comparisons_are_written_by_their_words<
    F: Fn(TagId) -> String,
    G: Fn(u64) -> String,
>(
    key: TagId,
    op: CmpOp,
    value: Value,
    name_lookup: F,
    write_float: G,
    r: String,
)
    requires
        value is Int || value is Text,
        value is Text ==> forall|i: int|
            0 <= i < value->Text_0@.len() ==> (#[trigger] value->Text_0@[i]) != '"'
                && value->Text_0@[i] != '\\',
        call_ensures(
            to_sexpr::<F, G>,
            (&Query::HasAttr { key, op, value }, name_lookup, write_float),
            r,
        ),
    ensures
        exists|s: String, word: Seq<char>| #[trigger]
            name_lookup.ensures((key,), s) && #[trigger] wording(op, word) && r@ == seq![
                '(',
                'a',
                't',
                't',
                'r',
                ' ',
            ] + s@ + seq![' '] + word + seq![' '] + written_value(value) + seq![')'],
{
    reveal_strlit("(attr ");
    reveal_strlit(" ");
    reveal_strlit(")");
    reveal_strlit("\"");
    reveal_strlit("=");
    reveal_strlit("!=");
    reveal_strlit("<");
    reveal_strlit("<=");
    reveal_strlit(">");
    reveal_strlit(">=");
    reveal_strlit("prefix");
    reveal_strlit("contains");
    assert("(attr "@ =~= seq!['(', 'a', 't', 't', 'r', ' ']);
    assert(" "@ =~= seq![' ']);
    assert(")"@ =~= seq![')']);
    assert("\""@ =~= seq!['"']);
    assert("="@ =~= seq!['=']);
    assert("!="@ =~= seq!['!', '=']);
    assert("<"@ =~= seq!['<']);
    assert("<="@ =~= seq!['<', '=']);
    assert(">"@ =~= seq!['>']);
    assert(">="@ =~= seq!['>', '=']);
    assert("prefix"@ =~= seq!['p', 'r', 'e', 'f', 'i', 'x']);
    assert("contains"@ =~= seq!['c', 'o', 'n', 't', 'a', 'i', 'n', 's']);
    let q = Query::HasAttr { key, op, value };
    let n = choose|n: NamedQuery|
        {
            &&& #[trigger] named_by(name_lookup, write_float, n)
            &&& plain(n) == q@
            &&& r@ == query_text(n)
        };
    match n {
        NamedQuery::HasAttr(k, name, o, v, f) => {
            assert(k == key && o == op && v == value@);
            assert(is_name(name_lookup, key, name));
            let s = choose|s: String| s@ == name && #[trigger] name_lookup.ensures((key,), s);
            let word = crate::query::render::op_text(op);
            assert(wording(op, word));
            match value {
                Value::Text(t) => {
                    lemma_escaped_plain(t@, t@.len() as int);
                    assert(t@.take(t@.len() as int) =~= t@);
                },
                _ => {},
            }
            assert(crate::query::render::value_text(v, f) == written_value(value));
        },
        _ => {
            assert(false);
        },
    }
}

/// A query for a relation names the object by the number of its node in
/// hexadecimal and its own number in decimal.
pub proof fn related_objects_are_written_by_their_numbers<
    F: Fn(TagId) -> String,
    G: Fn(u64) -> String,
>(
    predicate: TagId,
    target: ObjectId,
    node: NodeId,
    local: u64,
    name_lookup: F,
    write_float: G,
    r: String,
)
    requires
        call_ensures(ObjectId::node_id, (&target,), node),
        call_ensures(ObjectId::local_seq, (&target,), local),
        call_ensures(
            to_sexpr::<F, G>,
            (&Query::Related { predicate, target }, name_lookup, write_float),
            r,
        ),
    ensures
        exists|s: String| #[trigger]
            name_lookup.ensures((predicate,), s) && r@ == "(related "@ + s@ + " "@ + ("obj:"@ + hex(
                node as nat,
            ) + ":"@ + dec(local as nat)) + ")"@,
{
    let q = Query::Related { predicate, target };
    let n = choose|n: NamedQuery|
        {
            &&& #[trigger] named_by(name_lookup, write_float, n)
            &&& plain(n) == q@
            &&& r@ == query_text(n)
        };
    match n {
        NamedQuery::Related(p, name, o) => {
            assert(is_name(name_lookup, predicate, name));
        },
        _ => {
            assert(false);
        },
    }
}

/// The plan of a query for a relation names the object in the same way.
pub proof fn related_objects_are_planned_by_their_numbers<G: Fn(u64) -> String>(
    predicate: TagId,
    target: ObjectId,
    node: NodeId,
    local: u64,
    write_float: G,
    plan: String,
)
    requires
        call_ensures(ObjectId::node_id, (&target,), node),
        call_ensures(ObjectId::local_seq, (&target,), local),
        call_ensures(explain::<G>, (&Query::Related { predicate, target }, write_float), plan),
    ensures
        plan@ == "Related(predicate="@ + dec(predicate.id as nat) + ", target="@ + ("obj:"@ + hex(
            node as nat,
        ) + ":"@ + dec(local as nat)) + ")\n"@,
{
    let q = Query::Related { predicate, target };
    let e = choose|n: NamedQuery|
        {
            &&& #[trigger] floats_by(write_float, n)
            &&& plain(n) == q@
            &&& plan@ == plan_text(n, 0)
        };
    match e {
        NamedQuery::Related(p, name, o) => {
            let line = plan_line(e);
            assert(indentation(0) =~= Seq::<char>::empty());
            assert(indentation(0) + line =~= line);
            assert(plan@ =~= line);
        },
        _ => {
            assert(false);
        },
    }
}

/// The plan of a query begins with its own line: what it asks for, or how many
/// queries it joins.
pub proof fn plans_begin_with_their_line<G: Fn(u64) -> String>(
    q: Query,
    write_float: G,
    plan: String,
)
    requires
        call_ensures(explain::<G>, (&q, write_float), plan),
    ensures
        match q {
            Query::HasTag(t) => plan@ == "HasTag("@ + dec(t.id as nat) + ")\n"@,
            Query::IsA(t) => plan@ == "IsA("@ + dec(t.id as nat) + ")\n"@,
            Query::And(v) => ("And ["@ + dec(v@.len()) + " children]\n"@).is_prefix_of(plan@),
            Query::Or(v) => ("Or ["@ + dec(v@.len()) + " children]\n"@).is_prefix_of(plan@),
            Query::Not(_) => "Not\n"@.is_prefix_of(plan@),
            _ => true,
        },
{
    let e = choose|n: NamedQuery|
        {
            &&& #[trigger] floats_by(write_float, n)
            &&& plain(n) == q@
            &&& plan@ == plan_text(n, 0)
        };
    assert(indentation(0) =~= Seq::<char>::empty());
    let line = plan_line(e);
    assert(indentation(0) + line =~= line);
    match (q, e) {
        (Query::HasTag(t), NamedQuery::HasTag(u, name)) => {
            assert(plan@ =~= line);
        },
        (Query::IsA(t), NamedQuery::IsA(u, name)) => {
            assert(plan@ =~= line);
        },
        (Query::And(v), NamedQuery::And(w)) => {
            crate::types::query::lemma_query_models(v, v@.len() as int);
            lemma_plain_len(w, w.len() as int);
            assert(line =~= plan@.subrange(0, line.len() as int));
        },
        (Query::Or(v), NamedQuery::Or(w)) => {
            crate::types::query::lemma_query_models(v, v@.len() as int);
            lemma_plain_len(w, w.len() as int);
            assert(line =~= plan@.subrange(0, line.len() as int));
        },
        (Query::Not(_), NamedQuery::Not(_)) => {
            assert(line =~= plan@.subrange(0, line.len() as int));
        },
        _ => {},
    }
}

/// A number in decimal, or a text in quotes.
pub open spec fn written_value(v: Value) -> Seq<char> {
    match v {
        Value::Int(i) => signed_dec(i as int),
        Value::Text(t) => seq!['"'] + t@ + seq!['"'],
        _ => Seq::empty(),
    }
}

proof fn lemma_escaped_plain(s: Seq<char>, k: int)
    requires
        0 <= k <= s.len(),
        forall|i: int| 0 <= i < s.len() ==> (#[trigger] s[i]) != '"' && s[i] != '\\',
    ensures
        crate::query::render::escaped(s, k) == s.take(k),
    decreases k,
{
    if k > 0 {
        lemma_escaped_plain(s, k - 1);
        assert(s[k - 1] != '"');
        assert(s.take(k) =~= s.take(k - 1) + seq![s[k - 1]]);
    } else {
        assert(s.take(0) =~= Seq::<char>::empty());
    }
}

/// What is written is read back as the query that was written.
pub proof fn written_query_is_read_back<
    F: Fn(TagId) -> String,
    G: Fn(u64) -> String,
    R: Fn(&str) -> Option<TagId>,
    P: Fn(&str) -> Option<u64>,
>(
    q: Query,
    name_lookup: F,
    write_float: G,
    written: String,
    text: &str,
    resolver: R,
    read_float: P,
    r: Result<Query, QueryError>,
)
    requires
        call_ensures(to_sexpr::<F, G>, (&q, name_lookup, write_float), written),
        text@ == written@,
        call_ensures(QueryParser::parse::<R, P>, (text, resolver, read_float), r),
        query_reads_back(q@, name_lookup, write_float, resolver, read_float),
    ensures
        r is Ok,
        r->Ok_0@ == q@,
{
    text_round_trip(q, name_lookup, write_float, text@, resolver, read_float, r);
}

} // verus!

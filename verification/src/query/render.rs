//! Writing queries in their text form.

use vstd::prelude::*;
use crate::query::lexer::chars_of;
use crate::text::{dec, hex, push_dec, push_hex, push_signed, signed_dec};
use crate::types::id::{ObjectId, TagId};
use crate::types::query::{query_model, query_models, CmpOp, Query, QueryModel};
use crate::types::value::{Value, ValueModel};

verus! {

/// A query in which each tag has its name, and each floating-point number its
/// text.
pub ghost enum NamedQuery {
    HasTag(TagId, Seq<char>),
    HasAttr(TagId, Seq<char>, CmpOp, ValueModel, Seq<char>),
    Related(TagId, Seq<char>, ObjectId),
    And(Seq<NamedQuery>),
    Or(Seq<NamedQuery>),
    Not(Box<NamedQuery>),
    IsA(TagId, Seq<char>),
}

/// The query without the names.
pub open spec fn plain(n: NamedQuery) -> QueryModel
    decreases n, 0int,
{
    match n {
        NamedQuery::HasTag(t, _) => QueryModel::HasTag(t),
        NamedQuery::HasAttr(k, _, op, v, _) => QueryModel::HasAttr(k, op, v),
        NamedQuery::Related(p, _, o) => QueryModel::Related(p, o),
        NamedQuery::And(v) => QueryModel::And(plain_list(v, v.len() as int)),
        NamedQuery::Or(v) => QueryModel::Or(plain_list(v, v.len() as int)),
        NamedQuery::Not(q) => QueryModel::Not(Box::new(plain(*q))),
        NamedQuery::IsA(t, _) => QueryModel::IsA(t),
    }
}

/// The first `k` queries without the names.
pub open spec fn plain_list(v: Seq<NamedQuery>, k: int) -> Seq<QueryModel>
    decreases v, k,
{
    if k <= 0 || k > v.len() {
        Seq::empty()
    } else {
        plain_list(v, k - 1).push(plain(v[k - 1]))
    }
}

/// The text of a comparison.
pub open spec fn op_text(op: CmpOp) -> Seq<char> {
    match op {
        CmpOp::Eq => "="@,
        CmpOp::Ne => "!="@,
        CmpOp::Lt => "<"@,
        CmpOp::Le => "<="@,
        CmpOp::Gt => ">"@,
        CmpOp::Ge => ">="@,
        CmpOp::Prefix => "prefix"@,
        CmpOp::Contains => "contains"@,
    }
}

/// A character within quotes.
pub open spec fn escaped_char(c: char) -> Seq<char> {
    if c == '"' {
        "\\\""@
    } else if c == '\\' {
        "\\\\"@
    } else {
        seq![c]
    }
}

/// The first `k` characters within quotes.
pub open spec fn escaped(s: Seq<char>, k: int) -> Seq<char>
    decreases k,
{
    if k <= 0 {
        Seq::empty()
    } else {
        escaped(s, k - 1) + escaped_char(s[k - 1])
    }
}

/// The text of a value, `f` being that of the floating-point number in it.
pub open spec fn value_text(v: ValueModel, f: Seq<char>) -> Seq<char>
    decreases v,
{
    match v {
        ValueModel::Int(i) => signed_dec(i),
        ValueModel::Float(_) => f,
        ValueModel::Timestamp(t) => "ts:"@ + signed_dec(t),
        ValueModel::Text(s) => "\""@ + escaped(s, s.len() as int) + "\""@,
        ValueModel::Blob(b) => "blob["@ + dec(b.len()) + "]"@,
        ValueModel::Scoped(c, inner) => "scoped(@"@ + dec(c.id as nat) + ","@ + value_text(
            *inner,
            f,
        ) + ")"@,
    }
}

/// The text of an object.
pub open spec fn object_text(o: ObjectId) -> Seq<char> {
    "obj:"@ + hex(o.node() as nat) + ":"@ + dec(o.local() as nat)
}

/// The text of a query.
pub open spec fn query_text(n: NamedQuery) -> Seq<char>
    decreases n, 0int,
{
    match n {
        NamedQuery::HasTag(_, name) => "(tag "@ + name + ")"@,
        NamedQuery::IsA(_, name) => "(isa "@ + name + ")"@,
        NamedQuery::HasAttr(_, name, op, v, f) => "(attr "@ + name + " "@ + op_text(op) + " "@
            + value_text(v, f) + ")"@,
        NamedQuery::Related(_, name, o) => "(related "@ + name + " "@ + object_text(o) + ")"@,
        NamedQuery::And(v) => "(and"@ + list_text(v, v.len() as int) + ")"@,
        NamedQuery::Or(v) => "(or"@ + list_text(v, v.len() as int) + ")"@,
        NamedQuery::Not(q) => "(not "@ + query_text(*q) + ")"@,
    }
}

/// The text of the first `k` queries, a space before each.
pub open spec fn list_text(v: Seq<NamedQuery>, k: int) -> Seq<char>
    decreases v, k,
{
    if k <= 0 || k > v.len() {
        Seq::empty()
    } else {
        list_text(v, k - 1) + " "@ + query_text(v[k - 1])
    }
}

/// `name` is what `name_lookup` says of the tag.
pub open spec fn is_name<F: Fn(TagId) -> String>(
    name_lookup: F,
    tag: TagId,
    name: Seq<char>,
) -> bool {
    exists|s: String| s@ == name && #[trigger] name_lookup.ensures((tag,), s)
}

/// `f` is what `write_float` says of the bits.
pub open spec fn is_written<G: Fn(u64) -> String>(write_float: G, bits: u64, f: Seq<char>) -> bool {
    exists|s: String| s@ == f && #[trigger] write_float.ensures((bits,), s)
}

/// `f` is what `write_float` says of the floating-point number in the value,
/// if there is one.
pub open spec fn is_float_text<G: Fn(u64) -> String>(
    write_float: G,
    v: ValueModel,
    f: Seq<char>,
) -> bool
    decreases v,
{
    match v {
        ValueModel::Float(bits) => is_written(write_float, bits, f),
        ValueModel::Scoped(_, inner) => is_float_text(write_float, *inner, f),
        _ => true,
    }
}

/// All names and texts are those that the functions gave.
pub open spec fn named_by<F: Fn(TagId) -> String, G: Fn(u64) -> String>(
    name_lookup: F,
    write_float: G,
    n: NamedQuery,
) -> bool
    decreases n, 0int,
{
    match n {
        NamedQuery::HasTag(t, name) => is_name(name_lookup, t, name),
        NamedQuery::IsA(t, name) => is_name(name_lookup, t, name),
        NamedQuery::HasAttr(t, name, _, v, f) => is_name(name_lookup, t, name) && is_float_text(
            write_float,
            v,
            f,
        ),
        NamedQuery::Related(t, name, _) => is_name(name_lookup, t, name),
        NamedQuery::And(v) => list_named_by(name_lookup, write_float, v, v.len() as int),
        NamedQuery::Or(v) => list_named_by(name_lookup, write_float, v, v.len() as int),
        NamedQuery::Not(q) => named_by(name_lookup, write_float, *q),
    }
}

/// All names and texts in the first `k` queries are those that the functions gave.
pub open spec fn list_named_by<F: Fn(TagId) -> String, G: Fn(u64) -> String>(
    name_lookup: F,
    write_float: G,
    v: Seq<NamedQuery>,
    k: int,
) -> bool
    decreases v, k,
{
    if k <= 0 || k > v.len() {
        true
    } else {
        list_named_by(name_lookup, write_float, v, k - 1) && named_by(
            name_lookup,
            write_float,
            v[k - 1],
        )
    }
}

/// `text` is what writing the query gives, with some answers of `name_lookup`
/// and `write_float`.
pub open spec fn writes<F: Fn(TagId) -> String, G: Fn(u64) -> String>(
    query: QueryModel,
    name_lookup: F,
    write_float: G,
    text: Seq<char>,
) -> bool {
    exists|n: NamedQuery|
        {
            &&& #[trigger] named_by(name_lookup, write_float, n)
            &&& plain(n) == query
            &&& text == query_text(n)
        }
}

pub(crate) fn op_str(op: CmpOp) -> (r: &'static str)
    ensures
        r@ == op_text(op),
{
    match op {
        CmpOp::Eq => "=",
        CmpOp::Ne => "!=",
        CmpOp::Lt => "<",
        CmpOp::Le => "<=",
        CmpOp::Gt => ">",
        CmpOp::Ge => ">=",
        CmpOp::Prefix => "prefix",
        CmpOp::Contains => "contains",
    }
}

fn push_escaped(out: &mut String, s: &str)
    ensures
        final(out)@ == old(out)@ + escaped(s@, s@.len() as int),
{
    let ghost start = out@;
    let chars = chars_of(s);
    let mut i: usize = 0;
    proof {
        assert(start + escaped(s@, 0) =~= start);
    }
    while i < chars.len()
        invariant
            i <= chars@.len(),
            chars@ == s@,
            out@ == start + escaped(s@, i as int),
        decreases chars@.len() - i,
    {
        let c = chars[i];
        if c == '"' {
            out.push_str("\\\"");
        } else if c == '\\' {
            out.push_str("\\\\");
        } else {
            out.push(c);
        }
        proof {
            assert(out@ =~= start + escaped(s@, i + 1));
        }
        i = i + 1;
    }
}

pub(crate) fn push_value<G: Fn(u64) -> String>(out: &mut String, value: &Value, write_float: &G) -> (f: Ghost<
    Seq<char>,
>)
    requires
        forall|b: u64| write_float.requires((b,)),
    ensures
        final(out)@ == old(out)@ + value_text(value@, f@),
        is_float_text(*write_float, value@, f@),
    decreases value,
{
    let ghost start = out@;
    match value {
        Value::Int(i) => {
            push_signed(out, *i);
            proof {
                assert(is_float_text(*write_float, value@, Seq::empty()));
            }
            Ghost(Seq::empty())
        },
        Value::Float(bits) => {
            let s = write_float(*bits);
            out.push_str(s.as_str());
            proof {
                assert(write_float.ensures((*bits,), s));
                assert(is_written(*write_float, *bits, s@));
                assert(is_float_text(*write_float, value@, s@));
            }
            Ghost(s@)
        },
        Value::Timestamp(t) => {
            out.push_str("ts:");
            push_signed(out, *t);
            proof {
                assert(out@ =~= start + value_text(value@, Seq::empty()));
                assert(is_float_text(*write_float, value@, Seq::empty()));
            }
            Ghost(Seq::empty())
        },
        Value::Text(s) => {
            out.push_str("\"");
            push_escaped(out, s.as_str());
            out.push_str("\"");
            proof {
                assert(out@ =~= start + value_text(value@, Seq::empty()));
                assert(is_float_text(*write_float, value@, Seq::empty()));
            }
            Ghost(Seq::empty())
        },
        Value::Blob(b) => {
            out.push_str("blob[");
            push_dec(out, b.len() as u64);
            out.push_str("]");
            proof {
                assert(out@ =~= start + value_text(value@, Seq::empty()));
                assert(is_float_text(*write_float, value@, Seq::empty()));
            }
            Ghost(Seq::empty())
        },
        Value::Scoped { context, inner } => {
            out.push_str("scoped(@");
            push_dec(out, context.raw() as u64);
            out.push_str(",");
            let f = push_value(out, inner, write_float);
            out.push_str(")");
            proof {
                assert(out@ =~= start + value_text(value@, f@));
                assert(is_float_text(*write_float, value@, f@));
            }
            f
        },
    }
}

fn push_name<F: Fn(TagId) -> String>(out: &mut String, tag: TagId, name_lookup: &F) -> (name: Ghost<
    Seq<char>,
>)
    requires
        forall|t: TagId| name_lookup.requires((t,)),
    ensures
        final(out)@ == old(out)@ + name@,
        is_name(*name_lookup, tag, name@),
{
    let s = name_lookup(tag);
    out.push_str(s.as_str());
    proof {
        assert(name_lookup.ensures((tag,), s));
    }
    Ghost(s@)
}

proof fn lemma_lists_grow<F: Fn(TagId) -> String, G: Fn(u64) -> String>(
    name_lookup: F,
    write_float: G,
    a: Seq<NamedQuery>,
    b: Seq<NamedQuery>,
    k: int,
)
    requires
        0 <= k <= a.len(),
        k <= b.len(),
        forall|i: int| 0 <= i < k ==> a[i] == b[i],
    ensures
        plain_list(a, k) == plain_list(b, k),
        list_text(a, k) == list_text(b, k),
        list_named_by(name_lookup, write_float, a, k) == list_named_by(
            name_lookup,
            write_float,
            b,
            k,
        ),
    decreases k,
{
    if k > 0 {
        lemma_lists_grow(name_lookup, write_float, a, b, k - 1);
    }
}

fn render_list<F: Fn(TagId) -> String, G: Fn(u64) -> String>(
    out: &mut String,
    queries: &Vec<Query>,
    name_lookup: &F,
    write_float: &G,
) -> (v: Ghost<Seq<NamedQuery>>)
    requires
        forall|t: TagId| name_lookup.requires((t,)),
        forall|b: u64| write_float.requires((b,)),
    ensures
        plain_list(v@, v@.len() as int) == query_models(*queries, queries@.len() as int),
        list_named_by(*name_lookup, *write_float, v@, v@.len() as int),
        final(out)@ == old(out)@ + list_text(v@, v@.len() as int),
    decreases queries, 1int,
{
    let ghost start = out@;
    let ghost mut v: Seq<NamedQuery> = Seq::empty();
    let mut i: usize = 0;
    proof {
        assert(start + list_text(v, 0) =~= start);
    }
    while i < queries.len()
        invariant
            i <= queries@.len(),
            forall|t: TagId| name_lookup.requires((t,)),
            forall|b: u64| write_float.requires((b,)),
            v.len() == i,
            plain_list(v, i as int) == query_models(*queries, i as int),
            list_named_by(*name_lookup, *write_float, v, i as int),
            out@ == start + list_text(v, i as int),
        decreases queries@.len() - i,
    {
        out.push_str(" ");
        let n = render(out, &queries[i], name_lookup, write_float);
        proof {
            let before = v;
            v = v.push(n@);
            lemma_lists_grow(*name_lookup, *write_float, before, v, i as int);
            assert(out@ =~= start + list_text(v, i + 1));
        }
        i = i + 1;
    }
    Ghost(v)
}

fn render<F: Fn(TagId) -> String, G: Fn(u64) -> String>(
    out: &mut String,
    query: &Query,
    name_lookup: &F,
    write_float: &G,
) -> (n: Ghost<NamedQuery>)
    requires
        forall|t: TagId| name_lookup.requires((t,)),
        forall|b: u64| write_float.requires((b,)),
    ensures
        plain(n@) == query_model(*query),
        named_by(*name_lookup, *write_float, n@),
        final(out)@ == old(out)@ + query_text(n@),
    decreases query, 0int,
{
    let ghost start = out@;
    match query {
        Query::HasTag(t) => {
            out.push_str("(tag ");
            let name = push_name(out, *t, name_lookup);
            out.push_str(")");
            let ghost n = NamedQuery::HasTag(*t, name@);
            proof {
                assert(out@ =~= start + query_text(n));
            }
            Ghost(n)
        },
        Query::IsA(t) => {
            out.push_str("(isa ");
            let name = push_name(out, *t, name_lookup);
            out.push_str(")");
            let ghost n = NamedQuery::IsA(*t, name@);
            proof {
                assert(out@ =~= start + query_text(n));
            }
            Ghost(n)
        },
        Query::HasAttr { key, op, value } => {
            out.push_str("(attr ");
            let name = push_name(out, *key, name_lookup);
            out.push_str(" ");
            out.push_str(op_str(*op));
            out.push_str(" ");
            let f = push_value(out, value, write_float);
            out.push_str(")");
            let ghost n = NamedQuery::HasAttr(*key, name@, *op, value@, f@);
            proof {
                assert(out@ =~= start + query_text(n));
            }
            Ghost(n)
        },
        Query::Related { predicate, target } => {
            out.push_str("(related ");
            let name = push_name(out, *predicate, name_lookup);
            out.push_str(" ");
            out.push_str("obj:");
            push_hex(out, target.node_id() as u64);
            out.push_str(":");
            push_dec(out, target.local_seq());
            out.push_str(")");
            let ghost n = NamedQuery::Related(*predicate, name@, *target);
            proof {
                assert(out@ =~= start + query_text(n));
            }
            Ghost(n)
        },
        Query::And(qs) => {
            out.push_str("(and");
            let v = render_list(out, qs, name_lookup, write_float);
            out.push_str(")");
            let ghost n = NamedQuery::And(v@);
            proof {
                assert(out@ =~= start + query_text(n));
            }
            Ghost(n)
        },
        Query::Or(qs) => {
            out.push_str("(or");
            let v = render_list(out, qs, name_lookup, write_float);
            out.push_str(")");
            let ghost n = NamedQuery::Or(v@);
            proof {
                assert(out@ =~= start + query_text(n));
            }
            Ghost(n)
        },
        Query::Not(q) => {
            out.push_str("(not ");
            let inner = render(out, q, name_lookup, write_float);
            out.push_str(")");
            let ghost n = NamedQuery::Not(Box::new(inner@));
            proof {
                assert(out@ =~= start + query_text(n));
            }
            Ghost(n)
        },
    }
}

/// The text form of a query. `name_lookup` gives the name of a tag,
/// `write_float` the text of a floating-point number from its bits.
pub fn to_sexpr<F: Fn(TagId) -> String, G: Fn(u64) -> String>(
    query: &Query,
    name_lookup: F,
    write_float: G,
) -> (r: String)
    requires
        forall|t: TagId| name_lookup.requires((t,)),
        forall|b: u64| write_float.requires((b,)),
    ensures
        writes(query@, name_lookup, write_float, r@),
{
    let mut out = String::new();
    let n = render(&mut out, query, &name_lookup, &write_float);
    proof {
        assert(out@ =~= query_text(n@));
        assert(named_by(name_lookup, write_float, n@));
    }
    out
}

} // verus!

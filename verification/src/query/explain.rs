//! The plan of a query, for people to read.

use vstd::prelude::*;
use crate::query::render::{is_float_text, object_text, op_str, op_text, plain, plain_list,
    push_value, value_text, NamedQuery};
use crate::text::{dec, push_dec, push_hex};
use crate::types::query::{query_model, query_models, Query};

verus! {

/// Two spaces for each level.
pub open spec fn indentation(depth: nat) -> Seq<char> {
    Seq::new(2 * depth, |i: int| ' ')
}

/// The line of a query, without what it contains.
pub open spec fn plan_line(n: NamedQuery) -> Seq<char> {
    match n {
        NamedQuery::HasTag(t, _) => "HasTag("@ + dec(t.id as nat) + ")\n"@,
        NamedQuery::IsA(t, _) => "IsA("@ + dec(t.id as nat) + ")\n"@,
        NamedQuery::HasAttr(k, _, op, v, f) => "HasAttr(key="@ + dec(k.id as nat) + ", op="@
            + op_text(op) + ", value="@ + value_text(v, f) + ")\n"@,
        NamedQuery::Related(p, _, o) => "Related(predicate="@ + dec(p.id as nat) + ", target="@
            + object_text(o) + ")\n"@,
        NamedQuery::And(v) => "And ["@ + dec(v.len()) + " children]\n"@,
        NamedQuery::Or(v) => "Or ["@ + dec(v.len()) + " children]\n"@,
        NamedQuery::Not(_) => "Not\n"@,
    }
}

/// The plan of a query at a depth: its line, then what it contains, one level
/// deeper.
pub open spec fn plan_text(n: NamedQuery, depth: nat) -> Seq<char>
    decreases n, 0int,
{
    indentation(depth) + plan_line(n) + match n {
        NamedQuery::And(v) => list_plan(v, v.len() as int, depth + 1),
        NamedQuery::Or(v) => list_plan(v, v.len() as int, depth + 1),
        NamedQuery::Not(q) => plan_text(*q, depth + 1),
        _ => Seq::empty(),
    }
}

/// The plans of the first `k` queries.
pub open spec fn list_plan(v: Seq<NamedQuery>, k: int, depth: nat) -> Seq<char>
    decreases v, k,
{
    if k <= 0 || k > v.len() {
        Seq::empty()
    } else {
        list_plan(v, k - 1, depth) + plan_text(v[k - 1], depth)
    }
}

/// All texts of floating-point numbers are those that the function gave.
pub open spec fn floats_by<G: Fn(u64) -> String>(write_float: G, n: NamedQuery) -> bool
    decreases n, 0int,
{
    match n {
        NamedQuery::HasAttr(_, _, _, v, f) => is_float_text(write_float, v, f),
        NamedQuery::And(v) => list_floats_by(write_float, v, v.len() as int),
        NamedQuery::Or(v) => list_floats_by(write_float, v, v.len() as int),
        NamedQuery::Not(q) => floats_by(write_float, *q),
        _ => true,
    }
}

/// The same for the first `k` queries.
pub open spec fn list_floats_by<G: Fn(u64) -> String>(
    write_float: G,
    v: Seq<NamedQuery>,
    k: int,
) -> bool
    decreases v, k,
{
    if k <= 0 || k > v.len() {
        true
    } else {
        list_floats_by(write_float, v, k - 1) && floats_by(write_float, v[k - 1])
    }
}

fn push_indentation(out: &mut String, depth: u64)
    ensures
        final(out)@ == old(out)@ + indentation(depth as nat),
{
    let ghost start = out@;
    let mut i: u64 = 0;
    proof {
        assert(start + indentation(0) =~= start);
    }
    while i < depth
        invariant
            i <= depth,
            out@ == start + indentation(i as nat),
        decreases depth - i,
    {
        out.push(' ');
        out.push(' ');
        i = i + 1;
        proof {
            assert(out@ =~= start + indentation(i as nat));
        }
    }
}

proof fn lemma_list_grows<G: Fn(u64) -> String>(
    write_float: G,
    a: Seq<NamedQuery>,
    b: Seq<NamedQuery>,
    k: int,
    depth: nat,
)
    requires
        0 <= k <= a.len(),
        k <= b.len(),
        forall|i: int| 0 <= i < k ==> a[i] == b[i],
    ensures
        plain_list(a, k) == plain_list(b, k),
        list_plan(a, k, depth) == list_plan(b, k, depth),
        list_floats_by(write_float, a, k) == list_floats_by(write_float, b, k),
    decreases k,
{
    if k > 0 {
        lemma_list_grows(write_float, a, b, k - 1, depth);
    }
}

/// How deep a query is nested.
pub open spec fn height(q: Query) -> nat
    decreases q, 0int,
{
    match q {
        Query::And(v) => 1 + list_height(v, v@.len() as int),
        Query::Or(v) => 1 + list_height(v, v@.len() as int),
        Query::Not(inner) => 1 + height(*inner),
        _ => 0,
    }
}

/// How deep the first `k` queries are nested.
pub open spec fn list_height(v: Vec<Query>, k: int) -> nat
    decreases v, k,
{
    if k <= 0 || k > v@.len() {
        0
    } else {
        let a = list_height(v, k - 1);
        let b = height(v@[k - 1]);
        if a < b {
            b
        } else {
            a
        }
    }
}

proof fn lemma_list_height(v: Vec<Query>, k: int, i: int)
    requires
        0 <= i < k <= v@.len(),
    ensures
        height(v@[i]) <= list_height(v, k),
    decreases k,
{
    if i < k - 1 {
        lemma_list_height(v, k - 1, i);
    }
}

fn explain_list<G: Fn(u64) -> String>(
    out: &mut String,
    queries: &Vec<Query>,
    depth: u64,
    write_float: &G,
) -> (v: Ghost<Seq<NamedQuery>>)
    requires
        forall|b: u64| write_float.requires((b,)),
        depth + list_height(*queries, queries@.len() as int) <= u64::MAX,
    ensures
        v@.len() == queries@.len(),
        plain_list(v@, v@.len() as int) == query_models(*queries, queries@.len() as int),
        list_floats_by(*write_float, v@, v@.len() as int),
        final(out)@ == old(out)@ + list_plan(v@, v@.len() as int, depth as nat),
    decreases queries, 1int,
{
    let ghost start = out@;
    let ghost mut v: Seq<NamedQuery> = Seq::empty();
    let mut i: usize = 0;
    proof {
        assert(start + list_plan(v, 0, depth as nat) =~= start);
    }
    while i < queries.len()
        invariant
            i <= queries@.len(),
            forall|b: u64| write_float.requires((b,)),
            depth + list_height(*queries, queries@.len() as int) <= u64::MAX,
            v.len() == i,
            plain_list(v, i as int) == query_models(*queries, i as int),
            list_floats_by(*write_float, v, i as int),
            out@ == start + list_plan(v, i as int, depth as nat),
        decreases queries@.len() - i,
    {
        proof {
            lemma_list_height(*queries, queries@.len() as int, i as int);
        }
        let n = explain_at(out, &queries[i], depth, write_float);
        proof {
            let before = v;
            v = v.push(n@);
            lemma_list_grows(*write_float, before, v, i as int, depth as nat);
            assert(out@ =~= start + list_plan(v, i + 1, depth as nat));
        }
        i = i + 1;
    }
    Ghost(v)
}

#[verifier::rlimit(40)]
fn explain_at<G: Fn(u64) -> String>(
    out: &mut String,
    query: &Query,
    depth: u64,
    write_float: &G,
) -> (n: Ghost<NamedQuery>)
    requires
        forall|b: u64| write_float.requires((b,)),
        depth + height(*query) <= u64::MAX,
    ensures
        plain(n@) == query_model(*query),
        floats_by(*write_float, n@),
        final(out)@ == old(out)@ + plan_text(n@, depth as nat),
    decreases query, 0int,
{
    let ghost start = out@;
    push_indentation(out, depth);
    match query {
        Query::HasTag(t) => {
            out.push_str("HasTag(");
            push_dec(out, t.raw() as u64);
            out.push_str(")\n");
            let ghost n = NamedQuery::HasTag(*t, Seq::empty());
            proof {
                assert(out@ =~= start + plan_text(n, depth as nat));
            }
            Ghost(n)
        },
        Query::IsA(t) => {
            out.push_str("IsA(");
            push_dec(out, t.raw() as u64);
            out.push_str(")\n");
            let ghost n = NamedQuery::IsA(*t, Seq::empty());
            proof {
                assert(out@ =~= start + plan_text(n, depth as nat));
            }
            Ghost(n)
        },
        Query::HasAttr { key, op, value } => {
            out.push_str("HasAttr(key=");
            push_dec(out, key.raw() as u64);
            out.push_str(", op=");
            out.push_str(op_str(*op));
            out.push_str(", value=");
            let f = push_value(out, value, write_float);
            out.push_str(")\n");
            let ghost n = NamedQuery::HasAttr(*key, Seq::empty(), *op, value@, f@);
            proof {
                assert(out@ =~= start + plan_text(n, depth as nat));
            }
            Ghost(n)
        },
        Query::Related { predicate, target } => {
            out.push_str("Related(predicate=");
            push_dec(out, predicate.raw() as u64);
            out.push_str(", target=");
            out.push_str("obj:");
            push_hex(out, target.node_id() as u64);
            out.push_str(":");
            push_dec(out, target.local_seq());
            out.push_str(")\n");
            let ghost n = NamedQuery::Related(*predicate, Seq::empty(), *target);
            proof {
                assert(out@ =~= start + plan_text(n, depth as nat));
            }
            Ghost(n)
        },
        Query::And(qs) => {
            out.push_str("And [");
            push_dec(out, qs.len() as u64);
            out.push_str(" children]\n");
            let v = explain_list(out, qs, depth + 1, write_float);
            let ghost n = NamedQuery::And(v@);
            proof {
                assert(out@ =~= start + plan_text(n, depth as nat));
            }
            Ghost(n)
        },
        Query::Or(qs) => {
            out.push_str("Or [");
            push_dec(out, qs.len() as u64);
            out.push_str(" children]\n");
            let v = explain_list(out, qs, depth + 1, write_float);
            let ghost n = NamedQuery::Or(v@);
            proof {
                assert(out@ =~= start + plan_text(n, depth as nat));
            }
            Ghost(n)
        },
        Query::Not(q) => {
            out.push_str("Not\n");
            let inner = explain_at(out, q, depth + 1, write_float);
            let ghost n = NamedQuery::Not(Box::new(inner@));
            proof {
                assert(out@ =~= start + plan_text(n, depth as nat));
            }
            Ghost(n)
        },
    }
}

/// The plan of a query: one line for each part, indented by its depth.
/// `write_float` gives the text of a floating-point number from its bits.
pub fn explain<G: Fn(u64) -> String>(query: &Query, write_float: G) -> (r: String)
    requires
        forall|b: u64| write_float.requires((b,)),
        height(*query) <= u64::MAX,
    ensures
        exists|n: NamedQuery|
            {
                &&& #[trigger] floats_by(write_float, n)
                &&& plain(n) == query@
                &&& r@ == plan_text(n, 0)
            },
{
    let mut out = String::new();
    let n = explain_at(&mut out, query, 0, &write_float);
    proof {
        assert(out@ =~= plan_text(n@, 0));
        assert(floats_by(write_float, n@));
    }
    out
}

} // verus!

//! The text form of queries, as nested lists:
//!
//! ```text
//!   query   = "(" "tag" name ")"
//!           | "(" "isa" name ")"
//!           | "(" "attr" name comparison value ")"
//!           | "(" "related" name object ")"
//!           | "(" "and" query* ")"
//!           | "(" "or" query* ")"
//!           | "(" "not" query ")"
//!   comparison = "=" | "!=" | "<" | "<=" | ">" | ">=" | "prefix" | "contains"
//!   value   = text in quotes | integer | float | "@" number | word
//!   name    = word | "@" number
//!   object  = "obj:" hexadecimal ":" decimal
//! ```

use vstd::prelude::*;
use vstd::utf8::encode_utf8;
use crate::query::error::{QueryError, QueryFault};
use crate::query::lexer::{chars_of, lexed, signed_literal, signed_number, token_models,
    token_text, tokenize, PlacedModel, Token, TokenModel};
use crate::text::same_text;
use crate::types::id::{ObjectId, TagId};
use crate::types::query::{query_model, query_models, CmpOp, Query, QueryModel};
use crate::types::value::{Value, ValueModel};

verus! {

/// What the resolver of names and the reader of floating-point numbers said
/// about the tokens that they were asked about.
pub ghost struct Answers {
    /// The tag that the name at a position stands for.
    pub names: Map<int, Option<TagId>>,
    /// The bits of the number that the word at a position writes.
    pub floats: Map<int, Option<u64>>,
}

impl Answers {
    /// Every answer is also one of `other`.
    pub open spec fn within(self, other: Answers) -> bool {
        self.names.submap_of(other.names) && self.floats.submap_of(other.floats)
    }
}

/// What parsing from a position gives.
pub ghost enum Parsed<T> {
    /// A part, and the position behind it.
    Done(T, int),
    Failed(QueryFault),
    /// An answer that is needed is not there.
    Unanswered,
}

/// The tokens of a text, and where the text ends.
pub ghost struct TokenRow {
    /// The tokens, each with the byte offset at which it starts.
    pub placed: Seq<PlacedModel>,
    /// The length of the text in bytes.
    pub end: nat,
}

impl TokenRow {
    /// The number of tokens.
    pub open spec fn len(self) -> nat {
        self.placed.len()
    }

    /// The token at a position.
    pub open spec fn spec_index(self, pos: int) -> TokenModel {
        self.placed[pos].1
    }

    /// The byte offset of the token at a position, or of the end of the text
    /// where there is none.
    pub open spec fn offset(self, pos: int) -> nat {
        if 0 <= pos < self.len() {
            self.placed[pos].0
        } else {
            self.end
        }
    }
}

/// The row of the tokens `placed` of the text `s`.
pub open spec fn row_of(s: Seq<char>, placed: Seq<PlacedModel>) -> TokenRow {
    TokenRow { placed, end: encode_utf8(s).len() }
}

/// The fault that what stands at `pos` is not `wanted`.
pub open spec fn unexpected(tokens: TokenRow, pos: int, wanted: Seq<char>) -> QueryFault {
    QueryFault::Parse(
        tokens.offset(pos),
        "expected "@ + wanted + ", got "@ + if 0 <= pos < tokens.len() {
            token_text(tokens[pos])
        } else {
            "EOF"@
        },
    )
}

/// A parenthesis at `pos`.
pub open spec fn expected(tokens: TokenRow, pos: int, want: TokenModel) -> Parsed<()> {
    if 0 <= pos < tokens.len() && tokens[pos] == want {
        Parsed::Done((), pos + 1)
    } else {
        Parsed::Failed(unexpected(tokens, pos, token_text(want)))
    }
}

/// A tag at `pos`.
pub open spec fn parsed_tag(tokens: TokenRow, pos: int, answers: Answers) -> Parsed<TagId> {
    if 0 <= pos < tokens.len() {
        match tokens[pos] {
            TokenModel::Word(w) => if !answers.names.contains_key(pos) {
                Parsed::Unanswered
            } else {
                match answers.names[pos] {
                    Some(t) => Parsed::Done(t, pos + 1),
                    None => Parsed::Failed(QueryFault::UnknownTag(w)),
                }
            },
            TokenModel::AtId(n) => Parsed::Done(TagId { id: n }, pos + 1),
            _ => Parsed::Failed(unexpected(tokens, pos, "tag name"@)),
        }
    } else {
        Parsed::Failed(unexpected(tokens, pos, "tag name"@))
    }
}

/// The comparison that a word names.
pub open spec fn comparison(w: Seq<char>) -> Option<CmpOp> {
    if w == "="@ {
        Some(CmpOp::Eq)
    } else if w == "!="@ {
        Some(CmpOp::Ne)
    } else if w == "<"@ {
        Some(CmpOp::Lt)
    } else if w == "<="@ {
        Some(CmpOp::Le)
    } else if w == ">"@ {
        Some(CmpOp::Gt)
    } else if w == ">="@ {
        Some(CmpOp::Ge)
    } else if w == "prefix"@ {
        Some(CmpOp::Prefix)
    } else if w == "contains"@ {
        Some(CmpOp::Contains)
    } else {
        None
    }
}

/// A comparison at `pos`.
pub open spec fn parsed_op(tokens: TokenRow, pos: int) -> Parsed<CmpOp> {
    if 0 <= pos < tokens.len() {
        match tokens[pos] {
            TokenModel::Word(w) => match comparison(w) {
                Some(op) => Parsed::Done(op, pos + 1),
                None => Parsed::Failed(QueryFault::UnknownOp(w)),
            },
            _ => Parsed::Failed(unexpected(tokens, pos, "operator"@)),
        }
    } else {
        Parsed::Failed(unexpected(tokens, pos, "operator"@))
    }
}

/// A value at `pos`. A word is an integer where it can be, else a
/// floating-point number, else text.
pub open spec fn parsed_value(tokens: TokenRow, pos: int, answers: Answers) -> Parsed<
    ValueModel,
> {
    if 0 <= pos < tokens.len() {
        match tokens[pos] {
            TokenModel::Str(s) => Parsed::Done(ValueModel::Text(s), pos + 1),
            TokenModel::AtId(n) => Parsed::Done(ValueModel::Int(n as int), pos + 1),
            TokenModel::Word(w) => match signed_literal(w) {
                Some(i) => Parsed::Done(ValueModel::Int(i), pos + 1),
                None => if !answers.floats.contains_key(pos) {
                    Parsed::Unanswered
                } else {
                    match answers.floats[pos] {
                        Some(bits) => Parsed::Done(ValueModel::Float(bits), pos + 1),
                        None => Parsed::Done(ValueModel::Text(w), pos + 1),
                    }
                },
            },
            _ => Parsed::Failed(unexpected(tokens, pos, "value"@)),
        }
    } else {
        Parsed::Failed(unexpected(tokens, pos, "value"@))
    }
}

/// An object at `pos`.
pub open spec fn parsed_object(tokens: TokenRow, pos: int) -> Parsed<ObjectId> {
    if 0 <= pos < tokens.len() {
        match tokens[pos] {
            TokenModel::ObjId(o) => Parsed::Done(o, pos + 1),
            _ => Parsed::Failed(unexpected(tokens, pos, "ObjectId"@)),
        }
    } else {
        Parsed::Failed(
            QueryFault::Parse(tokens.offset(pos), "expected ObjectId after `related <pred>`"@),
        )
    }
}

/// `q` and the closing parenthesis at `pos`.
pub open spec fn closed(tokens: TokenRow, q: QueryModel, pos: int) -> Parsed<QueryModel> {
    match expected(tokens, pos, TokenModel::RParen) {
        Parsed::Done(_, p) => Parsed::Done(q, p),
        Parsed::Failed(f) => Parsed::Failed(f),
        Parsed::Unanswered => Parsed::Unanswered,
    }
}

/// A query at `pos`.
pub open spec fn parsed_atom(tokens: TokenRow, pos: int, answers: Answers) -> Parsed<
    QueryModel,
>
    decreases tokens.len() - pos, 0int,
{
    if pos < 0 || pos >= tokens.len() || tokens[pos] != TokenModel::LParen {
        Parsed::Failed(unexpected(tokens, pos, token_text(TokenModel::LParen)))
    } else if pos + 1 >= tokens.len() {
        Parsed::Failed(
            QueryFault::Parse(tokens.offset(pos + 1), "expected operator after `(`"@),
        )
    } else {
        match tokens[pos + 1] {
            TokenModel::Word(head) => parsed_body(tokens, head, pos + 2, answers),
            _ => Parsed::Failed(unexpected(tokens, pos + 1, "operator name"@)),
        }
    }
}

/// What follows the operator `head`, at `pos`.
pub open spec fn parsed_body(
    tokens: TokenRow,
    head: Seq<char>,
    pos: int,
    answers: Answers,
) -> Parsed<QueryModel>
    decreases tokens.len() - pos, 2int,
{
    if head == "tag"@ || head == "isa"@ {
        match parsed_tag(tokens, pos, answers) {
            Parsed::Done(t, p) => closed(
                tokens,
                if head == "tag"@ {
                    QueryModel::HasTag(t)
                } else {
                    QueryModel::IsA(t)
                },
                p,
            ),
            Parsed::Failed(f) => Parsed::Failed(f),
            Parsed::Unanswered => Parsed::Unanswered,
        }
    } else if head == "attr"@ {
        match parsed_tag(tokens, pos, answers) {
            Parsed::Done(key, p) => match parsed_op(tokens, p) {
                Parsed::Done(op, o) => match parsed_value(tokens, o, answers) {
                    Parsed::Done(v, e) => closed(tokens, QueryModel::HasAttr(key, op, v), e),
                    Parsed::Failed(f) => Parsed::Failed(f),
                    Parsed::Unanswered => Parsed::Unanswered,
                },
                Parsed::Failed(f) => Parsed::Failed(f),
                Parsed::Unanswered => Parsed::Unanswered,
            },
            Parsed::Failed(f) => Parsed::Failed(f),
            Parsed::Unanswered => Parsed::Unanswered,
        }
    } else if head == "related"@ {
        match parsed_tag(tokens, pos, answers) {
            Parsed::Done(t, p) => match parsed_object(tokens, p) {
                Parsed::Done(o, e) => closed(tokens, QueryModel::Related(t, o), e),
                Parsed::Failed(f) => Parsed::Failed(f),
                Parsed::Unanswered => Parsed::Unanswered,
            },
            Parsed::Failed(f) => Parsed::Failed(f),
            Parsed::Unanswered => Parsed::Unanswered,
        }
    } else if head == "and"@ || head == "or"@ {
        match parsed_list(tokens, pos, answers) {
            Parsed::Done(qs, p) => closed(
                tokens,
                if head == "and"@ {
                    QueryModel::And(qs)
                } else {
                    QueryModel::Or(qs)
                },
                p,
            ),
            Parsed::Failed(f) => Parsed::Failed(f),
            Parsed::Unanswered => Parsed::Unanswered,
        }
    } else if head == "not"@ {
        match parsed_atom(tokens, pos, answers) {
            Parsed::Done(q, p) => closed(tokens, QueryModel::Not(Box::new(q)), p),
            Parsed::Failed(f) => Parsed::Failed(f),
            Parsed::Unanswered => Parsed::Unanswered,
        }
    } else {
        Parsed::Failed(QueryFault::UnknownOp(head))
    }
}

/// The queries from `pos` up to a closing parenthesis or the end.
pub open spec fn parsed_list(tokens: TokenRow, pos: int, answers: Answers) -> Parsed<
    Seq<QueryModel>,
>
    decreases tokens.len() - pos, 1int,
{
    if pos < 0 || pos >= tokens.len() || tokens[pos] == TokenModel::RParen {
        Parsed::Done(Seq::empty(), pos)
    } else {
        match parsed_atom(tokens, pos, answers) {
            Parsed::Done(q, p) => if p <= pos || p > tokens.len() {
                Parsed::Unanswered
            } else {
                in_front(q, parsed_list(tokens, p, answers))
            },
            Parsed::Failed(f) => Parsed::Failed(f),
            Parsed::Unanswered => Parsed::Unanswered,
        }
    }
}

/// `q` in front of the other queries.
pub open spec fn in_front(q: QueryModel, rest: Parsed<Seq<QueryModel>>) -> Parsed<
    Seq<QueryModel>,
> {
    match rest {
        Parsed::Done(qs, p) => Parsed::Done(seq![q] + qs, p),
        Parsed::Failed(f) => Parsed::Failed(f),
        Parsed::Unanswered => Parsed::Unanswered,
    }
}

/// The query that tokens make up.
pub open spec fn parsed_query(tokens: TokenRow, answers: Answers) -> Parsed<QueryModel> {
    match parsed_atom(tokens, 0, answers) {
        Parsed::Done(q, p) => if p < tokens.len() {
            Parsed::Failed(
                QueryFault::Parse(
                    tokens.offset(p),
                    "trailing token: "@ + token_text(tokens[p]),
                ),
            )
        } else {
            Parsed::Done(q, p)
        },
        other => other,
    }
}

/// The answers were given by `resolver` and `read_float` about words of `tokens`.
pub open spec fn answered<F: Fn(&str) -> Option<TagId>, G: Fn(&str) -> Option<u64>>(
    resolver: F,
    read_float: G,
    tokens: TokenRow,
    answers: Answers,
) -> bool {
    &&& forall|p: int| #[trigger]
        answers.names.contains_key(p) ==> 0 <= p < tokens.len() && tokens[p] is Word && exists|
            s: &str,
        |
            s@ == tokens[p]->Word_0 && #[trigger] resolver.ensures((s,), answers.names[p])
    &&& forall|p: int| #[trigger]
        answers.floats.contains_key(p) ==> 0 <= p < tokens.len() && tokens[p] is Word && exists|
            s: &str,
        |
            s@ == tokens[p]->Word_0 && #[trigger] read_float.ensures((s,), answers.floats[p])
}

/// `r` reports what parsing gave.
pub open spec fn query_reports(r: Result<Query, QueryError>, p: Parsed<QueryModel>) -> bool {
    match p {
        Parsed::Done(q, _) => r is Ok && r->Ok_0@ == q,
        Parsed::Failed(f) => r is Err && r->Err_0@ == f,
        Parsed::Unanswered => false,
    }
}

/// `r` is what reading `input` as a query gives, with some answers of
/// `resolver` and `read_float`.
pub open spec fn reads<F: Fn(&str) -> Option<TagId>, G: Fn(&str) -> Option<u64>>(
    input: Seq<char>,
    resolver: F,
    read_float: G,
    r: Result<Query, QueryError>,
) -> bool {
    match lexed(input, 0) {
        Ok(placed) => exists|answers: Answers|
            #[trigger] answered(resolver, read_float, row_of(input, placed), answers)
                && query_reports(r, parsed_query(row_of(input, placed), answers)),
        Err(f) => r is Err && r->Err_0@ == f,
    }
}

/// Where the parser stands, and what it was told.
struct Cursor<'a> {
    tokens: &'a Vec<(usize, Token)>,
    /// The length of the text in bytes.
    end: usize,
    pos: usize,
    answers: Ghost<Answers>,
}

impl<'a> Cursor<'a> {
    spec fn models(&self) -> TokenRow {
        TokenRow { placed: token_models(self.tokens@), end: self.end as nat }
    }

    spec fn wf(&self) -> bool {
        self.pos <= self.tokens@.len()
    }

    /// The cursor went on from `old`: no answer was taken back.
    spec fn follows(&self, old: Cursor<'a>) -> bool {
        &&& self.tokens == old.tokens
        &&& self.end == old.end
        &&& self.wf()
        &&& old.pos <= self.pos
        &&& old.answers@.within(self.answers@)
        &&& forall|p: int|
            #![trigger self.answers@.names.contains_key(p)]
            #![trigger self.answers@.floats.contains_key(p)]
            {
                &&& self.answers@.names.contains_key(p) && !old.answers@.names.contains_key(p)
                    ==> old.pos <= p
                &&& self.answers@.floats.contains_key(p) && !old.answers@.floats.contains_key(p)
                    ==> old.pos <= p
            }
    }

    /// No answer lies ahead.
    spec fn fresh(&self) -> bool {
        forall|p: int|
            #![trigger self.answers@.names.contains_key(p)]
            #![trigger self.answers@.floats.contains_key(p)]
            (self.answers@.names.contains_key(p) || self.answers@.floats.contains_key(p)) ==> p
                < self.pos
    }

    /// The next token, if there is one; the cursor moves behind it.
    fn bump(&mut self) -> (r: Option<&'a Token>)
        requires
            old(self).wf(),
            old(self).fresh(),
        ensures
            final(self).follows(*old(self)),
            final(self).fresh(),
            final(self).answers == old(self).answers,
            match r {
                Some(t) => {
                    &&& old(self).pos < old(self).tokens@.len()
                    &&& final(self).pos == old(self).pos + 1
                    &&& t@ == old(self).models()[old(self).pos as int]
                    &&& *t == old(self).tokens@[old(self).pos as int].1
                },
                None => old(self).pos == old(self).tokens@.len() && final(self).pos == old(
                    self,
                ).pos,
            },
    {
        if self.pos < self.tokens.len() {
            let t = &self.tokens[self.pos].1;
            self.pos = self.pos + 1;
            Some(t)
        } else {
            None
        }
    }

    /// The byte offset of the next token, or of the end of the text.
    fn offset(&self) -> (r: usize)
        requires
            self.wf(),
        ensures
            r == self.models().offset(self.pos as int),
    {
        if self.pos < self.tokens.len() {
            self.tokens[self.pos].0
        } else {
            self.end
        }
    }

    /// Whether a closing parenthesis or the end comes next.
    fn at_end(&self) -> (r: bool)
        requires
            self.wf(),
        ensures
            r == (self.pos >= self.tokens@.len() || self.models()[self.pos as int]
                == TokenModel::RParen),
    {
        if self.pos >= self.tokens.len() {
            true
        } else {
            match &self.tokens[self.pos].1 {
                Token::RParen => true,
                _ => false,
            }
        }
    }
}

/// The fault that `got`, at the byte offset `at`, is not `wanted`.
fn unexpected_token(wanted: &str, got: Option<&Token>, at: usize) -> (r: QueryError)
    ensures
        r@ == QueryFault::Parse(
            at as nat,
            "expected "@ + wanted@ + ", got "@ + match got {
                Some(t) => token_text(t@),
                None => "EOF"@,
            },
        ),
{
    let mut m = String::new();
    m.push_str("expected ");
    m.push_str(wanted);
    m.push_str(", got ");
    let ghost head = m@;
    match got {
        Some(t) => {
            t.show(&mut m);
        },
        None => {
            m.push_str("EOF");
        },
    }
    proof {
        assert(head =~= "expected "@ + wanted@ + ", got "@);
    }
    QueryError::Parse { position: at, message: m }
}

fn own_text(m: &str) -> (r: String)
    ensures
        r@ == m@,
{
    let mut out = String::new();
    out.push_str(m);
    proof {
        assert(out@ =~= m@);
    }
    out
}

fn expect_open(cursor: &mut Cursor<'_>) -> (r: Result<(), QueryError>)
    requires
        old(cursor).wf(),
        old(cursor).fresh(),
    ensures
        final(cursor).follows(*old(cursor)),
        final(cursor).fresh(),
        final(cursor).answers == old(cursor).answers,
        match expected(old(cursor).models(), old(cursor).pos as int, TokenModel::LParen) {
            Parsed::Done(_, p) => r is Ok && final(cursor).pos == p,
            Parsed::Failed(f) => r is Err && r->Err_0@ == f,
            Parsed::Unanswered => false,
        },
{
    let offset = cursor.offset();
    match cursor.bump() {
        Some(t) => match t {
            Token::LParen => Ok(()),
            other => Err(unexpected_token("LParen", Some(other), offset)),
        },
        None => Err(unexpected_token("LParen", None, offset)),
    }
}

fn expect_close(cursor: &mut Cursor<'_>) -> (r: Result<(), QueryError>)
    requires
        old(cursor).wf(),
        old(cursor).fresh(),
    ensures
        final(cursor).follows(*old(cursor)),
        final(cursor).fresh(),
        final(cursor).answers == old(cursor).answers,
        match expected(old(cursor).models(), old(cursor).pos as int, TokenModel::RParen) {
            Parsed::Done(_, p) => r is Ok && final(cursor).pos == p,
            Parsed::Failed(f) => r is Err && r->Err_0@ == f,
            Parsed::Unanswered => false,
        },
{
    let offset = cursor.offset();
    match cursor.bump() {
        Some(t) => match t {
            Token::RParen => Ok(()),
            other => Err(unexpected_token("RParen", Some(other), offset)),
        },
        None => Err(unexpected_token("RParen", None, offset)),
    }
}

fn parse_name_as_tag<F: Fn(&str) -> Option<TagId>, G: Fn(&str) -> Option<u64>>(
    cursor: &mut Cursor<'_>,
    resolver: &F,
    read_float: &G,
) -> (r: Result<TagId, QueryError>)
    requires
        old(cursor).wf(),
        old(cursor).fresh(),
        forall|s: &str| resolver.requires((s,)),
        answered(*resolver, *read_float, old(cursor).models(), old(cursor).answers@),
    ensures
        final(cursor).follows(*old(cursor)),
        final(cursor).fresh(),
        answered(*resolver, *read_float, final(cursor).models(), final(cursor).answers@),
        forall|more: Answers| #[trigger]
            final(cursor).answers@.within(more) ==> match parsed_tag(
                old(cursor).models(),
                old(cursor).pos as int,
                more,
            ) {
                Parsed::Done(t, p) => r is Ok && r->Ok_0 == t && p == final(cursor).pos,
                Parsed::Failed(f) => r is Err && r->Err_0@ == f,
                Parsed::Unanswered => false,
            },
{
    let offset = cursor.offset();
    let ghost at = cursor.pos;
    let ghost tokens = cursor.models();
    let ghost before = cursor.answers@;
    match cursor.bump() {
        Some(t) => match t {
            Token::Word(w) => {
                let text: &str = w.as_str();
                let answer = resolver(text);
                proof {
                    let next = Answers {
                        names: before.names.insert(at as int, answer),
                        floats: before.floats,
                    };
                    cursor.answers = Ghost(next);
                    assert(!before.names.contains_key(at as int));
                    assert(before.within(next));
                    assert(answered(*resolver, *read_float, tokens, next)) by {
                        assert forall|p: int| #[trigger] next.names.contains_key(p) implies 0 <= p
                            < tokens.len() && tokens[p] is Word && exists|s: &str|
                            s@ == tokens[p]->Word_0 && #[trigger] resolver.ensures(
                                (s,),
                                next.names[p],
                            ) by {
                            if p == at {
                                assert(resolver.ensures((text,), next.names[p]));
                            } else {
                                assert(before.names.contains_key(p));
                            }
                        }
                        assert forall|p: int| #[trigger] next.floats.contains_key(p) implies 0 <= p
                            < tokens.len() && tokens[p] is Word && exists|s: &str|
                            s@ == tokens[p]->Word_0 && #[trigger] read_float.ensures(
                                (s,),
                                next.floats[p],
                            ) by {
                            assert(before.floats.contains_key(p));
                        }
                    }
                    assert forall|more: Answers| #[trigger] next.within(more) implies more.names.contains_key(
                        at as int,
                    ) && more.names[at as int] == answer by {
                        assert(next.names.contains_key(at as int));
                    }
                }
                match answer {
                    Some(t) => Ok(t),
                    None => Err(QueryError::UnknownTag { name: own_text(text) }),
                }
            },
            Token::AtId(raw) => Ok(TagId::new(*raw)),
            other => Err(unexpected_token("tag name", Some(other), offset)),
        },
        None => Err(unexpected_token("tag name", None, offset)),
    }
}

fn parse_op(cursor: &mut Cursor<'_>) -> (r: Result<CmpOp, QueryError>)
    requires
        old(cursor).wf(),
        old(cursor).fresh(),
    ensures
        final(cursor).follows(*old(cursor)),
        final(cursor).fresh(),
        final(cursor).answers == old(cursor).answers,
        match parsed_op(old(cursor).models(), old(cursor).pos as int) {
            Parsed::Done(op, p) => r is Ok && r->Ok_0 == op && p == final(cursor).pos,
            Parsed::Failed(f) => r is Err && r->Err_0@ == f,
            Parsed::Unanswered => false,
        },
{
    let offset = cursor.offset();
    match cursor.bump() {
        Some(t) => match t {
            Token::Word(w) => {
                let s = w.as_str();
                if same_text(s, "=") {
                    Ok(CmpOp::Eq)
                } else if same_text(s, "!=") {
                    Ok(CmpOp::Ne)
                } else if same_text(s, "<") {
                    Ok(CmpOp::Lt)
                } else if same_text(s, "<=") {
                    Ok(CmpOp::Le)
                } else if same_text(s, ">") {
                    Ok(CmpOp::Gt)
                } else if same_text(s, ">=") {
                    Ok(CmpOp::Ge)
                } else if same_text(s, "prefix") {
                    Ok(CmpOp::Prefix)
                } else if same_text(s, "contains") {
                    Ok(CmpOp::Contains)
                } else {
                    Err(QueryError::UnknownOp { op: own_text(s) })
                }
            },
            other => Err(unexpected_token("operator", Some(other), offset)),
        },
        None => Err(unexpected_token("operator", None, offset)),
    }
}

fn parse_object(cursor: &mut Cursor<'_>) -> (r: Result<ObjectId, QueryError>)
    requires
        old(cursor).wf(),
        old(cursor).fresh(),
    ensures
        final(cursor).follows(*old(cursor)),
        final(cursor).fresh(),
        final(cursor).answers == old(cursor).answers,
        match parsed_object(old(cursor).models(), old(cursor).pos as int) {
            Parsed::Done(o, p) => r is Ok && r->Ok_0 == o && p == final(cursor).pos,
            Parsed::Failed(f) => r is Err && r->Err_0@ == f,
            Parsed::Unanswered => false,
        },
{
    let offset = cursor.offset();
    match cursor.bump() {
        Some(t) => match t {
            Token::ObjId(o) => Ok(*o),
            other => Err(unexpected_token("ObjectId", Some(other), offset)),
        },
        None => Err(
            QueryError::Parse {
                position: offset,
                message: own_text("expected ObjectId after `related <pred>`"),
            },
        ),
    }
}

fn parse_value<F: Fn(&str) -> Option<TagId>, G: Fn(&str) -> Option<u64>>(
    cursor: &mut Cursor<'_>,
    resolver: &F,
    read_float: &G,
) -> (r: Result<Value, QueryError>)
    requires
        old(cursor).wf(),
        old(cursor).fresh(),
        forall|s: &str| read_float.requires((s,)),
        answered(*resolver, *read_float, old(cursor).models(), old(cursor).answers@),
    ensures
        final(cursor).follows(*old(cursor)),
        final(cursor).fresh(),
        answered(*resolver, *read_float, final(cursor).models(), final(cursor).answers@),
        forall|more: Answers| #[trigger]
            final(cursor).answers@.within(more) ==> match parsed_value(
                old(cursor).models(),
                old(cursor).pos as int,
                more,
            ) {
                Parsed::Done(v, p) => r is Ok && r->Ok_0@ == v && p == final(cursor).pos,
                Parsed::Failed(f) => r is Err && r->Err_0@ == f,
                Parsed::Unanswered => false,
            },
{
    let offset = cursor.offset();
    let ghost at = cursor.pos;
    let ghost tokens = cursor.models();
    let ghost before = cursor.answers@;
    match cursor.bump() {
        Some(t) => match t {
            Token::Str(s) => Ok(Value::Text(own_text(s.as_str()))),
            Token::AtId(raw) => Ok(Value::Int(*raw as i64)),
            Token::Word(w) => {
                let text: &str = w.as_str();
                let chars = chars_of(text);
                match signed_number(&chars) {
                    Some(i) => Ok(Value::Int(i)),
                    None => {
                        let answer = read_float(text);
                        proof {
                            let next = Answers {
                                names: before.names,
                                floats: before.floats.insert(at as int, answer),
                            };
                            cursor.answers = Ghost(next);
                            assert(!before.floats.contains_key(at as int));
                            assert(before.within(next));
                            assert(answered(*resolver, *read_float, tokens, next)) by {
                                assert forall|p: int| #[trigger]
                                    next.floats.contains_key(p) implies 0 <= p < tokens.len()
                                    && tokens[p] is Word && exists|s: &str|
                                    s@ == tokens[p]->Word_0 && #[trigger] read_float.ensures(
                                        (s,),
                                        next.floats[p],
                                    ) by {
                                    if p == at {
                                        assert(read_float.ensures((text,), next.floats[p]));
                                    } else {
                                        assert(before.floats.contains_key(p));
                                    }
                                }
                                assert forall|p: int| #[trigger]
                                    next.names.contains_key(p) implies 0 <= p < tokens.len()
                                    && tokens[p] is Word && exists|s: &str|
                                    s@ == tokens[p]->Word_0 && #[trigger] resolver.ensures(
                                        (s,),
                                        next.names[p],
                                    ) by {
                                    assert(before.names.contains_key(p));
                                }
                            }
                            assert forall|more: Answers| #[trigger]
                                next.within(more) implies more.floats.contains_key(at as int)
                                && more.floats[at as int] == answer by {
                                assert(next.floats.contains_key(at as int));
                            }
                        }
                        match answer {
                            Some(bits) => Ok(Value::Float(bits)),
                            None => Ok(Value::Text(own_text(text))),
                        }
                    },
                }
            },
            other => Err(unexpected_token("value", Some(other), offset)),
        },
        None => Err(unexpected_token("value", None, offset)),
    }
}

/// `r` is what parsing gave, and where it ended.
spec fn atom_reports(r: Result<Query, QueryError>, end: int, p: Parsed<QueryModel>) -> bool {
    match p {
        Parsed::Done(q, e) => r is Ok && r->Ok_0@ == q && e == end,
        Parsed::Failed(f) => r is Err && r->Err_0@ == f,
        Parsed::Unanswered => false,
    }
}

fn parse_atom<F: Fn(&str) -> Option<TagId>, G: Fn(&str) -> Option<u64>>(
    cursor: &mut Cursor<'_>,
    resolver: &F,
    read_float: &G,
) -> (r: Result<Query, QueryError>)
    requires
        old(cursor).wf(),
        old(cursor).fresh(),
        forall|s: &str| resolver.requires((s,)),
        forall|s: &str| read_float.requires((s,)),
        answered(*resolver, *read_float, old(cursor).models(), old(cursor).answers@),
    ensures
        final(cursor).follows(*old(cursor)),
        final(cursor).fresh(),
        r is Ok ==> final(cursor).pos > old(cursor).pos,
        answered(*resolver, *read_float, final(cursor).models(), final(cursor).answers@),
        forall|more: Answers| #[trigger]
            final(cursor).answers@.within(more) ==> atom_reports(
                r,
                final(cursor).pos as int,
                parsed_atom(old(cursor).models(), old(cursor).pos as int, more),
            ),
    decreases old(cursor).tokens@.len() - old(cursor).pos, 0int,
{
    match expect_open(cursor) {
        Ok(_) => {},
        Err(e) => {
            return Err(e);
        },
    }
    let head_at = cursor.offset();
    match cursor.bump() {
        Some(t) => match t {
            Token::Word(w) => parse_body(cursor, w.as_str(), resolver, read_float),
            other => Err(unexpected_token("operator name", Some(other), head_at)),
        },
        None => Err(
            QueryError::Parse {
                position: head_at,
                message: own_text("expected operator after `(`"),
            },
        ),
    }
}

fn parse_body<F: Fn(&str) -> Option<TagId>, G: Fn(&str) -> Option<u64>>(
    cursor: &mut Cursor<'_>,
    head: &str,
    resolver: &F,
    read_float: &G,
) -> (r: Result<Query, QueryError>)
    requires
        old(cursor).wf(),
        old(cursor).fresh(),
        forall|s: &str| resolver.requires((s,)),
        forall|s: &str| read_float.requires((s,)),
        answered(*resolver, *read_float, old(cursor).models(), old(cursor).answers@),
    ensures
        final(cursor).follows(*old(cursor)),
        final(cursor).fresh(),
        answered(*resolver, *read_float, final(cursor).models(), final(cursor).answers@),
        forall|more: Answers| #[trigger]
            final(cursor).answers@.within(more) ==> atom_reports(
                r,
                final(cursor).pos as int,
                parsed_body(old(cursor).models(), head@, old(cursor).pos as int, more),
            ),
    decreases old(cursor).tokens@.len() - old(cursor).pos, 2int,
{
    let q: Query;
    let ghost start = *cursor;
    let is_tag = same_text(head, "tag");
    let is_and = same_text(head, "and");
    if is_tag || same_text(head, "isa") {
        match parse_name_as_tag(cursor, resolver, read_float) {
            Ok(t) => {
                if is_tag {
                    q = Query::HasTag(t);
                } else {
                    q = Query::IsA(t);
                }
            },
            Err(e) => {
                return Err(e);
            },
        }
    } else if same_text(head, "attr") {
        let key = match parse_name_as_tag(cursor, resolver, read_float) {
            Ok(t) => t,
            Err(e) => {
                return Err(e);
            },
        };
        let ghost c1 = *cursor;
        let op = match parse_op(cursor) {
            Ok(op) => op,
            Err(e) => {
                return Err(e);
            },
        };
        let ghost c2 = *cursor;
        let value = match parse_value(cursor, resolver, read_float) {
            Ok(v) => v,
            Err(e) => {
                proof {
                    lemma_within_follows(c1.answers@, cursor.answers@);
                    lemma_follows(c1, c2, *cursor);
                    lemma_follows(start, c1, *cursor);
                }
                return Err(e);
            },
        };
        proof {
            lemma_within_follows(c1.answers@, cursor.answers@);
            lemma_follows(c1, c2, *cursor);
            lemma_follows(start, c1, *cursor);
        }
        q = Query::HasAttr { key, op, value };
    } else if same_text(head, "related") {
        let predicate = match parse_name_as_tag(cursor, resolver, read_float) {
            Ok(t) => t,
            Err(e) => {
                return Err(e);
            },
        };
        let target = match parse_object(cursor) {
            Ok(o) => o,
            Err(e) => {
                return Err(e);
            },
        };
        q = Query::Related { predicate, target };
    } else if is_and || same_text(head, "or") {
        let children = match parse_list(cursor, resolver, read_float) {
            Ok(c) => c,
            Err(e) => {
                return Err(e);
            },
        };
        if is_and {
            q = Query::And(children);
        } else {
            q = Query::Or(children);
        }
    } else if same_text(head, "not") {
        match parse_atom(cursor, resolver, read_float) {
            Ok(inner) => {
                q = Query::Not(Box::new(inner));
            },
            Err(e) => {
                return Err(e);
            },
        }
    } else {
        return Err(QueryError::UnknownOp { op: own_text(head) });
    }
    let ghost mid = *cursor;
    let last = expect_close(cursor);
    proof {
        lemma_follows(start, mid, *cursor);
    }
    match last {
        Ok(_) => Ok(q),
        Err(e) => Err(e),
    }
}

/// Answers that are kept are kept in what comes later.
proof fn lemma_within_follows(a: Answers, b: Answers)
    requires
        a.within(b),
    ensures
        forall|more: Answers| #[trigger] b.within(more) ==> a.within(more),
{
    assert forall|more: Answers| #[trigger] b.within(more) implies a.within(more) by {
        assert forall|p: int| #[trigger] a.names.dom().contains(p) implies more.names.dom().contains(
            p,
        ) && a.names[p] == more.names[p] by {
            assert(b.names.dom().contains(p));
            assert(more.names.dom().contains(p));
        }
        assert forall|p: int| #[trigger] a.floats.dom().contains(p) implies more.floats.dom().contains(
            p,
        ) && a.floats[p] == more.floats[p] by {
            assert(b.floats.dom().contains(p));
            assert(more.floats.dom().contains(p));
        }
    }
}

/// A cursor that went on twice went on.
proof fn lemma_follows<'a>(a: Cursor<'a>, b: Cursor<'a>, c: Cursor<'a>)
    requires
        b.follows(a),
        c.follows(b),
    ensures
        c.follows(a),
{
    lemma_within_follows(a.answers@, b.answers@);
    assert forall|p: int|
        #![trigger c.answers@.names.contains_key(p)]
        #![trigger c.answers@.floats.contains_key(p)]
        {
            &&& c.answers@.names.contains_key(p) && !a.answers@.names.contains_key(p) ==> a.pos
                <= p
            &&& c.answers@.floats.contains_key(p) && !a.answers@.floats.contains_key(p) ==> a.pos
                <= p
        } by {
        if b.answers@.names.contains_key(p) {
        }
        if b.answers@.floats.contains_key(p) {
        }
    }
}

/// The contents of some queries, one after the other.
spec fn models_of(v: Seq<Query>) -> Seq<QueryModel> {
    v.map_values(|q: Query| query_model(q))
}

proof fn lemma_models(v: Vec<Query>, k: int)
    requires
        0 <= k <= v@.len(),
    ensures
        query_models(v, k) == models_of(v@.take(k)),
    decreases k,
{
    if k > 0 {
        lemma_models(v, k - 1);
        assert(models_of(v@.take(k)) =~= models_of(v@.take(k - 1)).push(query_model(v@[k - 1])));
    } else {
        assert(models_of(v@.take(0)) =~= Seq::empty());
    }
}

/// `done` in front of the queries still to come.
spec fn all_in_front(done: Seq<QueryModel>, rest: Parsed<Seq<QueryModel>>) -> Parsed<
    Seq<QueryModel>,
> {
    match rest {
        Parsed::Done(qs, p) => Parsed::Done(done + qs, p),
        other => other,
    }
}

proof fn lemma_in_front(done: Seq<QueryModel>, q: QueryModel, rest: Parsed<Seq<QueryModel>>)
    ensures
        all_in_front(done.push(q), rest) == all_in_front(done, in_front(q, rest)),
{
    if rest is Done {
        assert(done.push(q) + rest->Done_0 =~= done + (seq![q] + rest->Done_0));
    }
}

fn parse_list<F: Fn(&str) -> Option<TagId>, G: Fn(&str) -> Option<u64>>(
    cursor: &mut Cursor<'_>,
    resolver: &F,
    read_float: &G,
) -> (r: Result<Vec<Query>, QueryError>)
    requires
        old(cursor).wf(),
        old(cursor).fresh(),
        forall|s: &str| resolver.requires((s,)),
        forall|s: &str| read_float.requires((s,)),
        answered(*resolver, *read_float, old(cursor).models(), old(cursor).answers@),
    ensures
        final(cursor).follows(*old(cursor)),
        final(cursor).fresh(),
        answered(*resolver, *read_float, final(cursor).models(), final(cursor).answers@),
        forall|more: Answers| #[trigger]
            final(cursor).answers@.within(more) ==> match parsed_list(
                old(cursor).models(),
                old(cursor).pos as int,
                more,
            ) {
                Parsed::Done(qs, p) => {
                    &&& r is Ok
                    &&& query_models(r->Ok_0, r->Ok_0@.len() as int) == qs
                    &&& p == final(cursor).pos
                },
                Parsed::Failed(f) => r is Err && r->Err_0@ == f,
                Parsed::Unanswered => false,
            },
    decreases old(cursor).tokens@.len() - old(cursor).pos, 1int,
{
    let ghost first = *cursor;
    let ghost tokens = cursor.models();
    let mut out: Vec<Query> = Vec::new();
    proof {
        assert(models_of(out@) =~= Seq::empty());
        assert forall|more: Answers| #[trigger] cursor.answers@.within(more) implies parsed_list(
            tokens,
            first.pos as int,
            more,
        ) == all_in_front(models_of(out@), parsed_list(tokens, first.pos as int, more)) by {
            let p = parsed_list(tokens, first.pos as int, more);
            if p is Done {
                assert(Seq::<QueryModel>::empty() + p->Done_0 =~= p->Done_0);
            }
        }
    }
    while !cursor.at_end()
        invariant
            first == *old(cursor),
            tokens == first.models(),
            cursor.wf(),
            cursor.fresh(),
            cursor.follows(first),
            forall|s: &str| resolver.requires((s,)),
            forall|s: &str| read_float.requires((s,)),
            answered(*resolver, *read_float, tokens, cursor.answers@),
            forall|more: Answers| #[trigger]
                cursor.answers@.within(more) ==> parsed_list(tokens, first.pos as int, more)
                    == all_in_front(
                    models_of(out@),
                    parsed_list(tokens, cursor.pos as int, more),
                ),
        decreases cursor.tokens@.len() - cursor.pos,
    {
        let ghost before = *cursor;
        let ghost done = models_of(out@);
        match parse_atom(cursor, resolver, read_float) {
            Ok(q) => {
                let ghost qm = q@;
                out.push(q);
                proof {
                    lemma_follows(first, before, *cursor);
                    lemma_within_follows(before.answers@, cursor.answers@);
                    assert(models_of(out@) =~= done.push(qm));
                    assert forall|more: Answers| #[trigger]
                        cursor.answers@.within(more) implies parsed_list(
                        tokens,
                        first.pos as int,
                        more,
                    ) == all_in_front(
                        models_of(out@),
                        parsed_list(tokens, cursor.pos as int, more),
                    ) by {
                        assert(before.answers@.within(more));
                        lemma_in_front(done, qm, parsed_list(tokens, cursor.pos as int, more));
                    }
                }
            },
            Err(e) => {
                proof {
                    lemma_follows(first, before, *cursor);
                    lemma_within_follows(before.answers@, cursor.answers@);
                    assert forall|more: Answers| #[trigger]
                        cursor.answers@.within(more) implies parsed_list(
                        tokens,
                        first.pos as int,
                        more,
                    ) == Parsed::<Seq<QueryModel>>::Failed(e@) by {
                        assert(before.answers@.within(more));
                        assert(atom_reports(
                            Err(e),
                            cursor.pos as int,
                            parsed_atom(tokens, before.pos as int, more),
                        ));
                    }
                }
                return Err(e);
            },
        }
    }
    proof {
        lemma_models(out, out@.len() as int);
        assert(out@.take(out@.len() as int) =~= out@);
        assert(models_of(out@) + Seq::<QueryModel>::empty() =~= models_of(out@));
    }
    Ok(out)
}

/// The reader of queries.
pub struct QueryParser;

impl QueryParser {
    /// Read a query. `resolver` gives the tag that a name stands for, if
    /// there is one; `read_float` gives the bits of the floating-point number
    /// that a word writes, if it writes one.
    pub fn parse<F: Fn(&str) -> Option<TagId>, G: Fn(&str) -> Option<u64>>(
        input: &str,
        resolver: F,
        read_float: G,
    ) -> (r: Result<Query, QueryError>)
        requires
            forall|s: &str| resolver.requires((s,)),
            forall|s: &str| read_float.requires((s,)),
        ensures
            reads(input@, resolver, read_float, r),
    {
        let tokens = match tokenize(input) {
            Ok(t) => t,
            Err(e) => {
                return Err(e);
            },
        };
        let ghost none = Answers { names: Map::empty(), floats: Map::empty() };
        let end = input.as_bytes().len();
        let mut cursor = Cursor { tokens: &tokens, end, pos: 0, answers: Ghost(none) };
        let ghost models = row_of(input@, token_models(tokens@));
        proof {
            assert(answered(resolver, read_float, models, none));
        }
        let r = parse_atom(&mut cursor, &resolver, &read_float);
        let ghost answers = cursor.answers@;
        proof {
            assert(answers.within(answers));
            assert(answered(resolver, read_float, models, answers));
        }
        match r {
            Ok(q) => {
                if cursor.pos < tokens.len() {
                    let mut m = String::new();
                    m.push_str("trailing token: ");
                    let ghost head = m@;
                    tokens[cursor.pos].1.show(&mut m);
                    proof {
                        assert(head =~= "trailing token: "@);
                    }
                    return Err(QueryError::Parse { position: tokens[cursor.pos].0, message: m });
                }
                Ok(q)
            },
            Err(e) => Err(e),
        }
    }
}

} // verus!

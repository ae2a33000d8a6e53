//! Tokens of the text form of queries.

use vstd::prelude::*;
use vstd::utf8::encode_utf8;
use crate::query::error::{QueryError, QueryFault};
use crate::text::{dec, push_dec};
use crate::types::id::{ObjectId, LOCAL_SEQ_SPAN};

verus! {

/// A token.
#[derive(Debug)]
pub enum Token {
    LParen,
    RParen,
    /// A keyword, an operator, a name or a number.
    Word(String),
    /// Text in quotes.
    Str(String),
    /// `@` with the number of a tag.
    AtId(u32),
    /// `obj:` with node and local number of an object.
    ObjId(ObjectId),
}

/// The mathematical content of a [`Token`].
pub ghost enum TokenModel {
    LParen,
    RParen,
    Word(Seq<char>),
    Str(Seq<char>),
    AtId(u32),
    ObjId(ObjectId),
}

impl View for Token {
    type V = TokenModel;

    open spec fn view(&self) -> TokenModel {
        match self {
            Token::LParen => TokenModel::LParen,
            Token::RParen => TokenModel::RParen,
            Token::Word(w) => TokenModel::Word(w@),
            Token::Str(s) => TokenModel::Str(s@),
            Token::AtId(n) => TokenModel::AtId(*n),
            Token::ObjId(o) => TokenModel::ObjId(*o),
        }
    }
}

/// A token's content with the byte offset at which the token starts.
pub type PlacedModel = (nat, TokenModel);

/// The contents of a list of tokens, each with its byte offset.
pub open spec fn token_models(v: Seq<(usize, Token)>) -> Seq<PlacedModel> {
    v.map_values(|t: (usize, Token)| (t.0 as nat, t.1@))
}

/// The text with its quotes and special characters escaped.
pub uninterp spec fn debug_text(s: Seq<char>) -> Seq<char>;

/// The `Debug` form of `str`, by the formatting machinery of `std`: what it
/// writes depends on the text alone.
#[verifier::external_body]
fn debug_string(s: &str) -> (r: String)
    ensures
        r@ == debug_text(s@),
{
    format!("{:?}", s)
}

/// How a token is shown in a message.
pub open spec fn token_text(t: TokenModel) -> Seq<char> {
    match t {
        TokenModel::LParen => "LParen"@,
        TokenModel::RParen => "RParen"@,
        TokenModel::Word(w) => "Word("@ + debug_text(w) + ")"@,
        TokenModel::Str(s) => "Str("@ + debug_text(s) + ")"@,
        TokenModel::AtId(n) => "AtId("@ + dec(n as nat) + ")"@,
        TokenModel::ObjId(o) => "ObjId(ObjectId("@ + dec(o.raw as nat) + "))"@,
    }
}

impl Token {
    /// Append how the token is shown in a message.
    pub fn show(&self, out: &mut String)
        ensures
            final(out)@ == old(out)@ + token_text(self@),
    {
        let ghost start = out@;
        match self {
            Token::LParen => {
                out.push_str("LParen");
            },
            Token::RParen => {
                out.push_str("RParen");
            },
            Token::Word(w) => {
                out.push_str("Word(");
                let d = debug_string(w.as_str());
                out.push_str(d.as_str());
                out.push_str(")");
            },
            Token::Str(s) => {
                out.push_str("Str(");
                let d = debug_string(s.as_str());
                out.push_str(d.as_str());
                out.push_str(")");
            },
            Token::AtId(n) => {
                out.push_str("AtId(");
                push_dec(out, *n as u64);
                out.push_str(")");
            },
            Token::ObjId(o) => {
                out.push_str("ObjId(ObjectId(");
                push_dec(out, o.to_u64());
                out.push_str("))");
            },
        }
        proof {
            assert(out@ =~= start + token_text(self@));
        }
    }
}

/// What separates tokens.
pub open spec fn is_space(c: char) -> bool {
    c == ' ' || c == '\t' || c == '\n' || c == '\r' || c == '\u{c}'
}

fn space(c: char) -> (r: bool)
    ensures
        r == is_space(c),
{
    c == ' ' || c == '\t' || c == '\n' || c == '\r' || c == '\u{c}'
}

/// What ends a word.
pub open spec fn ends_word(c: char) -> bool {
    is_space(c) || c == '(' || c == ')' || c == '"'
}

/// Where the word that `i` belongs to ends.
pub open spec fn word_end(s: Seq<char>, i: int) -> int
    decreases s.len() - i,
{
    if i >= s.len() || ends_word(s[i]) {
        i
    } else {
        word_end(s, i + 1)
    }
}

/// Where the digits from `i` on end.
pub open spec fn digits_end(s: Seq<char>, i: int) -> int
    decreases s.len() - i,
{
    if i < s.len() && '0' <= s[i] && s[i] <= '9' {
        digits_end(s, i + 1)
    } else {
        i
    }
}

/// Where the text in quotes that `i` belongs to ends: its closing quote, or
/// the end of the input.
pub open spec fn text_end(s: Seq<char>, i: int) -> int
    decreases s.len() - i,
{
    if i >= s.len() {
        s.len() as int
    } else if s[i] == '"' {
        i
    } else if s[i] == '\\' && i + 1 < s.len() {
        text_end(s, i + 2)
    } else {
        text_end(s, i + 1)
    }
}

/// The text that a text in quotes stands for: its characters, where a
/// backslash is left out in front of another character.
pub open spec fn quoted_text(s: Seq<char>, i: int) -> Seq<char>
    decreases s.len() - i,
{
    if i >= s.len() || s[i] == '"' {
        Seq::empty()
    } else if s[i] == '\\' && i + 1 < s.len() {
        seq![s[i + 1]] + quoted_text(s, i + 2)
    } else {
        seq![s[i]] + quoted_text(s, i + 1)
    }
}

/// The byte offset of character `i`.
pub open spec fn byte_at(s: Seq<char>, i: int) -> nat {
    encode_utf8(s.take(i)).len()
}

/// The value of a digit.
pub open spec fn digit_value(c: char, radix: nat) -> Option<nat> {
    let v = if '0' <= c && c <= '9' {
        Some((c as int - '0' as int) as nat)
    } else if 'a' <= c && c <= 'z' {
        Some((c as int - 'a' as int + 10) as nat)
    } else if 'A' <= c && c <= 'Z' {
        Some((c as int - 'A' as int + 10) as nat)
    } else {
        None
    };
    match v {
        Some(d) => if d < radix {
            Some(d)
        } else {
            None
        },
        None => None,
    }
}

/// The number that digits write.
pub open spec fn digits_value(s: Seq<char>, radix: nat) -> Option<nat>
    decreases s.len(),
{
    if s.len() == 0 {
        Some(0)
    } else {
        match (digits_value(s.drop_last(), radix), digit_value(s.last(), radix)) {
            (Some(n), Some(d)) => Some(n * radix + d),
            _ => None,
        }
    }
}

/// The number that a literal without a sign, or with a plus, writes.
pub open spec fn unsigned_literal(s: Seq<char>, radix: nat, max: nat) -> Option<nat> {
    let t = if s.len() > 0 && s[0] == '+' {
        s.skip(1)
    } else {
        s
    };
    if t.len() == 0 {
        None
    } else {
        match digits_value(t, radix) {
            Some(n) => if n <= max {
                Some(n)
            } else {
                None
            },
            None => None,
        }
    }
}

/// The number that a literal writes.
pub open spec fn signed_literal(s: Seq<char>) -> Option<int> {
    if s.len() > 0 && s[0] == '-' {
        if s.len() == 1 {
            None
        } else {
            match digits_value(s.skip(1), 10) {
                Some(n) => if n <= 0x8000_0000_0000_0000 {
                    Some(-(n as int))
                } else {
                    None
                },
                None => None,
            }
        }
    } else {
        match unsigned_literal(s, 10, 0x7FFF_FFFF_FFFF_FFFF) {
            Some(n) => Some(n as int),
            None => None,
        }
    }
}

/// Where the first colon from `i` on stands, or the end.
pub open spec fn colon_at(s: Seq<char>, i: int) -> int
    decreases s.len() - i,
{
    if i >= s.len() {
        s.len() as int
    } else if s[i] == ':' {
        i
    } else {
        colon_at(s, i + 1)
    }
}

/// What a word starts with that stands for an object.
pub open spec fn object_prefix(w: Seq<char>) -> bool {
    w.len() >= 4 && w[0] == 'o' && w[1] == 'b' && w[2] == 'j' && w[3] == ':'
}

/// The node part of the text for an object.
pub open spec fn node_part(w: Seq<char>) -> Seq<char> {
    w.subrange(4, colon_at(w, 4))
}

/// The local part of the text for an object.
pub open spec fn local_part(w: Seq<char>) -> Seq<char> {
    let c = colon_at(w, 4);
    if c < w.len() {
        w.skip(c + 1)
    } else {
        Seq::empty()
    }
}

/// The token that a word is; `at` is its byte offset.
pub open spec fn word_token(w: Seq<char>, at: nat) -> Result<TokenModel, QueryFault> {
    if object_prefix(w) {
        match unsigned_literal(node_part(w), 16, 0xFFFF) {
            None => Err(QueryFault::Parse(at, "bad ObjectId node `"@ + node_part(w) + "`"@)),
            Some(node) => match unsigned_literal(local_part(w), 10, 0xFFFF_FFFF_FFFF_FFFF) {
                None => Err(
                    QueryFault::Parse(at, "bad ObjectId local `"@ + local_part(w) + "`"@),
                ),
                Some(local) => Ok(
                    TokenModel::ObjId(
                        ObjectId {
                            raw: (node * LOCAL_SEQ_SPAN + local % (LOCAL_SEQ_SPAN as nat)) as u64,
                        },
                    ),
                ),
            },
        }
    } else {
        Ok(TokenModel::Word(w))
    }
}

/// `t`, which starts at byte `at`, in front of the other tokens.
pub open spec fn before(at: nat, t: TokenModel, r: Result<Seq<PlacedModel>, QueryFault>) -> Result<
    Seq<PlacedModel>,
    QueryFault,
> {
    match r {
        Ok(s) => Ok(seq![(at, t)] + s),
        Err(e) => Err(e),
    }
}

/// The tokens from character `i` on, each with the byte offset at which it
/// starts; the first fault where there is one.
pub open spec fn lexed(s: Seq<char>, i: int) -> Result<Seq<PlacedModel>, QueryFault>
    decreases s.len() - i,
{
    if i >= s.len() {
        Ok(Seq::empty())
    } else if is_space(s[i]) {
        lexed(s, i + 1)
    } else if s[i] == '(' {
        before(byte_at(s, i), TokenModel::LParen, lexed(s, i + 1))
    } else if s[i] == ')' {
        before(byte_at(s, i), TokenModel::RParen, lexed(s, i + 1))
    } else if s[i] == '"' {
        let e = text_end(s, i + 1);
        if e >= s.len() || e <= i {
            Err(
                QueryFault::Parse(byte_at(s, s.len() as int), "unterminated string literal"@),
            )
        } else {
            before(byte_at(s, i), TokenModel::Str(quoted_text(s, i + 1)), lexed(s, e + 1))
        }
    } else if s[i] == '@' {
        let e = digits_end(s, i + 1);
        if e <= i + 1 || e > s.len() {
            Err(QueryFault::Parse(byte_at(s, i), "expected digits after `@`"@))
        } else {
            match unsigned_literal(s.subrange(i + 1, e), 10, 0xFFFF_FFFF) {
                None => Err(QueryFault::Parse(byte_at(s, i), "@id literal does not fit u32"@)),
                Some(n) => before(byte_at(s, i), TokenModel::AtId(n as u32), lexed(s, e)),
            }
        }
    } else {
        let e = word_end(s, i);
        if e <= i || e > s.len() {
            Ok(Seq::empty())
        } else {
            match word_token(s.subrange(i, e), byte_at(s, i)) {
                Err(f) => Err(f),
                Ok(t) => before(byte_at(s, i), t, lexed(s, e)),
            }
        }
    }
}

/// `done` in front of what is still to come.
pub open spec fn joined_to(done: Seq<PlacedModel>, r: Result<Seq<PlacedModel>, QueryFault>) -> Result<
    Seq<PlacedModel>,
    QueryFault,
> {
    match r {
        Ok(s) => Ok(done + s),
        Err(e) => Err(e),
    }
}

proof fn lemma_word_end(s: Seq<char>, i: int)
    requires
        0 <= i <= s.len(),
    ensures
        i <= word_end(s, i) <= s.len(),
    decreases s.len() - i,
{
    if !(i >= s.len() || ends_word(s[i])) {
        lemma_word_end(s, i + 1);
    }
}

/// The characters of a text.
pub fn chars_of(text: &str) -> (r: Vec<char>)
    ensures
        r@ == text@,
{
    let n = text.unicode_len();
    let mut out: Vec<char> = Vec::new();
    let mut i: usize = 0;
    while i < n
        invariant
            i <= n,
            n == text@.len(),
            out@ =~= text@.take(i as int),
        decreases n - i,
    {
        out.push(text.get_char(i));
        i = i + 1;
    }
    out
}

/// The text of some characters.
pub fn text_of(chars: &Vec<char>, from: usize, to: usize) -> (r: String)
    requires
        from <= to <= chars@.len(),
    ensures
        r@ == chars@.subrange(from as int, to as int),
{
    let mut out = String::new();
    let mut i: usize = from;
    proof {
        assert(out@ =~= chars@.subrange(from as int, from as int));
    }
    while i < to
        invariant
            from <= i <= to,
            to <= chars@.len(),
            out@ == chars@.subrange(from as int, i as int),
        decreases to - i,
    {
        out.push(chars[i]);
        proof {
            assert(chars@.subrange(from as int, i as int).push(chars@[i as int])
                =~= chars@.subrange(from as int, i + 1));
        }
        i = i + 1;
    }
    out
}

fn digit_number(c: char, radix: u64) -> (r: Option<u64>)
    requires
        radix <= 36,
    ensures
        match r {
            Some(d) => digit_value(c, radix as nat) == Some(d as nat) && d < radix,
            None => digit_value(c, radix as nat) is None,
        },
{
    let v: Option<u64> = if '0' <= c && c <= '9' {
        Some((c as u32 - '0' as u32) as u64)
    } else if 'a' <= c && c <= 'z' {
        Some((c as u32 - 'a' as u32 + 10) as u64)
    } else if 'A' <= c && c <= 'Z' {
        Some((c as u32 - 'A' as u32 + 10) as u64)
    } else {
        None
    };
    match v {
        Some(d) => {
            if d < radix {
                Some(d)
            } else {
                None
            }
        },
        None => None,
    }
}

/// A longer number is no smaller.
proof fn lemma_digits_grow(s: Seq<char>, radix: nat, k: int)
    requires
        0 <= k <= s.len(),
        0 < radix,
        digits_value(s, radix) is Some,
    ensures
        digits_value(s.take(k), radix) is Some,
        digits_value(s.take(k), radix)->Some_0 <= digits_value(s, radix)->Some_0,
    decreases s.len(),
{
    if k < s.len() {
        let t = s.drop_last();
        lemma_digits_grow(t, radix, k);
        assert(t.take(k) =~= s.take(k));
        let n = digits_value(t, radix)->Some_0;
        assert(n <= n * radix) by (nonlinear_arith)
            requires
                0 < radix,
        ;
    } else {
        assert(s.take(k) =~= s);
    }
}

/// The number that the digits in a range write, if it fits.
fn digits_number(chars: &Vec<char>, from: usize, to: usize, radix: u64) -> (r: Option<u64>)
    requires
        from <= to <= chars@.len(),
        0 < radix <= 36,
    ensures
        match r {
            Some(n) => digits_value(chars@.subrange(from as int, to as int), radix as nat) == Some(
                n as nat,
            ),
            None => match digits_value(chars@.subrange(from as int, to as int), radix as nat) {
                Some(n) => n > u64::MAX,
                None => true,
            },
        },
{
    let ghost whole = chars@.subrange(from as int, to as int);
    let mut acc: u64 = 0;
    let mut i: usize = from;
    while i < to
        invariant
            from <= i <= to,
            to <= chars@.len(),
            0 < radix <= 36,
            whole == chars@.subrange(from as int, to as int),
            digits_value(whole.take(i - from), radix as nat) == Some(acc as nat),
        decreases to - i,
    {
        let ghost k = i - from;
        proof {
            assert(whole.take(k + 1).drop_last() =~= whole.take(k));
            assert(whole.take(k + 1).last() == chars@[i as int]);
        }
        match digit_number(chars[i], radix) {
            Some(d) => {
                if acc > (u64::MAX - d) / radix {
                    proof {
                        let r = radix as int;
                        let a = acc as int;
                        let m = (u64::MAX - d) as int;
                        assert(a * r > m) by (nonlinear_arith)
                            requires
                                a > m / r,
                                r > 0,
                                m >= 0,
                        ;
                        if digits_value(whole, radix as nat) is Some {
                            lemma_digits_grow(whole, radix as nat, k + 1);
                        }
                    }
                    return None;
                }
                proof {
                    let r = radix as int;
                    let a = acc as int;
                    let m = (u64::MAX - d) as int;
                    assert(a * r <= m) by (nonlinear_arith)
                        requires
                            a <= m / r,
                            r > 0,
                            m >= 0,
                    ;
                }
                acc = acc * radix + d;
            },
            None => {
                proof {
                    if digits_value(whole, radix as nat) is Some {
                        lemma_digits_grow(whole, radix as nat, k + 1);
                    }
                }
                return None;
            },
        }
        i = i + 1;
    }
    proof {
        assert(whole.take(to - from) =~= whole);
    }
    Some(acc)
}

/// The number that a literal without a sign, or with a plus, writes.
pub fn unsigned_number(chars: &Vec<char>, from: usize, to: usize, radix: u64, max: u64) -> (r:
    Option<u64>)
    requires
        from <= to <= chars@.len(),
        0 < radix <= 36,
    ensures
        r == match unsigned_literal(
            chars@.subrange(from as int, to as int),
            radix as nat,
            max as nat,
        ) {
            Some(n) => Some(n as u64),
            None => None,
        },
        r is Some ==> r->Some_0 <= max,
{
    let ghost s = chars@.subrange(from as int, to as int);
    let start: usize = if from < to && chars[from] == '+' {
        from + 1
    } else {
        from
    };
    proof {
        assert(chars@.subrange(start as int, to as int) =~= if s.len() > 0 && s[0] == '+' {
            s.skip(1)
        } else {
            s
        });
    }
    if start >= to {
        return None;
    }
    match digits_number(chars, start, to, radix) {
        Some(n) => {
            if n <= max {
                Some(n)
            } else {
                None
            }
        },
        None => None,
    }
}

/// The number that a literal writes.
pub fn signed_number(chars: &Vec<char>) -> (r: Option<i64>)
    ensures
        match r {
            Some(i) => signed_literal(chars@) == Some(i as int),
            None => signed_literal(chars@) is None,
        },
{
    let n = chars.len();
    proof {
        assert(chars@.subrange(0, n as int) =~= chars@);
    }
    if n > 0 && chars[0] == '-' {
        if n == 1 {
            return None;
        }
        proof {
            assert(chars@.subrange(1, n as int) =~= chars@.skip(1));
        }
        match digits_number(chars, 1, n, 10) {
            Some(m) => {
                if m < 0x8000_0000_0000_0000 {
                    Some(-(m as i64))
                } else if m == 0x8000_0000_0000_0000 {
                    Some(i64::MIN)
                } else {
                    None
                }
            },
            None => None,
        }
    } else {
        match unsigned_number(chars, 0, n, 10, 0x7FFF_FFFF_FFFF_FFFF) {
            Some(m) => Some(m as i64),
            None => None,
        }
    }
}

/// The UTF-8 form of two texts, one behind the other.
proof fn lemma_encode_concat(a: Seq<char>, b: Seq<char>)
    ensures
        encode_utf8(a + b) == encode_utf8(a) + encode_utf8(b),
    decreases a.len(),
{
    if a.len() == 0 {
        assert(a + b =~= b);
        assert(encode_utf8(a) + encode_utf8(b) =~= encode_utf8(b));
    } else {
        lemma_encode_concat(a.drop_first(), b);
        assert((a + b).drop_first() =~= a.drop_first() + b);
        assert(encode_utf8(a + b) =~= encode_utf8(a) + encode_utf8(b));
    }
}

/// The byte offset behind the characters `from` to `to`.
proof fn lemma_byte_at(s: Seq<char>, from: int, to: int)
    requires
        0 <= from <= to <= s.len(),
    ensures
        byte_at(s, to) == byte_at(s, from) + encode_utf8(s.subrange(from, to)).len(),
        byte_at(s, to) <= encode_utf8(s).len(),
{
    lemma_encode_concat(s.take(from), s.subrange(from, to));
    assert(s.take(from) + s.subrange(from, to) =~= s.take(to));
    lemma_encode_concat(s.take(to), s.skip(to));
    assert(s.take(to) + s.skip(to) =~= s);
}

/// The byte offset of character `to`, where character `from` stands at byte `at`.
fn offset_behind(chars: &Vec<char>, at: usize, from: usize, to: usize) -> (r: usize)
    requires
        from <= to <= chars@.len(),
        at == byte_at(chars@, from as int),
        encode_utf8(chars@).len() <= usize::MAX,
    ensures
        r == byte_at(chars@, to as int),
{
    let part = text_of(chars, from, to);
    proof {
        lemma_byte_at(chars@, from as int, to as int);
    }
    at + part.as_str().as_bytes().len()
}

/// A message of its own.
fn message(m: &str) -> (r: String)
    ensures
        r@ == m@,
{
    let mut out = String::new();
    out.push_str(m);
    proof {
        assert(out@ =~= m@);
    }
    out
}

/// Read a text in quotes whose content starts at `from`. Returns it with the
/// position of its closing quote.
fn read_text(chars: &Vec<char>, from: usize) -> (r: (String, usize))
    requires
        from <= chars@.len(),
    ensures
        r.1 == text_end(chars@, from as int),
        r.1 <= chars@.len(),
        r.0@ == quoted_text(chars@, from as int),
{
    let n = chars.len();
    let mut out = String::new();
    let mut i: usize = from;
    proof {
        assert(out@ + quoted_text(chars@, from as int) =~= quoted_text(chars@, from as int));
    }
    while i < n && chars[i] != '"'
        invariant
            from <= i <= n,
            n == chars@.len(),
            text_end(chars@, from as int) == text_end(chars@, i as int),
            quoted_text(chars@, from as int) == out@ + quoted_text(chars@, i as int),
        decreases n - i,
    {
        let ghost before = out@;
        if chars[i] == '\\' && i + 1 < n {
            out.push(chars[i + 1]);
            proof {
                assert(before + quoted_text(chars@, i as int) =~= out@ + quoted_text(
                    chars@,
                    i + 2,
                ));
            }
            i = i + 2;
        } else {
            out.push(chars[i]);
            proof {
                assert(before + quoted_text(chars@, i as int) =~= out@ + quoted_text(
                    chars@,
                    i + 1,
                ));
            }
            i = i + 1;
        }
    }
    proof {
        assert(out@ + quoted_text(chars@, i as int) =~= out@);
    }
    (out, i)
}

/// Where the digits from `from` on end.
fn find_digits_end(chars: &Vec<char>, from: usize) -> (r: usize)
    requires
        from <= chars@.len(),
    ensures
        r == digits_end(chars@, from as int),
        from <= r <= chars@.len(),
{
    let n = chars.len();
    let mut i: usize = from;
    while i < n && '0' <= chars[i] && chars[i] <= '9'
        invariant
            from <= i <= n,
            n == chars@.len(),
            digits_end(chars@, from as int) == digits_end(chars@, i as int),
        decreases n - i,
    {
        i = i + 1;
    }
    i
}

/// Where the word that starts at `from` ends.
fn find_word_end(chars: &Vec<char>, from: usize) -> (r: usize)
    requires
        from <= chars@.len(),
    ensures
        r == word_end(chars@, from as int),
        from <= r <= chars@.len(),
{
    let n = chars.len();
    let mut i: usize = from;
    while i < n && !(space(chars[i]) || chars[i] == '(' || chars[i] == ')' || chars[i] == '"')
        invariant
            from <= i <= n,
            n == chars@.len(),
            word_end(chars@, from as int) == word_end(chars@, i as int),
        decreases n - i,
    {
        i = i + 1;
    }
    i
}

/// The token that the word in a range is.
fn read_word(chars: &Vec<char>, from: usize, to: usize, at: usize) -> (r: Result<
    Token,
    QueryError,
>)
    requires
        from < to <= chars@.len(),
    ensures
        match word_token(chars@.subrange(from as int, to as int), at as nat) {
            Ok(t) => r is Ok && r->Ok_0@ == t,
            Err(f) => r is Err && r->Err_0@ == f,
        },
{
    let ghost w = chars@.subrange(from as int, to as int);
    if to - from >= 4 && chars[from] == 'o' && chars[from + 1] == 'b' && chars[from + 2] == 'j'
        && chars[from + 3] == ':' {
        let mut c: usize = from + 4;
        while c < to && chars[c] != ':'
            invariant
                from + 4 <= c <= to,
                to <= chars@.len(),
                w == chars@.subrange(from as int, to as int),
                colon_at(w, 4) == colon_at(w, c - from),
            decreases to - c,
        {
            c = c + 1;
        }
        let local_from: usize = if c < to {
            c + 1
        } else {
            to
        };
        proof {
            assert(chars@.subrange(from + 4, c as int) =~= node_part(w));
            assert(chars@.subrange(local_from as int, to as int) =~= local_part(w));
        }
        match unsigned_number(chars, from + 4, c, 16, 0xFFFF) {
            Some(node) => match unsigned_number(
                chars,
                local_from,
                to,
                10,
                0xFFFF_FFFF_FFFF_FFFF,
            ) {
                Some(local) => Ok(Token::ObjId(ObjectId::from_parts(node as u16, local))),
                None => {
                    let part = text_of(chars, local_from, to);
                    Err(
                        QueryError::Parse {
                            position: at,
                            message: crate::text::joined(
                                "bad ObjectId local `",
                                part.as_str(),
                                "`",
                            ),
                        },
                    )
                },
            },
            None => {
                let part = text_of(chars, from + 4, c);
                Err(
                    QueryError::Parse {
                        position: at,
                        message: crate::text::joined("bad ObjectId node `", part.as_str(), "`"),
                    },
                )
            },
        }
    } else {
        Ok(Token::Word(text_of(chars, from, to)))
    }
}

/// The tokens of a text, each with the byte offset at which it starts.
pub fn tokenize(input: &str) -> (r: Result<Vec<(usize, Token)>, QueryError>)
    ensures
        match lexed(input@, 0) {
            Ok(s) => r is Ok && token_models(r->Ok_0@) == s,
            Err(f) => r is Err && r->Err_0@ == f,
        },
{
    let chars = chars_of(input);
    let total = input.as_bytes().len();
    let ghost s = input@;
    let n = chars.len();
    let mut out: Vec<(usize, Token)> = Vec::new();
    let mut i: usize = 0;
    let mut at: usize = 0;
    proof {
        assert(token_models(out@) =~= Seq::empty());
        assert(lexed(s, 0) is Ok ==> Seq::empty() + lexed(s, 0)->Ok_0 =~= lexed(s, 0)->Ok_0);
        assert(s.take(0) =~= Seq::empty());
        assert(s.take(n as int) =~= s);
    }
    while i < n
        invariant
            i <= n,
            chars@ == s,
            s == input@,
            n == s.len(),
            total == encode_utf8(s).len(),
            total == byte_at(s, n as int),
            at == byte_at(s, i as int),
            lexed(s, 0) == joined_to(token_models(out@), lexed(s, i as int)),
        decreases n - i,
    {
        let c = chars[i];
        let ghost done = token_models(out@);
        let e: usize;
        if space(c) {
            e = i + 1;
        } else {
            let t: Token;
            if c == '(' {
                t = Token::LParen;
                e = i + 1;
            } else if c == ')' {
                t = Token::RParen;
                e = i + 1;
            } else if c == '"' {
                let (text, end) = read_text(&chars, i + 1);
                proof {
                    lemma_text_end(s, i + 1);
                }
                if end >= n {
                    return Err(
                        QueryError::Parse {
                            position: total,
                            message: message("unterminated string literal"),
                        },
                    );
                }
                t = Token::Str(text);
                e = end + 1;
            } else if c == '@' {
                e = find_digits_end(&chars, i + 1);
                if e == i + 1 {
                    return Err(
                        QueryError::Parse {
                            position: at,
                            message: message("expected digits after `@`"),
                        },
                    );
                }
                match unsigned_number(&chars, i + 1, e, 10, 0xFFFF_FFFF) {
                    Some(raw) => {
                        t = Token::AtId(raw as u32);
                    },
                    None => {
                        return Err(
                            QueryError::Parse {
                                position: at,
                                message: message("@id literal does not fit u32"),
                            },
                        );
                    },
                }
            } else {
                e = find_word_end(&chars, i);
                proof {
                    lemma_word_end(s, i + 1);
                }
                match read_word(&chars, i, e, at) {
                    Ok(w) => {
                        t = w;
                    },
                    Err(f) => {
                        return Err(f);
                    },
                }
            }
            let ghost tm = t@;
            proof {
                assert(lexed(s, i as int) == before(at as nat, tm, lexed(s, e as int)));
                lemma_push(done, at as nat, tm, lexed(s, e as int));
            }
            out.push((at, t));
            proof {
                assert(token_models(out@) =~= done.push((at as nat, tm)));
            }
        }
        at = offset_behind(&chars, at, i, e);
        i = e;
    }
    proof {
        assert(token_models(out@) + Seq::<PlacedModel>::empty() =~= token_models(out@));
    }
    Ok(out)
}

proof fn lemma_push(
    done: Seq<PlacedModel>,
    at: nat,
    t: TokenModel,
    rest: Result<Seq<PlacedModel>, QueryFault>,
)
    ensures
        joined_to(done.push((at, t)), rest) == joined_to(done, before(at, t, rest)),
{
    if rest is Ok {
        assert(done.push((at, t)) + rest->Ok_0 =~= done + (seq![(at, t)] + rest->Ok_0));
    }
}

proof fn lemma_text_end(s: Seq<char>, i: int)
    requires
        0 <= i <= s.len(),
    ensures
        i <= text_end(s, i) <= s.len(),
    decreases s.len() - i,
{
    if i < s.len() && s[i] != '"' {
        if s[i] == '\\' && i + 1 < s.len() {
            lemma_text_end(s, i + 2);
        } else {
            lemma_text_end(s, i + 1);
        }
    }
}

} // verus!

use vstd::prelude::*;
use vstd::string::StringSliceAdditionalSpecFns;
use vstd::utf8::encode_utf8;

use crate::ast::{Token, TokenKind};
use crate::text::{
    byte_len, byte_offset, bytes_between_chars, chars_of, lemma_offset_is_boundary, lemma_offset_split,
    lemma_offset_step, utf8_width,
};
use crate::util::Span;

verus! {

broadcast use vstd::seq::group_seq_axioms;

pub open spec fn is_digit(c: char) -> bool {
    '0' <= c <= '9'
}

pub open spec fn is_alpha(c: char) -> bool {
    ('a' <= c <= 'z') || ('A' <= c <= 'Z')
}

/// ASCII whitespace: space, tab, line feed, form feed, carriage return.
pub open spec fn is_space(c: char) -> bool {
    c == ' ' || c == '\t' || c == '\n' || c == '\x0C' || c == '\r'
}

/// The kind of the token that starts with `c`.
pub open spec fn kind_of(c: char) -> TokenKind {
    if c == '(' {
        TokenKind::LParen
    } else if c == ')' {
        TokenKind::RParen
    } else if c == ',' {
        TokenKind::Comma
    } else if is_digit(c) {
        TokenKind::Number
    } else if is_alpha(c) {
        TokenKind::Ident
    } else if is_space(c) {
        TokenKind::Whitespace
    } else {
        TokenKind::ErrorUnexpected(c)
    }
}

/// Characters that continue a token of kind `kind`.
pub open spec fn continues(kind: TokenKind, c: char) -> bool {
    match kind {
        TokenKind::Number => is_digit(c),
        TokenKind::Ident => is_alpha(c),
        TokenKind::Whitespace => is_space(c),
        _ => false,
    }
}

/// End of the longest run, from `k` on, of characters that continue `kind`.
pub open spec fn run_end(cs: Seq<char>, k: int, kind: TokenKind) -> int
    decreases cs.len() - k,
{
    if 0 <= k < cs.len() && continues(kind, cs[k]) {
        run_end(cs, k + 1, kind)
    } else {
        k
    }
}

/// Index just past the token that starts at index `k`.
pub open spec fn token_end(cs: Seq<char>, k: int) -> int {
    run_end(cs, k + 1, kind_of(cs[k]))
}

pub open spec fn span_of(cs: Seq<char>, i: int, j: int) -> Span {
    Span { start: byte_offset(cs, i) as usize, end: byte_offset(cs, j) as usize }
}

/// Every token of `cs` from index `k` on, whitespace included.
pub open spec fn raw_tokens(cs: Seq<char>, k: int) -> Seq<Token>
    decreases cs.len() - k,
{
    if k < 0 || k >= cs.len() {
        Seq::empty()
    } else {
        let e = token_end(cs, k);
        if e <= k || e > cs.len() {
            Seq::empty()
        } else {
            seq![Token { kind: kind_of(cs[k]), span: span_of(cs, k, e) }] + raw_tokens(cs, e)
        }
    }
}

pub open spec fn is_significant(t: Token) -> bool {
    t.kind != TokenKind::Whitespace
}

/// The tokens of `ts` that are not whitespace.
pub open spec fn significant(ts: Seq<Token>) -> Seq<Token> {
    ts.filter(|t: Token| is_significant(t))
}

pub proof fn lemma_significant_cons(t: Token, rest: Seq<Token>)
    ensures
        significant(seq![t] + rest) == if is_significant(t) {
            seq![t] + significant(rest)
        } else {
            significant(rest)
        },
{
    let p = |t: Token| is_significant(t);
    reveal_with_fuel(Seq::filter, 2);
    Seq::filter_distributes_over_add(seq![t], rest, p);
    assert(seq![t].drop_last() =~= Seq::<Token>::empty());
    assert(Seq::<Token>::empty().filter(p) =~= Seq::<Token>::empty());
    assert(seq![t].last() == t);
    if is_significant(t) {
        assert(seq![t].filter(p) =~= seq![t]);
    } else {
        assert(seq![t].filter(p) =~= Seq::<Token>::empty());
    }
}

/// What `lex` returns on the text `cs`.
pub open spec fn lex_spec(cs: Seq<char>) -> Seq<Token> {
    significant(raw_tokens(cs, 0)).push(
        Token { kind: TokenKind::Eof, span: span_of(cs, cs.len() as int, cs.len() as int) },
    )
}

pub proof fn lemma_run_end(cs: Seq<char>, k: int, kind: TokenKind)
    requires
        0 <= k <= cs.len(),
    ensures
        k <= run_end(cs, k, kind) <= cs.len(),
        forall|i: int| k <= i < run_end(cs, k, kind) ==> continues(kind, #[trigger] cs[i]),
        run_end(cs, k, kind) < cs.len() ==> !continues(kind, cs[run_end(cs, k, kind)]),
    decreases cs.len() - k,
{
    if k < cs.len() && continues(kind, cs[k]) {
        lemma_run_end(cs, k + 1, kind);
    }
}

/// Advances over the characters from `from` on that continue `kind`;
/// returns the index and the byte offset where the run ends.
fn bump_while_next(cs: &Vec<char>, from: usize, pos: usize, kind: TokenKind) -> (r: (usize, usize))
    requires
        0 <= from <= cs.len(),
        pos == byte_offset(cs@, from as int),
        byte_len(cs@) <= usize::MAX,
    ensures
        from <= r.0 <= cs.len(),
        r.0 == run_end(cs@, from as int, kind),
        r.1 == byte_offset(cs@, r.0 as int),
{
    let mut e = from;
    let mut end = pos;
    while e < cs.len()
        invariant
            from <= e <= cs.len(),
            end == byte_offset(cs@, e as int),
            run_end(cs@, from as int, kind) == run_end(cs@, e as int, kind),
            byte_len(cs@) <= usize::MAX,
        ensures
            from <= e <= cs.len(),
            end == byte_offset(cs@, e as int),
            run_end(cs@, from as int, kind) == run_end(cs@, e as int, kind),
            e == cs.len() || !continues(kind, cs@[e as int]),
        decreases cs.len() - e,
    {
        let c = cs[e];
        let go = match kind {
            TokenKind::Number => '0' <= c && c <= '9',
            TokenKind::Ident => ('a' <= c && c <= 'z') || ('A' <= c && c <= 'Z'),
            TokenKind::Whitespace => c == ' ' || c == '\t' || c == '\n' || c == '\x0C' || c
                == '\r',
            _ => false,
        };
        if !go {
            break;
        }
        proof {
            lemma_offset_step(cs@, e as int);
            lemma_offset_split(cs@, 0, e + 1);
        }
        end = end + utf8_width(c);
        e = e + 1;
    }
    (e, end)
}

/// The kind of the token that starts with `c`.
fn classify(c: char) -> (k: TokenKind)
    ensures
        k == kind_of(c),
{
    if c == '(' {
        TokenKind::LParen
    } else if c == ')' {
        TokenKind::RParen
    } else if c == ',' {
        TokenKind::Comma
    } else if '0' <= c && c <= '9' {
        TokenKind::Number
    } else if ('a' <= c && c <= 'z') || ('A' <= c && c <= 'Z') {
        TokenKind::Ident
    } else if c == ' ' || c == '\t' || c == '\n' || c == '\x0C' || c == '\r' {
        TokenKind::Whitespace
    } else {
        TokenKind::ErrorUnexpected(c)
    }
}

/// Splits `src` into tokens. Whitespace separates tokens and is dropped; the
/// last token is always one `Eof` with an empty span at the end of `src`.
pub fn lex(src: &str) -> (tokens: Vec<Token>)
    ensures
        tokens@ == lex_spec(src@),
        forall|i: int|
            0 <= i < tokens.len() ==> bytes_between_chars(
                src@,
                #[trigger] tokens[i].span.start as int,
                tokens[i].span.end as int,
            ),
{
    let cs = chars_of(src);
    let n = src.as_bytes().len();
    let ghost s = cs@;
    proof {
        lemma_offset_split(s, 0, s.len() as int);
        assert(s.take(0) =~= Seq::<char>::empty());
        assert(byte_offset(s, 0) == 0);
        assert(src.spec_bytes() == encode_utf8(src@));
    }
    let mut out: Vec<Token> = Vec::new();
    let mut k: usize = 0;
    let mut pos: usize = 0;
    while k < cs.len()
        invariant
            s == cs@,
            s == src@,
            byte_len(s) == n,
            k <= cs.len(),
            pos == byte_offset(s, k as int),
            out@ + significant(raw_tokens(s, k as int)) == significant(raw_tokens(s, 0)),
            forall|i: int|
                0 <= i < out.len() ==> bytes_between_chars(
                    s,
                    #[trigger] out[i].span.start as int,
                    out[i].span.end as int,
                ),
        decreases cs.len() - k,
    {
        let c = cs[k];
        let kind = classify(c);
        proof {
            lemma_offset_step(s, k as int);
            lemma_offset_split(s, 0, k + 1);
        }
        let (e, end) = bump_while_next(&cs, k + 1, pos + utf8_width(c), kind);
        proof {
            crate::text::lemma_offset_split(s, k as int, e as int);
        }
        let tok = Token::new(kind, Span::new(pos, end));
        proof {
            lemma_run_end(s, k + 1, kind);
            let rest = raw_tokens(s, e as int);
            assert(raw_tokens(s, k as int) == seq![tok] + rest);
            lemma_significant_cons(tok, rest);
            lemma_offset_is_boundary(s, k as int);
            lemma_offset_is_boundary(s, e as int);
            lemma_offset_split(s, k as int, e as int);
            assert(out@ + significant(seq![tok] + rest) =~= if kind != TokenKind::Whitespace {
                out@.push(tok) + significant(rest)
            } else {
                out@ + significant(rest)
            });
        }
        if kind != TokenKind::Whitespace {
            out.push(tok);
        }
        k = e;
        pos = end;
    }
    proof {
        assert(raw_tokens(s, k as int) == Seq::<Token>::empty());
        assert(significant(raw_tokens(s, k as int)) =~= Seq::<Token>::empty());
        assert(out@ =~= significant(raw_tokens(s, 0)));
        lemma_offset_split(s, 0, s.len() as int);
        lemma_offset_is_boundary(s, s.len() as int);
    }
    out.push(Token::new(TokenKind::Eof, Span::new(n, n)));
    out
}

} // verus!

use vstd::prelude::*;
use vstd::string::{StringExecFns, StringSliceAdditionalSpecFns};
use vstd::utf8::encode_utf8;

use crate::ast::{lemma_trees_of, tree_of, trees_of, Expr, ExprKind, Ident, Program, Token, TokenKind, Tree};
use crate::evaluator::MAX_ARG_COUNT;
use crate::lexer::is_digit;
use crate::text::{byte_len, bytes_between_chars, chars_of, text_between};
use crate::util::{Diag, Error, PResult, Span};

verus! {

broadcast use vstd::seq::group_seq_axioms;

/// What the `Debug` formatting of `c` writes.
pub uninterp spec fn char_debug(c: char) -> Seq<char>;

/// Relies on std's `Debug` formatting of `char`: the character in single
/// quotes, escaped; it depends on the character alone.
#[verifier::external_body]
fn debug_char(c: char) -> (r: String)
    ensures
        r@ == char_debug(c),
{
    format!("{c:?}")
}

/// The name of a token kind, as diagnostics write it.
pub open spec fn kind_text(k: TokenKind) -> Seq<char> {
    match k {
        TokenKind::Ident => "Ident"@,
        TokenKind::Number => "Number"@,
        TokenKind::LParen => "LParen"@,
        TokenKind::RParen => "RParen"@,
        TokenKind::Comma => "Comma"@,
        TokenKind::Whitespace => "Whitespace"@,
        TokenKind::Eof => "Eof"@,
        TokenKind::ErrorUnexpected(c) => "ErrorUnexpected("@ + char_debug(c) + ")"@,
    }
}

/// The names of `list`, separated by `, `.
pub open spec fn joined_kinds(list: Seq<TokenKind>) -> Seq<char>
    decreases list.len(),
{
    if list.len() == 0 {
        Seq::empty()
    } else if list.len() == 1 {
        kind_text(list[0])
    } else {
        joined_kinds(list.drop_last()) + ", "@ + kind_text(list.last())
    }
}

pub open spec fn list_text(list: Seq<TokenKind>) -> Seq<char> {
    "["@ + joined_kinds(list) + "]"@
}

pub open spec fn expected_message(expected: TokenKind, actual: TokenKind) -> Seq<char> {
    "expected token of kind `"@ + kind_text(expected) + "`, instead got `"@ + kind_text(actual)
        + "`"@
}

pub open spec fn expected_any_message(list: Seq<TokenKind>, actual: TokenKind) -> Seq<char> {
    "expected token of kind in `"@ + list_text(list) + "`, instead got `"@ + kind_text(actual)
        + "`"@
}

pub open spec fn next_bit_message(actual: TokenKind) -> Seq<char> {
    "expected next bit, instead got token of kind `"@ + kind_text(actual) + "`"@
}

/// The value of a string of decimal digits.
pub open spec fn digits_value(s: Seq<char>) -> nat
    decreases s.len(),
{
    if s.len() == 0 {
        0
    } else {
        digits_value(s.drop_last()) * 10 + ((s.last() as nat) - ('0' as nat)) as nat
    }
}

pub open spec fn all_digits(s: Seq<char>) -> bool {
    forall|i: int| 0 <= i < s.len() ==> is_digit(#[trigger] s[i])
}

/// The number that `s` spells as an unsigned machine integer: an optional
/// `+`, then at least one decimal digit, with a value that fits in `usize`.
pub open spec fn number_value(s: Seq<char>) -> Option<nat> {
    let d = if s.len() > 0 && s[0] == '+' {
        s.drop_first()
    } else {
        s
    };
    if d.len() > 0 && all_digits(d) && digits_value(d) <= usize::MAX {
        Some(digits_value(d))
    } else {
        None
    }
}

proof fn lemma_digits_prefix(s: Seq<char>, i: int)
    requires
        0 <= i <= s.len(),
        all_digits(s),
    ensures
        digits_value(s.take(i)) <= digits_value(s),
    decreases s.len() - i,
{
    if i < s.len() {
        assert(s.drop_last().take(i) =~= s.take(i)) by {
            assert(i <= s.drop_last().len());
        }
        let t = s.drop_last();
        assert(all_digits(t)) by {
            assert forall|j: int| 0 <= j < t.len() implies is_digit(#[trigger] t[j]) by {
                assert(t[j] == s[j]);
            }
        }
        lemma_digits_prefix(t, i);
        assert(digits_value(s) >= digits_value(t));
    } else {
        assert(s.take(i) =~= s);
    }
}

/// Reads `text` as an unsigned number, as `str::parse::<usize>` does.
pub fn parse_decimal(text: &str) -> (r: Option<usize>)
    ensures
        match number_value(text@) {
            Some(v) => r == Some(v as usize),
            None => r is None,
        },
{
    let all = chars_of(text);
    let mut i: usize = 0;
    if all.len() > 0 && all[0] == '+' {
        i = 1;
    }
    let ghost d = if all@.len() > 0 && all@[0] == '+' {
        all@.drop_first()
    } else {
        all@
    };
    let start = i;
    if start == all.len() {
        return None;
    }
    let mut value: usize = 0;
    while i < all.len()
        invariant
            start <= i <= all.len(),
            start < all.len(),
            d == all@.skip(start as int),
            all@ == text@,
            d == (if text@.len() > 0 && text@[0] == '+' {
                text@.drop_first()
            } else {
                text@
            }),
            value == digits_value(d.take(i - start)),
            all_digits(d.take(i - start)),
        decreases all.len() - i,
    {
        let c = all[i];
        assert(d[i - start] == c);
        assert(d.take(i - start + 1).drop_last() =~= d.take(i - start));
        assert(d.take(i - start + 1).last() == c);
        if c < '0' || c > '9' {
            assert(!is_digit(d[i - start]));
            assert(!all_digits(d));
            return None;
        }
        let digit = (c as u32 - '0' as u32) as usize;
        let next = match value.checked_mul(10) {
            Some(m) => m.checked_add(digit),
            None => None,
        };
        assert(all_digits(d.take(i - start + 1)));
        match next {
            Some(v) => {
                value = v;
            },
            None => {
                proof {
                    assert(digits_value(d.take(i - start + 1)) == value * 10 + digit);
                    if all_digits(d) {
                        lemma_digits_prefix(d, i - start + 1);
                        assert(digits_value(d) > usize::MAX);
                    }
                }
                return None;
            },
        }
        i = i + 1;
    }
    assert(d.take(i - start) =~= d);
    Some(value)
}

/// The name of a token kind, as diagnostics write it.
fn kind_label(k: TokenKind) -> (r: String)
    ensures
        r@ == kind_text(k),
{
    match k {
        TokenKind::Ident => String::from_str("Ident"),
        TokenKind::Number => String::from_str("Number"),
        TokenKind::LParen => String::from_str("LParen"),
        TokenKind::RParen => String::from_str("RParen"),
        TokenKind::Comma => String::from_str("Comma"),
        TokenKind::Whitespace => String::from_str("Whitespace"),
        TokenKind::Eof => String::from_str("Eof"),
        TokenKind::ErrorUnexpected(c) => {
            let mut r = String::from_str("ErrorUnexpected(");
            r.append(debug_char(c).as_str());
            r.append(")");
            r
        },
    }
}

/// The names of `list` in brackets, separated by `, `.
fn list_label(list: &[TokenKind]) -> (r: String)
    ensures
        r@ == list_text(list@),
{
    let mut r = String::from_str("[");
    let mut i: usize = 0;
    while i < list.len()
        invariant
            i <= list.len(),
            r@ == "["@ + joined_kinds(list@.take(i as int)),
        decreases list.len() - i,
    {
        assert(list@.take(i + 1).drop_last() =~= list@.take(i as int));
        assert(list@.take(i + 1).last() == list@[i as int]);
        if i > 0 {
            r.append(", ");
        } else {
            assert(list@.take(0) =~= Seq::<TokenKind>::empty());
        }
        let label = kind_label(list[i]);
        r.append(label.as_str());
        proof {
            if i == 0 {
                assert(("["@ + Seq::<char>::empty()) + kind_text(list@[0]) =~= "["@ + kind_text(
                    list@[0],
                ));
            } else {
                assert(r@ =~= "["@ + joined_kinds(list@.take(i + 1)));
            }
        }
        i = i + 1;
    }
    assert(list@.take(i as int) =~= list@);
    r.append("]");
    r
}

fn expected_label(expected: TokenKind, actual: TokenKind) -> (r: String)
    ensures
        r@ == expected_message(expected, actual),
{
    let mut r = String::from_str("expected token of kind `");
    r.append(kind_label(expected).as_str());
    r.append("`, instead got `");
    r.append(kind_label(actual).as_str());
    r.append("`");
    r
}

fn expected_any_label(list: &[TokenKind], actual: TokenKind) -> (r: String)
    ensures
        r@ == expected_any_message(list@, actual),
{
    let mut r = String::from_str("expected token of kind in `");
    r.append(list_label(list).as_str());
    r.append("`, instead got `");
    r.append(kind_label(actual).as_str());
    r.append("`");
    r
}

fn next_bit_label(actual: TokenKind) -> (r: String)
    ensures
        r@ == next_bit_message(actual),
{
    let mut r = String::from_str("expected next bit, instead got token of kind `");
    r.append(kind_label(actual).as_str());
    r.append("`");
    r
}

/// The kind of the token at `pos`; past the end, `Eof`.
pub open spec fn kind_at(ts: Seq<Token>, pos: int) -> TokenKind {
    if 0 <= pos < ts.len() {
        ts[pos].kind
    } else {
        TokenKind::Eof
    }
}

/// The span of the token at `pos`; past the end, the empty span at the end of `src`.
pub open spec fn span_at(ts: Seq<Token>, src: Seq<char>, pos: int) -> Span {
    if 0 <= pos < ts.len() {
        ts[pos].span
    } else {
        Span { start: byte_len(src) as usize, end: byte_len(src) as usize }
    }
}

pub open spec fn token_text(src: Seq<char>, t: Token) -> Seq<char> {
    text_between(src, t.span.start as int, t.span.end as int)
}

/// The error for a token of another kind than `expected` at `pos`.
pub open spec fn mismatch(ts: Seq<Token>, src: Seq<char>, pos: int, expected: TokenKind) -> Diag {
    Diag { message: expected_message(expected, kind_at(ts, pos)), span: span_at(ts, src, pos) }
}

/// Every token's span lies in `src`, between characters.
pub open spec fn tokens_fit(ts: Seq<Token>, src: Seq<char>) -> bool {
    forall|i: int|
        0 <= i < ts.len() ==> bytes_between_chars(
            src,
            #[trigger] ts[i].span.start as int,
            ts[i].span.end as int,
        )
}

/// A number token at `pos`: its value and span.
pub open spec fn p_number(ts: Seq<Token>, src: Seq<char>, pos: int) -> Result<(nat, Span), Diag> {
    if kind_at(ts, pos) != TokenKind::Number {
        Err(mismatch(ts, src, pos, TokenKind::Number))
    } else {
        match number_value(token_text(src, ts[pos])) {
            Some(n) => Ok((n, ts[pos].span)),
            None => Err(Diag { message: "unparsable number"@, span: ts[pos].span }),
        }
    }
}

/// `count` bits from `pos` on.
pub open spec fn p_bits(ts: Seq<Token>, src: Seq<char>, pos: int, count: nat) -> Result<
    Seq<bool>,
    Diag,
>
    decreases count,
{
    if count == 0 {
        Ok(Seq::empty())
    } else if kind_at(ts, pos) != TokenKind::Number {
        Err(Diag { message: next_bit_message(kind_at(ts, pos)), span: span_at(ts, src, pos) })
    } else {
        match p_number(ts, src, pos) {
            Err(d) => Err(d),
            Ok((v, sp)) => if v == 0 || v == 1 {
                prepend(seq![v == 1], p_bits(ts, src, pos + 1, (count - 1) as nat))
            } else {
                Err(Diag { message: "invalid bit, must be `0` or `1`"@, span: sp })
            },
        }
    }
}

pub open spec fn prepend<T>(front: Seq<T>, r: Result<Seq<T>, Diag>) -> Result<Seq<T>, Diag> {
    match r {
        Ok(rest) => Ok(front + rest),
        Err(d) => Err(d),
    }
}

pub open spec fn too_many_message() -> Seq<char> {
    "can't declare more than 26 params"@
}

/// The argument count at `pos` and the bits that follow it.
pub open spec fn p_control(ts: Seq<Token>, src: Seq<char>, pos: int) -> Result<Seq<bool>, Diag> {
    match p_number(ts, src, pos) {
        Err(d) => Err(d),
        Ok((n, sp)) => if n > MAX_ARG_COUNT {
            Err(Diag { message: too_many_message(), span: sp })
        } else {
            p_bits(ts, src, pos + 1, n)
        },
    }
}

proof fn lemma_bits_len(ts: Seq<Token>, src: Seq<char>, pos: int, count: nat)
    ensures
        p_bits(ts, src, pos, count) is Ok ==> p_bits(ts, src, pos, count)->Ok_0.len() == count,
    decreases count,
{
    if count > 0 {
        lemma_bits_len(ts, src, pos + 1, (count - 1) as nat);
    }
}

proof fn lemma_control_len(ts: Seq<Token>, src: Seq<char>, pos: int)
    ensures
        p_control(ts, src, pos) is Ok ==> p_control(ts, src, pos)->Ok_0.len() <= MAX_ARG_COUNT,
{
    match p_number(ts, src, pos) {
        Ok((n, _)) => {
            lemma_bits_len(ts, src, pos + 1, n);
        },
        Err(_) => {},
    }
}

/// An expression from `pos` on, with the position just past it.
pub open spec fn p_expr(ts: Seq<Token>, src: Seq<char>, pos: int) -> Result<(Tree, int), Diag>
    decreases ts.len() - pos, 0int,
{
    if kind_at(ts, pos) != TokenKind::Ident {
        Err(mismatch(ts, src, pos, TokenKind::Ident))
    } else {
        let name = token_text(src, ts[pos]);
        let nsp = ts[pos].span;
        if kind_at(ts, pos + 1) != TokenKind::LParen {
            Ok((Tree::Var { name, name_span: nsp, span: nsp }, pos + 1))
        } else {
            p_call(ts, src, pos + 1, name, nsp)
        }
    }
}

/// A call of `name` whose opening parenthesis is at `pos`, with the position
/// just past its closing parenthesis.
pub open spec fn p_call(ts: Seq<Token>, src: Seq<char>, pos: int, name: Seq<char>, nsp: Span) -> Result<
    (Tree, int),
    Diag,
>
    decreases ts.len() - pos, 3int,
{
    if kind_at(ts, pos) != TokenKind::LParen {
        Err(mismatch(ts, src, pos, TokenKind::LParen))
    } else {
        match p_args(ts, src, pos + 1) {
            Err(d) => Err(d),
            Ok((kids, q)) => if kind_at(ts, q) == TokenKind::RParen {
                Ok(
                    (
                        Tree::App {
                            name,
                            name_span: nsp,
                            args: kids,
                            span: nsp.merge(span_at(ts, src, q)),
                        },
                        q + 1,
                    ),
                )
            } else {
                Err(mismatch(ts, src, q, TokenKind::RParen))
            },
        }
    }
}

pub open spec fn prepend_args(front: Seq<Tree>, r: Result<(Seq<Tree>, int), Diag>) -> Result<
    (Seq<Tree>, int),
    Diag,
> {
    match r {
        Ok((rest, q)) => Ok((front + rest, q)),
        Err(d) => Err(d),
    }
}

/// The arguments of a call from `pos` on, up to the closing parenthesis,
/// with the position of that parenthesis: none, or a list of them.
pub open spec fn p_args(ts: Seq<Token>, src: Seq<char>, pos: int) -> Result<(Seq<Tree>, int), Diag>
    decreases ts.len() - pos, 2int,
{
    if kind_at(ts, pos) == TokenKind::RParen {
        Ok((Seq::empty(), pos))
    } else {
        p_list(ts, src, pos)
    }
}

/// Expressions separated by commas from `pos` on, up to the closing
/// parenthesis, with the position of that parenthesis.
pub open spec fn p_list(ts: Seq<Token>, src: Seq<char>, pos: int) -> Result<(Seq<Tree>, int), Diag>
    decreases ts.len() - pos, 1int,
{
    match p_expr(ts, src, pos) {
        Err(d) => Err(d),
        Ok((e, q)) => if kind_at(ts, q) == TokenKind::Comma {
            if q < pos {
                Err(mismatch(ts, src, q, TokenKind::Comma))
            } else {
                prepend_args(seq![e], p_list(ts, src, q + 1))
            }
        } else if kind_at(ts, q) == TokenKind::RParen {
            Ok((seq![e], q))
        } else {
            Err(
                Diag {
                    message: expected_any_message(
                        seq![TokenKind::Comma, TokenKind::RParen],
                        kind_at(ts, q),
                    ),
                    span: span_at(ts, src, q),
                },
            )
        },
    }
}

/// What `parse` returns: the expression and the declared bits.
pub open spec fn p_program(ts: Seq<Token>, src: Seq<char>) -> Result<(Tree, Seq<bool>), Diag> {
    match p_control(ts, src, 0) {
        Err(d) => Err(d),
        Ok(bits) => match p_expr(ts, src, 1 + bits.len() as int) {
            Err(d) => Err(d),
            Ok((e, q)) => if kind_at(ts, q) == TokenKind::Eof {
                Ok((e, bits))
            } else {
                Err(mismatch(ts, src, q, TokenKind::Eof))
            },
        },
    }
}

/// Parses the token sequence of `src` into a program.
pub fn parse(src: &str, tokens: &[Token]) -> (r: PResult<Program>)
    requires
        tokens_fit(tokens@, src@),
    ensures
        match p_program(tokens@, src@) {
            Ok((e, bits)) => r is Ok && tree_of(r->Ok_0.expr) == e && r->Ok_0.args@ == bits,
            Err(d) => r is Err && r->Err_0@ == d,
        },
        r is Ok ==> r->Ok_0.args.len() <= MAX_ARG_COUNT,
{
    proof {
        lemma_control_len(tokens@, src@, 0);
    }
    let end = src.as_bytes().len();
    proof {
        assert(src.spec_bytes() == encode_utf8(src@));
    }
    let mut p = Parser { tokens, pos: 0, src, end };
    p.parse_program()
}

/// A cursor over the tokens of `src`.
struct Parser<'a> {
    tokens: &'a [Token],
    pos: usize,
    src: &'a str,
    end: usize,
}

impl<'a> Parser<'a> {
    spec fn wf(&self) -> bool {
        &&& self.pos <= self.tokens@.len()
        &&& self.end == byte_len(self.src@)
        &&& tokens_fit(self.tokens@, self.src@)
    }

    spec fn same_input(&self, other: &Parser<'a>) -> bool {
        &&& self.tokens@ == other.tokens@
        &&& self.src@ == other.src@
        &&& self.end == other.end
    }

    spec fn ts(&self) -> Seq<Token> {
        self.tokens@
    }

    spec fn text(&self) -> Seq<char> {
        self.src@
    }

    fn parse_program(&mut self) -> (r: PResult<Program>)
        requires
            old(self).wf(),
            old(self).pos == 0,
        ensures
            match p_program(old(self).ts(), old(self).text()) {
                Ok((e, bits)) => r is Ok && tree_of(r->Ok_0.expr) == e && r->Ok_0.args@ == bits,
                Err(d) => r is Err && r->Err_0@ == d,
            },
    {
        let args = match self.parse_control() {
            Ok(a) => a,
            Err(e) => return Err(e),
        };
        let expr = match self.parse_expr() {
            Ok(x) => x,
            Err(e) => return Err(e),
        };
        match self.consume(TokenKind::Eof) {
            Ok(_) => {},
            Err(e) => return Err(e),
        }
        Ok(Program { expr, args })
    }

    fn parse_expr(&mut self) -> (r: PResult<Expr>)
        requires
            old(self).wf(),
        ensures
            final(self).wf(),
            final(self).same_input(old(self)),
            match p_expr(old(self).ts(), old(self).text(), old(self).pos as int) {
                Ok((t, q)) => r is Ok && tree_of(r->Ok_0) == t && final(self).pos == q && old(
                    self,
                ).pos < q,
                Err(d) => r is Err && r->Err_0@ == d,
            },
        decreases self.tokens@.len() - self.pos, 2int,
    {
        let ident = match self.parse_ident() {
            Ok(i) => i,
            Err(e) => return Err(e),
        };
        if self.is(TokenKind::LParen) {
            assert(bytes_between_chars(
                self.text(),
                self.ts()[self.pos - 1].span.start as int,
                self.ts()[self.pos - 1].span.end as int,
            ));
            self.parse_app_expr(ident)
        } else {
            Ok(Expr { span: ident.span, kind: ExprKind::Var(ident) })
        }
    }

    fn parse_app_expr(&mut self, ident: Ident) -> (r: PResult<Expr>)
        requires
            old(self).wf(),
            kind_at(old(self).ts(), old(self).pos as int) == TokenKind::LParen,
            ident.span.wf(),
        ensures
            final(self).wf(),
            final(self).same_input(old(self)),
            match p_call(old(self).ts(), old(self).text(), old(self).pos as int, ident.ident@, ident.span) {
                Ok((t, q)) => r is Ok && tree_of(r->Ok_0) == t && final(self).pos == q && old(
                    self,
                ).pos < q,
                Err(d) => r is Err && r->Err_0@ == d,
            },
        decreases self.tokens@.len() - self.pos, 1int,
    {
        match self.consume(TokenKind::LParen) {
            Ok(_) => {},
            Err(e) => return Err(e),
        }
        let args = match self.parse_app_args() {
            Ok(a) => a,
            Err(e) => return Err(e),
        };
        let ghost at = self.pos as int;
        let r_paren = match self.consume(TokenKind::RParen) {
            Ok(t) => t,
            Err(e) => return Err(e),
        };
        assert(bytes_between_chars(
            self.text(),
            self.ts()[at].span.start as int,
            self.ts()[at].span.end as int,
        ));
        Ok(Expr { span: ident.span.to(r_paren.span), kind: ExprKind::App(ident, args) })
    }

    fn parse_app_args(&mut self) -> (r: PResult<Vec<Expr>>)
        requires
            old(self).wf(),
        ensures
            final(self).wf(),
            final(self).same_input(old(self)),
            match p_args(old(self).ts(), old(self).text(), old(self).pos as int) {
                Ok((kids, q)) => r is Ok && trees_of(r->Ok_0@) == kids && final(self).pos == q
                    && old(self).pos <= q,
                Err(d) => r is Err && r->Err_0@ == d,
            },
        decreases self.tokens@.len() - self.pos, 3int,
    {
        let ghost start = self.pos as int;
        let ghost ts = self.ts();
        let ghost text = self.text();
        let mut args: Vec<Expr> = Vec::new();
        proof {
            lemma_trees_of(args@);
            assert(trees_of(args@) =~= Seq::<Tree>::empty());
        }
        if self.is(TokenKind::RParen) {
            return Ok(args);
        }
        assert(prepend_args(Seq::empty(), p_list(ts, text, start)) =~= p_list(ts, text, start));
        loop
            invariant
                self.wf(),
                self.ts() == ts,
                self.text() == text,
                self.end == old(self).end,
                ts == old(self).ts(),
                text == old(self).text(),
                start == old(self).pos,
                start <= self.pos,
                p_args(ts, text, start) == p_list(ts, text, start),
                p_list(ts, text, start) == prepend_args(trees_of(args@), p_list(ts, text, self.pos as int)),
            decreases ts.len() - self.pos,
        {
            let ghost here = self.pos as int;
            let e = match self.parse_expr() {
                Ok(e) => e,
                Err(err) => return Err(err),
            };
            let ghost q = self.pos as int;
            let list: [TokenKind; 2] = [TokenKind::Comma, TokenKind::RParen];
            assert(list@ == seq![TokenKind::Comma, TokenKind::RParen]);
            match self.expect_of(list.as_slice()) {
                Ok(TokenKind::Comma) => {
                    self.next();
                    let ghost old_args = args@;
                    proof {
                        lemma_trees_of(old_args);
                        lemma_trees_of(old_args.push(e));
                        assert(trees_of(old_args.push(e)) =~= trees_of(old_args) + seq![tree_of(e)]);
                    }
                    args.push(e);
                    proof {
                        let rest = p_list(ts, text, q + 1);
                        assert(p_list(ts, text, here) == prepend_args(seq![tree_of(e)], rest));
                        match rest {
                            Ok((more, z)) => {
                                assert(trees_of(args@) + more =~= trees_of(old_args) + (seq![
                                    tree_of(e),
                                ] + more));
                            },
                            Err(_) => {},
                        }
                    }
                },
                Ok(_) => {
                    proof {
                        let old_args = args@;
                        lemma_trees_of(old_args);
                        lemma_trees_of(old_args.push(e));
                        assert(trees_of(old_args.push(e)) =~= trees_of(old_args) + seq![tree_of(e)]);
                    }
                    args.push(e);
                    return Ok(args);
                },
                Err(err) => return Err(err),
            }
        }
    }

    fn parse_control(&mut self) -> (r: PResult<Vec<bool>>)
        requires
            old(self).wf(),
        ensures
            final(self).wf(),
            final(self).same_input(old(self)),
            match p_control(old(self).ts(), old(self).text(), old(self).pos as int) {
                Ok(bits) => r is Ok && r->Ok_0@ == bits && final(self).pos == old(self).pos + 1
                    + bits.len(),
                Err(d) => r is Err && r->Err_0@ == d,
            },
    {
        let (arg_count, arg_count_span) = match self.parse_number() {
            Ok(n) => n,
            Err(e) => return Err(e),
        };
        if arg_count > MAX_ARG_COUNT {
            return Err(self.error_at(String::from_str("can't declare more than 26 params"), arg_count_span));
        }
        let ghost p0 = self.pos as int;
        let mut args: Vec<bool> = Vec::new();
        let mut i: usize = 0;
        while i < arg_count
            invariant
                self.wf(),
                i <= arg_count <= MAX_ARG_COUNT,
                self.pos == p0 + i,
                p_bits(self.ts(), self.text(), p0, arg_count as nat) == prepend(
                    args@,
                    p_bits(self.ts(), self.text(), self.pos as int, (arg_count - i) as nat),
                ),
                args@.len() == i,
                self.same_input(old(self)),
                p0 == old(self).pos + 1,
                p_control(old(self).ts(), old(self).text(), old(self).pos as int) == p_bits(
                    self.ts(),
                    self.text(),
                    p0,
                    arg_count as nat,
                ),
            decreases arg_count - i,
        {
            if !self.is(TokenKind::Number) {
                let kind = self.peek().kind;
                return Err(self.error_at_next(next_bit_label(kind)));
            }
            let (bit, span) = match self.parse_number() {
                Ok(n) => n,
                Err(e) => return Err(e),
            };
            if bit == 0 || bit == 1 {
                let ghost old_args = args@;
                args.push(bit == 1);
                proof {
                    let rest = p_bits(self.ts(), self.text(), self.pos as int, (arg_count - i - 1) as nat);
                    match rest {
                        Ok(more) => {
                            assert(old_args + (seq![bit == 1] + more) =~= args@ + more);
                        },
                        Err(_) => {},
                    }
                }
            } else {
                return Err(self.error_at(String::from_str("invalid bit, must be `0` or `1`"), span));
            }
            i = i + 1;
        }
        Ok(args)
    }

    fn parse_number(&mut self) -> (r: PResult<(usize, Span)>)
        requires
            old(self).wf(),
        ensures
            final(self).wf(),
            final(self).same_input(old(self)),
            match p_number(old(self).ts(), old(self).text(), old(self).pos as int) {
                Ok((n, sp)) => r == Ok::<(usize, Span), Error>((n as usize, sp)) && final(self).pos
                    == old(self).pos + 1,
                Err(d) => r is Err && r->Err_0@ == d,
            },
    {
        let number_t = match self.consume(TokenKind::Number) {
            Ok(t) => t,
            Err(e) => return Err(e),
        };
        match parse_decimal(number_t.lexme(self.src)) {
            Some(n) => Ok((n, number_t.span)),
            None => Err(self.error_at(String::from_str("unparsable number"), number_t.span)),
        }
    }

    fn parse_ident(&mut self) -> (r: PResult<Ident>)
        requires
            old(self).wf(),
        ensures
            final(self).wf(),
            final(self).same_input(old(self)),
            kind_at(old(self).ts(), old(self).pos as int) == TokenKind::Ident ==> r is Ok
                && r->Ok_0.ident@ == token_text(old(self).text(), old(self).ts()[old(self).pos as int])
                && r->Ok_0.span == old(self).ts()[old(self).pos as int].span
                && final(self).pos == old(self).pos + 1,
            kind_at(old(self).ts(), old(self).pos as int) != TokenKind::Ident ==> r is Err
                && r->Err_0@ == mismatch(old(self).ts(), old(self).text(), old(self).pos as int, TokenKind::Ident),
    {
        let ident_t = match self.consume(TokenKind::Ident) {
            Ok(t) => t,
            Err(e) => return Err(e),
        };
        let ident = String::from_str(ident_t.lexme(self.src));
        Ok(Ident { span: ident_t.span, ident })
    }

    /// Advances past the next token and returns it; at the end, stays there
    /// and returns `Eof`.
    fn next(&mut self) -> (t: Token)
        requires
            old(self).wf(),
        ensures
            final(self).wf(),
            final(self).same_input(old(self)),
            t.kind == kind_at(old(self).ts(), old(self).pos as int),
            t.span == span_at(old(self).ts(), old(self).text(), old(self).pos as int),
            final(self).pos == if old(self).pos < old(self).ts().len() {
                old(self).pos + 1
            } else {
                old(self).pos as int
            },
    {
        let t = self.peek();
        if self.pos < self.tokens.len() {
            self.pos = self.pos + 1;
        }
        t
    }

    /// The next token, without advancing.
    fn peek(&self) -> (t: Token)
        requires
            self.wf(),
        ensures
            t.kind == kind_at(self.ts(), self.pos as int),
            t.span == span_at(self.ts(), self.text(), self.pos as int),
    {
        if self.pos < self.tokens.len() {
            self.tokens[self.pos]
        } else {
            Token { kind: TokenKind::Eof, span: Span::new(self.end, self.end) }
        }
    }

    /// Whether the next token is of kind `kind`.
    fn is(&self, kind: TokenKind) -> (r: bool)
        requires
            self.wf(),
        ensures
            r == (kind_at(self.ts(), self.pos as int) == kind),
    {
        self.peek().kind == kind
    }

    /// The kind of the next token, if `list` holds it.
    fn is_of(&self, list: &[TokenKind]) -> (r: Option<TokenKind>)
        requires
            self.wf(),
        ensures
            r == if list@.contains(kind_at(self.ts(), self.pos as int)) {
                Some(kind_at(self.ts(), self.pos as int))
            } else {
                None::<TokenKind>
            },
    {
        let mut i: usize = 0;
        while i < list.len()
            invariant
                self.wf(),
                i <= list.len(),
                forall|j: int| 0 <= j < i ==> list@[j] != kind_at(self.ts(), self.pos as int),
            decreases list.len() - i,
        {
            if self.is(list[i]) {
                return Some(list[i]);
            }
            i = i + 1;
        }
        None
    }

    /// Fails unless the next token is of kind `kind`.
    fn expect(&self, kind: TokenKind) -> (r: PResult<()>)
        requires
            self.wf(),
        ensures
            kind_at(self.ts(), self.pos as int) == kind ==> r is Ok,
            kind_at(self.ts(), self.pos as int) != kind ==> r is Err && r->Err_0@ == mismatch(
                self.ts(),
                self.text(),
                self.pos as int,
                kind,
            ),
    {
        if self.is(kind) {
            Ok(())
        } else {
            let actual = self.peek().kind;
            Err(self.error_at_next(expected_label(kind, actual)))
        }
    }

    /// The kind of the next token; fails unless `list` holds it.
    fn expect_of(&self, list: &[TokenKind]) -> (r: PResult<TokenKind>)
        requires
            self.wf(),
        ensures
            list@.contains(kind_at(self.ts(), self.pos as int)) ==> r == Ok::<TokenKind, Error>(
                kind_at(self.ts(), self.pos as int),
            ),
            !list@.contains(kind_at(self.ts(), self.pos as int)) ==> r is Err && r->Err_0@ == (
            Diag {
                message: expected_any_message(list@, kind_at(self.ts(), self.pos as int)),
                span: span_at(self.ts(), self.text(), self.pos as int),
            }),
    {
        match self.is_of(list) {
            Some(k) => Ok(k),
            None => {
                let actual = self.peek().kind;
                Err(self.error_at_next(expected_any_label(list, actual)))
            },
        }
    }

    /// Takes the next token if it is of kind `kind`; otherwise fails.
    fn consume(&mut self, kind: TokenKind) -> (r: PResult<Token>)
        requires
            old(self).wf(),
        ensures
            final(self).wf(),
            final(self).same_input(old(self)),
            kind_at(old(self).ts(), old(self).pos as int) == kind ==> r is Ok && r->Ok_0.kind
                == kind && r->Ok_0.span == span_at(
                old(self).ts(),
                old(self).text(),
                old(self).pos as int,
            ) && final(self).pos == (if old(self).pos < old(self).ts().len() {
                old(self).pos + 1
            } else {
                old(self).pos as int
            }),
            kind_at(old(self).ts(), old(self).pos as int) != kind ==> r is Err && r->Err_0@
                == mismatch(old(self).ts(), old(self).text(), old(self).pos as int, kind)
                && final(self).pos == old(self).pos,
    {
        match self.expect(kind) {
            Ok(()) => {},
            Err(e) => return Err(e),
        }
        Ok(self.next())
    }

    fn error_at(&self, message: String, span: Span) -> (e: Error)
        ensures
            e@ == (Diag { message: message@, span }),
    {
        Error::new(message, span)
    }

    /// An error at the next token.
    fn error_at_next(&self, message: String) -> (e: Error)
        requires
            self.wf(),
        ensures
            e@ == (Diag { message: message@, span: span_at(self.ts(), self.text(), self.pos as int) }),
    {
        Error::new(message, self.peek().span)
    }
}

} // verus!

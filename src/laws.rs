use vstd::prelude::*;

use crate::ast::{Token, TokenKind, Tree};
use crate::lexer::{
    continues, is_digit, is_significant, kind_of, lemma_run_end, lemma_significant_cons, lex_spec,
    raw_tokens, run_end, significant, span_of, token_end,
};
use crate::evaluator::MAX_ARG_COUNT;
use crate::parser::{
    all_digits, digits_value, kind_at, number_value, p_bits, p_control, p_number, p_program,
    token_text, too_many_message,
};
use vstd::utf8::has_width_1_encoding;
use crate::text::{byte_len, byte_offset, lemma_offset_split, lemma_offset_step, lemma_text_between, text_between};
use crate::evaluator::{eval_fold, eval_tree, not_defined_message, single_argument_message};
use crate::util::{Diag, Span};

verus! {

/// `and()` is true and `or()` is false, whatever the arguments.
pub proof fn empty_and_or(args: Seq<bool>, name_span: Span, span: Span)
    ensures
        eval_tree(
            Tree::App { name: "and"@, name_span, args: Seq::empty(), span },
            args,
        ) == Ok::<bool, Diag>(true),
        eval_tree(
            Tree::App { name: "or"@, name_span, args: Seq::empty(), span },
            args,
        ) == Ok::<bool, Diag>(false),
{
    reveal_strlit("and");
    reveal_strlit("or");
    reveal_strlit("not");
    assert("and"@ != "not"@) by {
        assert("and"@[0] != "not"@[0]);
    }
    assert("or"@ != "not"@) by {
        assert("or"@.len() != "not"@.len());
    }
    assert("or"@ != "and"@) by {
        assert("or"@.len() != "and"@.len());
    }
    assert(eval_fold(Seq::empty(), args, true, true) == Ok::<bool, Diag>(true));
    assert(eval_fold(Seq::empty(), args, false, false) == Ok::<bool, Diag>(false));
}

/// `not` applied to two arguments fails with the single-argument error at
/// the name of the call, whatever the arguments are and whatever they denote.
pub proof fn not_takes_one(args: Seq<bool>, kids: Seq<Tree>, name_span: Span, span: Span)
    requires
        kids.len() == 2,
    ensures
        eval_tree(Tree::App { name: "not"@, name_span, args: kids, span }, args) == Err::<
            bool,
            Diag,
        >(Diag { message: single_argument_message("not"@), span: name_span }),
{
}

/// With no declared arguments, the variable `A` is not defined, and the
/// error points at the variable.
pub proof fn undeclared_variable(name_span: Span, span: Span)
    ensures
        eval_tree(Tree::Var { name: "A"@, name_span, span }, Seq::empty()) == Err::<bool, Diag>(
            Diag { message: not_defined_message("A"@), span: name_span },
        ),
{
    reveal_strlit("A");
}

/// The texts of the spans of `ts`, one after another.
pub open spec fn joined_texts(cs: Seq<char>, ts: Seq<Token>) -> Seq<char>
    decreases ts.len(),
{
    if ts.len() == 0 {
        Seq::empty()
    } else {
        text_between(cs, ts[0].span.start as int, ts[0].span.end as int) + joined_texts(
            cs,
            ts.drop_first(),
        )
    }
}

proof fn lemma_raw_tiles(cs: Seq<char>, k: int)
    requires
        0 <= k <= cs.len(),
        byte_len(cs) <= usize::MAX,
    ensures
        joined_texts(cs, raw_tokens(cs, k)) == cs.subrange(k, cs.len() as int),
        raw_tokens(cs, k).len() == 0 <==> k == cs.len(),
        raw_tokens(cs, k).len() > 0 ==> raw_tokens(cs, k)[0].span.start == byte_offset(cs, k),
        raw_tokens(cs, k).len() > 0 ==> raw_tokens(cs, k).last().span.end == byte_len(cs),
        forall|i: int|
            0 <= i < raw_tokens(cs, k).len() ==> (#[trigger] raw_tokens(cs, k)[i]).span.start
                < raw_tokens(cs, k)[i].span.end && raw_tokens(cs, k)[i].kind != TokenKind::Eof,
        forall|i: int|
            0 <= i < raw_tokens(cs, k).len() - 1 ==> (#[trigger] raw_tokens(cs, k)[i]).span.end
                == raw_tokens(cs, k)[i + 1].span.start,
    decreases cs.len() - k,
{
    let raw = raw_tokens(cs, k);
    if k == cs.len() {
        assert(cs.subrange(k, k) =~= Seq::<char>::empty());
    } else {
        let kind = kind_of(cs[k]);
        lemma_run_end(cs, k + 1, kind);
        let e = token_end(cs, k);
        let rest = raw_tokens(cs, e);
        lemma_raw_tiles(cs, e);
        lemma_offset_step(cs, k);
        lemma_offset_split(cs, k + 1, e);
        lemma_offset_split(cs, 0, e);
        lemma_offset_split(cs, 0, k);
        lemma_text_between(cs, k, e);
        let tok = Token { kind, span: span_of(cs, k, e) };
        assert(raw == seq![tok] + rest);
        assert(raw.drop_first() =~= rest);
        assert(cs.subrange(k, e) + cs.subrange(e, cs.len() as int) =~= cs.subrange(
            k,
            cs.len() as int,
        ));
        assert forall|i: int| 0 <= i < raw.len() - 1 implies (#[trigger] raw[i]).span.end == raw[i
            + 1].span.start by {
            if i > 0 {
                assert(raw[i] == rest[i - 1]);
            }
        }
        assert forall|i: int| 0 <= i < raw.len() implies (#[trigger] raw[i]).span.start
            < raw[i].span.end && raw[i].kind != TokenKind::Eof by {
            if i > 0 {
                assert(raw[i] == rest[i - 1]);
            }
        }
        if rest.len() > 0 {
            assert(raw.last() == rest.last());
        }
    }
}

/// Lexing covers the whole text: the tokens, whitespace included, are
/// non-empty, follow each other without gap from offset 0 to the end, and
/// their texts put together give back the text. What `lex` returns is those
/// tokens without the whitespace, then exactly one `Eof` with an empty span
/// at the end of the text.
pub proof fn lexing_tiles(cs: Seq<char>)
    requires
        byte_len(cs) <= usize::MAX,
    ensures
        joined_texts(cs, raw_tokens(cs, 0)) == cs,
        raw_tokens(cs, 0).len() > 0 ==> raw_tokens(cs, 0)[0].span.start == 0
            && raw_tokens(cs, 0).last().span.end == byte_len(cs),
        forall|i: int|
            0 <= i < raw_tokens(cs, 0).len() - 1 ==> (#[trigger] raw_tokens(cs, 0)[i]).span.end
                == raw_tokens(cs, 0)[i + 1].span.start,
        forall|i: int|
            0 <= i < raw_tokens(cs, 0).len() ==> (#[trigger] raw_tokens(cs, 0)[i]).span.start
                < raw_tokens(cs, 0)[i].span.end,
        lex_spec(cs) == significant(raw_tokens(cs, 0)).push(
            Token {
                kind: TokenKind::Eof,
                span: Span { start: byte_len(cs) as usize, end: byte_len(cs) as usize },
            },
        ),
        forall|i: int|
            0 <= i < lex_spec(cs).len() - 1 ==> (#[trigger] lex_spec(cs)[i]).kind
                != TokenKind::Eof,
{
    lemma_raw_tiles(cs, 0);
    lemma_offset_split(cs, 0, cs.len() as int);
    assert(cs.take(0) =~= Seq::<char>::empty());
    assert(cs.subrange(0, cs.len() as int) =~= cs);
    let raw = raw_tokens(cs, 0);
    let sig = significant(raw);
    assert forall|i: int| 0 <= i < lex_spec(cs).len() - 1 implies (#[trigger] lex_spec(
        cs,
    )[i]).kind != TokenKind::Eof by {
        assert(lex_spec(cs)[i] == sig[i]);
        assert(sig.contains(sig[i]));
        raw.lemma_filter_contains_rev(|t: Token| is_significant(t), sig[i]);
        let j = choose|j: int| 0 <= j < raw.len() && raw[j] == sig[i];
        assert(raw[j].kind != TokenKind::Eof);
    }
}

/// A run of characters that continue `kind` from `k` to `d`, stopped at `d`, ends there.
proof fn lemma_run_to(cs: Seq<char>, k: int, d: int, kind: TokenKind)
    requires
        0 <= k <= d <= cs.len(),
        forall|i: int| k <= i < d ==> continues(kind, #[trigger] cs[i]),
        d == cs.len() || !continues(kind, cs[d]),
    ensures
        run_end(cs, k, kind) == d,
    decreases d - k,
{
    if k < d {
        lemma_run_to(cs, k + 1, d, kind);
    }
}

/// Digits take one byte each.
proof fn lemma_digits_offset(cs: Seq<char>, d: int)
    requires
        0 <= d <= cs.len(),
        forall|i: int| 0 <= i < d ==> is_digit(#[trigger] cs[i]),
    ensures
        byte_offset(cs, d) == d,
    decreases d,
{
    if d == 0 {
        assert(cs.take(0) =~= Seq::<char>::empty());
    } else {
        lemma_digits_offset(cs, d - 1);
        lemma_offset_step(cs, d - 1);
        assert(is_digit(cs[d - 1]));
        assert(has_width_1_encoding(cs[d - 1] as u32));
    }
}

/// A text that starts with `d` digits lexes to a number token over them,
/// then the tokens of the rest.
proof fn lemma_leading_number(cs: Seq<char>, d: int)
    requires
        1 <= d <= cs.len(),
        forall|i: int| 0 <= i < d ==> is_digit(#[trigger] cs[i]),
        d == cs.len() || !is_digit(cs[d]),
    ensures
        raw_tokens(cs, 0) == seq![Token { kind: TokenKind::Number, span: span_of(cs, 0, d) }]
            + raw_tokens(cs, d),
        significant(raw_tokens(cs, 0)) == seq![
            Token { kind: TokenKind::Number, span: span_of(cs, 0, d) },
        ] + significant(raw_tokens(cs, d)),
        span_of(cs, 0, d) == (Span { start: 0, end: d as usize }),
        byte_offset(cs, d) == d,
        text_between(cs, 0, d) == cs.subrange(0, d),
{
    assert(is_digit(cs[0]));
    lemma_run_to(cs, 1, d, TokenKind::Number);
    lemma_significant_cons(
        Token { kind: TokenKind::Number, span: span_of(cs, 0, d) },
        raw_tokens(cs, d),
    );
    lemma_digits_offset(cs, d);
    lemma_digits_offset(cs, 0);
    lemma_text_between(cs, 0, d);
}

/// A declared count above the limit: a text that starts with a number of
/// value 27, whatever follows it, fails at that number with the limit error.
pub proof fn count_over_limit(cs: Seq<char>, d: int)
    requires
        byte_len(cs) <= usize::MAX,
        1 <= d <= cs.len(),
        forall|i: int| 0 <= i < d ==> is_digit(#[trigger] cs[i]),
        d == cs.len() || !is_digit(cs[d]),
        digits_value(cs.take(d)) == 27,
    ensures
        p_program(lex_spec(cs), cs) == Err::<(Tree, Seq<bool>), Diag>(
            Diag { message: too_many_message(), span: Span { start: 0, end: d as usize } },
        ),
{
    lemma_leading_number(cs, d);
    let ts = lex_spec(cs);
    assert(ts[0] == Token { kind: TokenKind::Number, span: span_of(cs, 0, d) });
    assert(cs.subrange(0, d) =~= cs.take(d));
    assert(all_digits(cs.take(d)));
    assert(number_value(cs.take(d)) == Some(27nat));
    lemma_offset_split(cs, 0, d);
    assert(d <= usize::MAX);
    let sp = Span { start: 0, end: d as usize };
    assert(ts[0].span.end as int == d);
    assert(kind_at(ts, 0) == TokenKind::Number);
    assert(ts[0].span == sp);
    assert(token_text(cs, ts[0]) == cs.take(d));
    assert(p_number(ts, cs, 0) == Ok::<(nat, Span), Diag>((27nat, sp)));
    assert(p_control(ts, cs, 0) == Err::<Seq<bool>, Diag>(
        Diag { message: too_many_message(), span: sp },
    ));
}

pub open spec fn bit_char(b: bool) -> char {
    if b {
        '1'
    } else {
        '0'
    }
}

/// The bits written out, each after a space.
pub open spec fn bits_text(bits: Seq<bool>) -> Seq<char>
    decreases bits.len(),
{
    if bits.len() == 0 {
        Seq::empty()
    } else {
        seq![' ', bit_char(bits[0])] + bits_text(bits.drop_first())
    }
}

/// The number tokens of `m` bits written from index `k` on.
pub open spec fn bit_tokens(cs: Seq<char>, k: int, m: nat) -> Seq<Token> {
    Seq::new(m, |i: int| Token { kind: TokenKind::Number, span: span_of(cs, k + 2 * i + 1, k + 2 * i + 2) })
}

proof fn lemma_bits_text(bits: Seq<bool>)
    ensures
        bits_text(bits).len() == 2 * bits.len(),
        forall|i: int|
            0 <= i < bits.len() ==> #[trigger] bits_text(bits)[2 * i] == ' ' && bits_text(bits)[2 * i
                + 1] == bit_char(bits[i]),
    decreases bits.len(),
{
    if bits.len() > 0 {
        let rest = bits.drop_first();
        lemma_bits_text(rest);
        assert forall|i: int| 0 <= i < bits.len() implies #[trigger] bits_text(bits)[2 * i] == ' '
            && bits_text(bits)[2 * i + 1] == bit_char(bits[i]) by {
            if i > 0 {
                assert(bits_text(bits)[2 * i] == bits_text(rest)[2 * (i - 1)]);
                assert(bits_text(bits)[2 * i + 1] == bits_text(rest)[2 * (i - 1) + 1]);
                assert(rest[i - 1] == bits[i]);
            }
        }
    }
}

/// The tokens of bits written from index `k` on, then ` A`.
proof fn lemma_bits_tail(cs: Seq<char>, k: int, bits: Seq<bool>)
    requires
        0 <= k <= cs.len(),
        cs.subrange(k, cs.len() as int) == bits_text(bits) + seq![' ', 'A'],
    ensures
        significant(raw_tokens(cs, k)) == bit_tokens(cs, k, bits.len()) + seq![
            Token {
                kind: TokenKind::Ident,
                span: span_of(cs, cs.len() - 1, cs.len() as int),
            },
        ],
    decreases bits.len(),
{
    let tail = cs.subrange(k, cs.len() as int);
    lemma_bits_text(bits);
    assert(tail.len() == 2 * bits.len() + 2);
    assert(cs[k] == tail[0]);
    assert(cs[k] == ' ');
    assert(cs[k + 1] == tail[1]);
    assert(cs[k + 1] != ' ') by {
        if bits.len() > 0 {
            assert(tail[1] == bit_char(bits[0]));
        }
    }
    lemma_run_to(cs, k + 1, k + 1, TokenKind::Whitespace);
    let ws = Token { kind: TokenKind::Whitespace, span: span_of(cs, k, k + 1) };
    assert(raw_tokens(cs, k) == seq![ws] + raw_tokens(cs, k + 1));
    lemma_significant_cons(ws, raw_tokens(cs, k + 1));
    if bits.len() == 0 {
        assert(cs.len() == k + 2);
        assert(cs[k + 1] == tail[1]);
        lemma_run_to(cs, k + 2, k + 2, TokenKind::Ident);
        let id = Token { kind: TokenKind::Ident, span: span_of(cs, k + 1, k + 2) };
        assert(raw_tokens(cs, k + 1) == seq![id] + raw_tokens(cs, k + 2));
        assert(raw_tokens(cs, k + 2) == Seq::<Token>::empty());
        lemma_significant_cons(id, raw_tokens(cs, k + 2));
        assert(significant(Seq::<Token>::empty()) =~= Seq::<Token>::empty()) by {
            reveal(Seq::filter);
        }
        assert(bit_tokens(cs, k, 0) =~= Seq::<Token>::empty());
        assert(seq![id] + Seq::<Token>::empty() =~= seq![id]);
    } else {
        let rest = bits.drop_first();
        lemma_bits_text(rest);
        assert(cs[k + 1] == tail[1]);
        assert(tail[1] == bit_char(bits[0]));
        assert(cs[k + 2] == tail[2]);
        assert(tail[2] == ' ') by {
            if rest.len() > 0 {
                assert(bits_text(rest)[0] == ' ');
            }
        }
        lemma_run_to(cs, k + 2, k + 2, TokenKind::Number);
        let num = Token { kind: TokenKind::Number, span: span_of(cs, k + 1, k + 2) };
        assert(raw_tokens(cs, k + 1) == seq![num] + raw_tokens(cs, k + 2));
        lemma_significant_cons(num, raw_tokens(cs, k + 2));
        let rest_tail = bits_text(rest) + seq![' ', 'A'];
        assert(bits_text(bits) == seq![' ', bit_char(bits[0])] + bits_text(rest));
        assert(tail =~= seq![' ', bit_char(bits[0])] + rest_tail);
        assert(cs.subrange(k + 2, cs.len() as int) =~= tail.subrange(2, tail.len() as int));
        assert(tail.subrange(2, tail.len() as int) =~= rest_tail);
        lemma_bits_tail(cs, k + 2, rest);
        assert(bit_tokens(cs, k, bits.len()) =~= seq![num] + bit_tokens(cs, k + 2, rest.len()));
    }
}

proof fn lemma_bits_parse(ts: Seq<Token>, cs: Seq<char>, d: int, bits: Seq<bool>, i: int)
    requires
        0 <= i <= bits.len(),
        0 <= d,
        d + 2 * bits.len() + 2 == cs.len(),
        byte_len(cs) <= usize::MAX,
        cs.subrange(d, cs.len() as int) == bits_text(bits) + seq![' ', 'A'],
        ts.len() == bits.len() + 3,
        forall|j: int| 0 <= j < bits.len() ==> #[trigger] ts[1 + j] == bit_tokens(cs, d, bits.len())[j],
    ensures
        p_bits(ts, cs, 1 + i, (bits.len() - i) as nat) == Ok::<Seq<bool>, Diag>(bits.skip(i)),
    decreases bits.len() - i,
{
    if i == bits.len() {
        assert(bits.skip(i) =~= Seq::<bool>::empty());
    } else {
        lemma_bits_parse(ts, cs, d, bits, i + 1);
        lemma_bits_text(bits);
        let a = d + 2 * i + 1;
        let t = ts[1 + i];
        assert(t == bit_tokens(cs, d, bits.len())[i]);
        lemma_offset_split(cs, 0, a);
        lemma_offset_split(cs, 0, a + 1);
        lemma_text_between(cs, a, a + 1);
        let c = cs[a];
        assert(cs.subrange(d, cs.len() as int)[2 * i + 1] == c);
        assert(c == (bits_text(bits) + seq![' ', 'A'])[2 * i + 1]);
        assert(bits_text(bits)[2 * i] == ' ');
        assert(bits_text(bits)[2 * i + 1] == bit_char(bits[i]));
        assert(c == bit_char(bits[i]));
        assert(token_text(cs, t) =~= seq![c]);
        assert(seq![c].drop_last() =~= Seq::<char>::empty());
        assert(seq![c].last() == c);
        assert(digits_value(Seq::<char>::empty()) == 0);
        assert(all_digits(seq![c]));
        let v: nat = if bits[i] {
            1
        } else {
            0
        };
        assert(digits_value(seq![c]) == v);
        assert(number_value(seq![c]) == Some(v));
        assert(p_number(ts, cs, 1 + i) == Ok::<(nat, Span), Diag>((v, t.span)));
        assert(seq![v == 1] + bits.skip(i + 1) =~= bits.skip(i));
    }
}

/// Declaring bits: a count `n` of at most 26 in decimal digits, then `n`
/// bits each after a space, then ` A`, lexes and parses, and the declared
/// arguments are those bits in order.
pub proof fn declared_bits_parse(count: Seq<char>, bits: Seq<bool>)
    requires
        count.len() > 0,
        all_digits(count),
        digits_value(count) == bits.len(),
        bits.len() <= MAX_ARG_COUNT,
        byte_len(count + bits_text(bits) + seq![' ', 'A']) <= usize::MAX,
    ensures
        p_program(
            lex_spec(count + bits_text(bits) + seq![' ', 'A']),
            count + bits_text(bits) + seq![' ', 'A'],
        ) is Ok,
        p_program(
            lex_spec(count + bits_text(bits) + seq![' ', 'A']),
            count + bits_text(bits) + seq![' ', 'A'],
        )->Ok_0.1 == bits,
{
    let tail = bits_text(bits) + seq![' ', 'A'];
    let cs = count + bits_text(bits) + seq![' ', 'A'];
    assert(cs =~= count + tail);
    let d = count.len() as int;
    let n = bits.len() as int;
    lemma_bits_text(bits);
    assert(cs.subrange(d, cs.len() as int) =~= tail);
    assert(cs.take(d) =~= count);
    assert forall|i: int| 0 <= i < d implies is_digit(#[trigger] cs[i]) by {
        assert(cs[i] == count[i]);
    }
    assert(cs[d] == tail[0]);
    assert(tail[0] == ' ') by {
        if n > 0 {
            assert(bits_text(bits)[0] == ' ');
        }
    }
    lemma_leading_number(cs, d);
    lemma_bits_tail(cs, d, bits);
    let len = cs.len() as int;
    let num = Token { kind: TokenKind::Number, span: span_of(cs, 0, d) };
    let id = Token { kind: TokenKind::Ident, span: span_of(cs, len - 1, len) };
    let ts = lex_spec(cs);
    assert(ts =~= (seq![num] + bit_tokens(cs, d, bits.len()) + seq![id]).push(
        Token { kind: TokenKind::Eof, span: span_of(cs, len, len) },
    ));
    assert forall|j: int| 0 <= j < n implies #[trigger] ts[1 + j] == bit_tokens(cs, d, bits.len())[j] by {
    }
    lemma_offset_split(cs, 0, d);
    assert(d <= usize::MAX);
    assert(token_text(cs, ts[0]) == count);
    assert(p_number(ts, cs, 0) == Ok::<(nat, Span), Diag>((bits.len(), num.span)));
    lemma_bits_parse(ts, cs, d, bits, 0);
    assert(bits.skip(0) =~= bits);
    assert(p_control(ts, cs, 0) == Ok::<Seq<bool>, Diag>(bits));
    assert(ts[n + 1] == id);
    assert(kind_at(ts, 1 + n) == TokenKind::Ident);
    assert(kind_at(ts, 2 + n) == TokenKind::Eof);
}

} // verus!

use vstd::prelude::*;
use vstd::string::StringSliceAdditionalSpecFns;
use vstd::utf8::*;

use crate::text::{bytes_between_chars, text_between};
use crate::util::Span;

verus! {

/// A parsed program: the declared argument bits and the expression to evaluate.
#[derive(Debug)]
pub struct Program {
    pub expr: Expr,
    pub args: Vec<bool>,
}

#[derive(Debug)]
pub struct Expr {
    pub kind: ExprKind,
    pub span: Span,
}

#[derive(Debug)]
pub enum ExprKind {
    Var(Ident),
    App(Ident, Vec<Expr>),
}

#[derive(Debug)]
pub struct Ident {
    pub ident: String,
    pub span: Span,
}

/// The mathematical shape of an expression: names as character sequences.
pub enum Tree {
    Var { name: Seq<char>, name_span: Span, span: Span },
    App { name: Seq<char>, name_span: Span, args: Seq<Tree>, span: Span },
}

pub open spec fn tree_of(e: Expr) -> Tree
    decreases e,
{
    match e.kind {
        ExprKind::Var(id) => Tree::Var { name: id.ident@, name_span: id.span, span: e.span },
        ExprKind::App(id, args) => Tree::App {
            name: id.ident@,
            name_span: id.span,
            args: trees_of(args@),
            span: e.span,
        },
    }
}

pub open spec fn trees_of(es: Seq<Expr>) -> Seq<Tree>
    decreases es,
{
    if es.len() == 0 {
        Seq::empty()
    } else {
        seq![tree_of(es[0])] + trees_of(es.drop_first())
    }
}

pub proof fn lemma_trees_of(es: Seq<Expr>)
    ensures
        trees_of(es).len() == es.len(),
        forall|i: int| 0 <= i < es.len() ==> #[trigger] trees_of(es)[i] == tree_of(es[i]),
    decreases es.len(),
{
    if es.len() > 0 {
        lemma_trees_of(es.drop_first());
        assert forall|i: int| 0 <= i < es.len() implies #[trigger] trees_of(es)[i] == tree_of(
            es[i],
        ) by {
            if i > 0 {
                assert(es.drop_first()[i - 1] == es[i]);
            }
        }
    }
}

pub proof fn lemma_trees_of_skip(es: Seq<Expr>, i: int)
    requires
        0 <= i < es.len(),
    ensures
        trees_of(es.skip(i)).len() > 0,
        trees_of(es.skip(i))[0] == tree_of(es[i]),
        trees_of(es.skip(i)).drop_first() == trees_of(es.skip(i + 1)),
{
    let x = es.skip(i);
    assert(x[0] == es[i]);
    assert(x.drop_first() =~= es.skip(i + 1));
    assert(trees_of(x) == seq![tree_of(x[0])] + trees_of(x.drop_first()));
    assert((seq![tree_of(x[0])] + trees_of(x.drop_first())).drop_first() =~= trees_of(x.drop_first()));
}

impl Expr {
    /// The direct subexpressions, in order.
    pub fn children(&self) -> (r: &[Expr])
        ensures
            r@ == match self.kind {
                ExprKind::App(_, args) => args@,
                ExprKind::Var(_) => Seq::<Expr>::empty(),
            },
    {
        match &self.kind {
            ExprKind::App(_, args) => args.as_slice(),
            ExprKind::Var(_) => &[],
        }
    }
}

#[derive(Debug, Clone, Copy, PartialEq, Eq, Structural)]
pub enum TokenKind {
    Ident,
    Number,
    LParen,
    RParen,
    Comma,
    Whitespace,
    Eof,
    ErrorUnexpected(char),
}

#[derive(Debug, Clone, Copy, PartialEq, Eq, Structural)]
pub struct Token {
    pub kind: TokenKind,
    pub span: Span,
}

proof fn lemma_boundary_in_suffix(bytes: Seq<u8>, start: int, end: int)
    requires
        valid_utf8(bytes),
        0 <= start <= end <= bytes.len(),
        is_char_boundary(bytes, start),
        is_char_boundary(bytes, end),
    ensures
        valid_utf8(bytes.subrange(start, bytes.len() as int)),
        is_char_boundary(bytes.subrange(start, bytes.len() as int), end - start),
{
    broadcast use valid_utf8_split, is_char_boundary_start_end_of_seq;

    let rest = bytes.subrange(start, bytes.len() as int);
    assert(valid_utf8(rest));
    if end < bytes.len() {
        is_char_boundary_iff_not_is_continuation_byte(bytes, end);
        is_char_boundary_iff_not_is_continuation_byte(rest, end - start);
    } else {
        assert(rest.len() == end - start);
    }
}

impl Token {
    pub fn new(kind: TokenKind, span: Span) -> (r: Token)
        ensures
            r.kind == kind,
            r.span == span,
    {
        Token { kind, span }
    }

    /// The source text that this token covers.
    pub fn lexme<'src>(&self, src: &'src str) -> (r: &'src str)
        requires
            bytes_between_chars(src@, self.span.start as int, self.span.end as int),
        ensures
            r@ == text_between(src@, self.span.start as int, self.span.end as int),
    {
        broadcast use encode_utf8_valid_utf8, encode_utf8_decode_utf8;

        let start = self.span.start;
        let end = self.span.end;
        proof {
            lemma_boundary_in_suffix(src.spec_bytes(), start as int, end as int);
        }
        let (_, rest) = src.split_at(start);
        let (mid, _) = rest.split_at(end - start);
        assert(mid.spec_bytes() =~= src.spec_bytes().subrange(start as int, end as int));
        mid
    }
}

} // verus!

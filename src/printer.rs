use vstd::prelude::*;
use vstd::string::{StrSliceExecFns, StringExecFns, StringSliceAdditionalSpecFns};
use vstd::utf8::encode_utf8;

use crate::ast::{lemma_trees_of_skip, tree_of, trees_of, Expr, ExprKind, Tree};
use crate::text::{byte_len, byte_offset, chars_of, lemma_offset_step, utf8_width};
use crate::util::{Error, Span};

verus! {

broadcast use vstd::seq::group_seq_axioms;

/// The colours that reports use.
pub enum Hue {
    Blue,
    Red,
}

/// `s` between the escape that selects the foreground colour `hue` and the
/// escape that resets all styles.
pub open spec fn painted(hue: Hue, s: Seq<char>) -> Seq<char> {
    let code = match hue {
        Hue::Blue => seq!['3', '4'],
        Hue::Red => seq!['3', '1'],
    };
    seq!['\x1b', '['] + code + seq!['m'] + s + seq!['\x1b', '[', '0', 'm']
}

/// Relies on ansi_term's `Colour::paint` and the `Display` of the painted
/// string, which writes the style's prefix `ESC[3Xm`, the text, and the
/// reset `ESC[0m`.
#[verifier::external_body]
fn paint(hue: Hue, s: &str) -> (r: String)
    ensures
        r@ == painted(hue, s@),
{
    let colour = match hue {
        Hue::Blue => ansi_term::Colour::Blue,
        Hue::Red => ansi_term::Colour::Red,
    };
    colour.paint(s).to_string()
}

/// How many terminal columns `s` takes.
pub uninterp spec fn display_width(s: Seq<char>) -> nat;

/// Relies on unicode_width's `UnicodeWidthStr::width`: the columns that the
/// text takes on a terminal; it depends on the characters alone, and the
/// empty text takes none.
#[verifier::external_body]
fn text_width(s: &str) -> (r: usize)
    ensures
        r == display_width(s@),
        s@.len() == 0 ==> r == 0,
{
    unicode_width::UnicodeWidthStr::width(s)
}

/// What the `Debug` formatting of a string writes.
pub uninterp spec fn str_debug(s: Seq<char>) -> Seq<char>;

/// Relies on std's `Debug` formatting of `str`: the text in double quotes,
/// escaped; it depends on the characters alone.
#[verifier::external_body]
fn debug_str(s: &str) -> (r: String)
    ensures
        r@ == str_debug(s@),
{
    format!("{s:?}")
}

/// `s`, `n` times.
pub open spec fn repeat_text(s: Seq<char>, n: nat) -> Seq<char>
    decreases n,
{
    if n == 0 {
        Seq::empty()
    } else {
        repeat_text(s, (n - 1) as nat) + s
    }
}

fn repeat_str(s: &str, n: usize) -> (r: String)
    ensures
        r@ == repeat_text(s@, n as nat),
{
    let mut r = String::new();
    let mut i: usize = 0;
    while i < n
        invariant
            i <= n,
            r@ == repeat_text(s@, i as nat),
        decreases n - i,
    {
        r.append(s);
        i = i + 1;
    }
    r
}

pub open spec fn digit_char(d: nat) -> char {
    "0123456789"@[d as int]
}

/// The decimal digits of `n`.
pub open spec fn decimal(n: nat) -> Seq<char>
    decreases n,
{
    if n < 10 {
        seq![digit_char(n)]
    } else {
        decimal(n / 10) + seq![digit_char(n % 10)]
    }
}

fn push_decimal(out: &mut String, n: usize)
    ensures
        final(out)@ == old(out)@ + decimal(n as nat),
    decreases n,
{
    if n >= 10 {
        push_decimal(out, n / 10);
    }
    let digits = "0123456789";
    proof {
        reveal_strlit("0123456789");
    }
    let d = n % 10;
    out.append(digits.substring_char(d, d + 1));
    assert(digits@.subrange(d as int, d + 1) =~= seq![digit_char(d as nat)]);
}

/// A span as `start..end`.
pub open spec fn span_text(s: Span) -> Seq<char> {
    decimal(s.start as nat) + ".."@ + decimal(s.end as nat)
}

pub fn span_label(s: Span) -> (r: String)
    ensures
        r@ == span_text(s),
{
    let mut r = String::new();
    push_decimal(&mut r, s.start);
    r.append("..");
    push_decimal(&mut r, s.end);
    r
}

/// From index `k` on, the first index whose character ends beyond byte `b`.
pub open spec fn floor_from(cs: Seq<char>, k: int, b: int) -> int
    decreases cs.len() - k,
{
    if 0 <= k < cs.len() && byte_offset(cs, k + 1) <= b {
        floor_from(cs, k + 1, b)
    } else {
        k
    }
}

/// The number of whole characters within the first `b` bytes of `cs`.
pub open spec fn char_floor(cs: Seq<char>, b: int) -> int {
    floor_from(cs, 0, b)
}

/// Where the line that holds index `i` starts.
pub open spec fn line_start(cs: Seq<char>, i: int) -> int
    decreases i,
{
    if i <= 0 {
        0
    } else if cs[i - 1] == '\n' {
        i
    } else {
        line_start(cs, i - 1)
    }
}

/// Where the line that holds index `j` ends, before its line feed.
pub open spec fn line_end(cs: Seq<char>, j: int) -> int
    decreases cs.len() - j,
{
    if j < 0 || j >= cs.len() {
        cs.len() as int
    } else if cs[j] == '\n' {
        j
    } else {
        line_end(cs, j + 1)
    }
}

/// The text of the line before the span, the span's text, and the rest of the line.
pub open spec fn sections(cs: Seq<char>, span: Span) -> (Seq<char>, Seq<char>, Seq<char>) {
    let i = char_floor(cs, span.start as int);
    let j0 = char_floor(cs, span.end as int);
    let j = if j0 < i {
        i
    } else {
        j0
    };
    (
        cs.subrange(line_start(cs, i), i),
        cs.subrange(i, j),
        cs.subrange(j, line_end(cs, j)),
    )
}

/// A report of the error `message` at `span` in the source `cs`.
pub open spec fn error_report(message: Seq<char>, span: Span, cs: Seq<char>) -> Seq<char> {
    let (before, offending, after) = sections(cs, span);
    let bar = " "@ + painted(Hue::Blue, "|"@);
    let w = display_width(offending);
    let marks = repeat_text("^"@, if w < 1 {
        1
    } else {
        w
    });
    painted(Hue::Blue, "-->"@) + " Error: "@ + message + " (at "@ + span_text(span) + ")\n"@
        + bar + "\n"@
        + bar + " "@ + before + painted(Hue::Red, offending) + after + "\n"@
        + bar + " "@ + repeat_text(" "@, display_width(before)) + painted(Hue::Blue, marks) + "\n"@
        + bar + "\n"@
}

fn floor_index(cs: &Vec<char>, b: usize) -> (k: usize)
    requires
        byte_len(cs@) <= usize::MAX,
    ensures
        k == char_floor(cs@, b as int),
        k <= cs.len(),
{
    let mut k: usize = 0;
    let mut off: usize = 0;
    assert(cs@.take(0) =~= Seq::<char>::empty());
    while k < cs.len()
        invariant
            k <= cs.len(),
            off == byte_offset(cs@, k as int),
            char_floor(cs@, b as int) == floor_from(cs@, k as int, b as int),
            byte_len(cs@) <= usize::MAX,
        ensures
            k <= cs.len(),
            char_floor(cs@, b as int) == k,
        decreases cs.len() - k,
    {
        proof {
            lemma_offset_step(cs@, k as int);
            crate::text::lemma_offset_split(cs@, 0, k + 1);
        }
        let w = utf8_width(cs[k]);
        if off + w > b {
            break;
        }
        off = off + w;
        k = k + 1;
    }
    k
}

fn line_start_index(cs: &Vec<char>, i: usize) -> (r: usize)
    requires
        i <= cs.len(),
    ensures
        r == line_start(cs@, i as int),
        r <= i,
{
    let mut k = i;
    while k > 0
        invariant
            k <= i <= cs.len(),
            line_start(cs@, i as int) == line_start(cs@, k as int),
        ensures
            k <= i,
            line_start(cs@, i as int) == k,
        decreases k,
    {
        if cs[k - 1] == '\n' {
            break;
        }
        k = k - 1;
    }
    k
}

fn line_end_index(cs: &Vec<char>, j: usize) -> (r: usize)
    requires
        j <= cs.len(),
    ensures
        r == line_end(cs@, j as int),
        j <= r <= cs.len(),
{
    let mut k = j;
    while k < cs.len()
        invariant
            j <= k <= cs.len(),
            line_end(cs@, j as int) == line_end(cs@, k as int),
        ensures
            j <= k <= cs.len(),
            line_end(cs@, j as int) == k,
        decreases cs.len() - k,
    {
        if cs[k] == '\n' {
            break;
        }
        k = k + 1;
    }
    k
}

/// Renders an error against the source it was found in.
pub struct ErrorPrinter<'a, 'src>(pub &'a Error, pub &'src str);

impl<'a, 'src> ErrorPrinter<'a, 'src> {
    /// The report: the message and span, the line of the source with the
    /// offending text in red, and carets under it.
    pub fn to_string(&self) -> (r: String)
        ensures
            r@ == error_report(self.0@.message, self.0@.span, self.1@),
    {
        let src = self.1;
        let span = self.0.span();
        let cs = chars_of(src);
        // The byte length of a `str` fits in `usize`; so do all offsets into it.
        let _byte_count = src.as_bytes().len();
        assert(src.spec_bytes() == encode_utf8(src@));
        let i = floor_index(&cs, span.start);
        let j0 = floor_index(&cs, span.end);
        let j = if j0 < i { i } else { j0 };
        let lo = line_start_index(&cs, i);
        let hi = line_end_index(&cs, j);
        let before = src.substring_char(lo, i);
        let offending = src.substring_char(i, j);
        let after = src.substring_char(j, hi);
        let w = text_width(offending);
        let marks = repeat_str("^", if w < 1 { 1 } else { w });
        let spaces = repeat_str(" ", text_width(before));
        let mut bar = String::from_str(" ");
        bar.append(paint(Hue::Blue, "|").as_str());

        let mut r = paint(Hue::Blue, "-->");
        r.append(" Error: ");
        r.append(self.0.message());
        r.append(" (at ");
        r.append(span_label(span).as_str());
        r.append(")\n");
        r.append(bar.as_str());
        r.append("\n");
        r.append(bar.as_str());
        r.append(" ");
        r.append(before);
        r.append(paint(Hue::Red, offending).as_str());
        r.append(after);
        r.append("\n");
        r.append(bar.as_str());
        r.append(" ");
        r.append(spaces.as_str());
        r.append(paint(Hue::Blue, marks.as_str()).as_str());
        r.append("\n");
        r.append(bar.as_str());
        r.append("\n");
        r
    }
}

pub open spec fn tree_span(t: Tree) -> Span {
    match t {
        Tree::Var { span, .. } => span,
        Tree::App { span, .. } => span,
    }
}

pub open spec fn node_label(t: Tree) -> Seq<char> {
    match t {
        Tree::Var { name, .. } => "VAR ("@ + str_debug(name) + ")"@,
        Tree::App { name, .. } => "APP ("@ + str_debug(name) + ")"@,
    }
}

/// One line per node of `t`, children after their parent and indented two
/// spaces deeper.
pub open spec fn tree_lines(t: Tree, indent: Seq<char>) -> Seq<char>
    decreases t,
{
    let own = indent + node_label(t) + " @ "@ + span_text(tree_span(t)) + "\n"@;
    match t {
        Tree::Var { .. } => own,
        Tree::App { args, .. } => own + forest_lines(args, indent + "  "@),
    }
}

pub open spec fn forest_lines(ts: Seq<Tree>, indent: Seq<char>) -> Seq<char>
    decreases ts,
{
    if ts.len() == 0 {
        Seq::empty()
    } else {
        tree_lines(ts[0], indent) + forest_lines(ts.drop_first(), indent)
    }
}

#[verifier::loop_isolation(false)]
fn write_tree(indent: &str, expr: &Expr, out: &mut String)
    ensures
        final(out)@ == old(out)@ + tree_lines(tree_of(*expr), indent@),
    decreases expr,
{
    out.append(indent);
    let name = match &expr.kind {
        ExprKind::Var(i) => &i.ident,
        ExprKind::App(i, _) => &i.ident,
    };
    match &expr.kind {
        ExprKind::Var(_) => out.append("VAR ("),
        ExprKind::App(_, _) => out.append("APP ("),
    }
    out.append(debug_str(name.as_str()).as_str());
    out.append(")");
    out.append(" @ ");
    out.append(span_label(expr.span).as_str());
    out.append("\n");
    let ghost own = out@;
    match &expr.kind {
        ExprKind::Var(_) => {
            assert(own =~= old(out)@ + tree_lines(tree_of(*expr), indent@));
        },
        ExprKind::App(_, args) => {
            let mut deeper = String::from_str(indent);
            deeper.append("  ");
            let ghost target = own + forest_lines(trees_of(args@), deeper@);
            assert(args@.skip(0) =~= args@);
            let mut i: usize = 0;
            while i < args.len()
                invariant
                    i <= args.len(),
                    out@ + forest_lines(trees_of(args@.skip(i as int)), deeper@) == target,
                decreases args.len() - i,
            {
                proof {
                    lemma_trees_of_skip(args@, i as int);
                }
                let ghost before = out@;
                write_tree(deeper.as_str(), &args[i], out);
                assert(out@ + forest_lines(trees_of(args@.skip(i + 1)), deeper@) =~= before
                    + forest_lines(trees_of(args@.skip(i as int)), deeper@));
                i = i + 1;
            }
            assert(args@.skip(i as int) =~= Seq::<Expr>::empty());
            assert(trees_of(Seq::<Expr>::empty()) == Seq::<Tree>::empty());
            assert(out@ =~= old(out)@ + tree_lines(tree_of(*expr), indent@));
        },
    }
}

/// Renders an expression tree, one node per line.
pub struct ExprTreePrinter<'a>(pub &'a Expr);

impl<'a> ExprTreePrinter<'a> {
    pub fn to_string(&self) -> (r: String)
        ensures
            r@ == tree_lines(tree_of(*self.0), Seq::empty()),
    {
        let mut r = String::new();
        write_tree("", self.0, &mut r);
        proof {
            reveal_strlit("");
        }
        r
    }
}

} // verus!

use vstd::prelude::*;
use vstd::string::StringExecFns;

use crate::ast::{lemma_trees_of, lemma_trees_of_skip, tree_of, trees_of, Expr, ExprKind, Ident, Program, Tree};
use crate::util::{outcome, Diag, Error, PResult, Span};

verus! {

/// How many variables a program can declare: one per letter `A` to `Z`.
pub const MAX_ARG_COUNT: usize = 26;

/// The value bound to `name` when the i-th argument is bound to the i-th
/// capital letter.
pub open spec fn binding(args: Seq<bool>, name: Seq<char>) -> Option<bool> {
    if name.len() == 1 && 'A' <= name[0] <= 'Z' && (name[0] as int) - ('A' as int) < args.len() {
        Some(args[(name[0] as int) - ('A' as int)])
    } else {
        None
    }
}

pub open spec fn not_defined_message(name: Seq<char>) -> Seq<char> {
    "`"@ + name + "` is not defined"@
}

pub open spec fn single_argument_message(name: Seq<char>) -> Seq<char> {
    "`"@ + name + "` requires single argument"@
}

pub open spec fn undefined_function_message(name: Seq<char>) -> Seq<char> {
    "cannot call undefined function `"@ + name + "`"@
}

/// The value of `t` when the arguments are bound to `args`.
pub open spec fn eval_tree(t: Tree, args: Seq<bool>) -> Result<bool, Diag>
    decreases t,
{
    match t {
        Tree::Var { name, name_span, .. } => match binding(args, name) {
            Some(b) => Ok(b),
            None => Err(Diag { message: not_defined_message(name), span: name_span }),
        },
        Tree::App { name, name_span, args: kids, .. } => eval_call(name, name_span, kids, args),
    }
}

/// The value of a call of the function `name` on `kids`.
pub open spec fn eval_call(name: Seq<char>, name_span: Span, kids: Seq<Tree>, args: Seq<bool>) -> Result<
    bool,
    Diag,
>
    decreases kids, 1int,
{
    if name == "not"@ {
        if kids.len() == 1 {
            match eval_tree(kids[0], args) {
                Ok(b) => Ok(!b),
                Err(d) => Err(d),
            }
        } else {
            Err(Diag { message: single_argument_message(name), span: name_span })
        }
    } else if name == "and"@ {
        eval_fold(kids, args, true, true)
    } else if name == "or"@ {
        eval_fold(kids, args, false, false)
    } else {
        Err(Diag { message: undefined_function_message(name), span: name_span })
    }
}

/// Evaluates every tree of `kids` in order and combines the values into
/// `acc` with `&&` (when `conj`) or `||`; the first error wins.
pub open spec fn eval_fold(kids: Seq<Tree>, args: Seq<bool>, conj: bool, acc: bool) -> Result<
    bool,
    Diag,
>
    decreases kids, 0int,
{
    if kids.len() == 0 {
        Ok(acc)
    } else {
        match eval_tree(kids[0], args) {
            Err(d) => Err(d),
            Ok(b) => eval_fold(
                kids.drop_first(),
                args,
                conj,
                if conj {
                    acc && b
                } else {
                    acc || b
                },
            ),
        }
    }
}

/// The variables of one evaluation: the i-th argument is bound to the i-th
/// capital letter.
pub struct Env {
    values: Vec<bool>,
}

impl View for Env {
    type V = Seq<bool>;

    closed spec fn view(&self) -> Seq<bool> {
        self.values@
    }
}

impl Env {
    pub closed spec fn wf(&self) -> bool {
        self.values.len() <= MAX_ARG_COUNT
    }

    /// The value bound to `name`, if any.
    pub fn get(&self, name: &str) -> (r: Option<bool>)
        requires
            self.wf(),
        ensures
            r == binding(self@, name@),
    {
        if name.unicode_len() != 1 {
            return None;
        }
        let c = name.get_char(0);
        if c < 'A' || c > 'Z' {
            return None;
        }
        let i = (c as u32 - 'A' as u32) as usize;
        if i < self.values.len() {
            Some(self.values[i])
        } else {
            None
        }
    }
}

/// Evaluates the program's expression with its declared arguments.
pub fn eval_program(program: &Program) -> (r: PResult<bool>)
    requires
        program.args.len() <= MAX_ARG_COUNT,
    ensures
        outcome(r) == eval_tree(tree_of(program.expr), program.args@),
{
    let env = args_to_env(program.args.as_slice());
    eval_expr(&program.expr, &env)
}

/// Binds the i-th argument to the i-th capital letter.
pub fn args_to_env(args: &[bool]) -> (env: Env)
    requires
        args@.len() <= MAX_ARG_COUNT,
    ensures
        env.wf(),
        env@ == args@,
{
    let mut values: Vec<bool> = Vec::new();
    for i in 0..args.len()
        invariant
            values@ == args@.take(i as int),
            args@.len() <= MAX_ARG_COUNT,
    {
        values.push(args[i]);
    }
    assert(values@ =~= args@);
    Env { values }
}

/// Whether `name` spells `word`.
fn is_named(name: &String, word: &str) -> (r: bool)
    ensures
        r == (name@ == word@),
{
    *name == String::from_str(word)
}

fn eval_expr(expr: &Expr, env: &Env) -> (r: PResult<bool>)
    requires
        env.wf(),
    ensures
        outcome(r) == eval_tree(tree_of(*expr), env@),
    decreases *expr, 1int,
{
    match &expr.kind {
        ExprKind::Var(ident) => eval_ident(ident, env),
        ExprKind::App(ident, args) => {
            let r = eval_app(ident, args.as_slice(), env);
            r
        },
    }
}

fn eval_ident(ident: &Ident, env: &Env) -> (r: PResult<bool>)
    requires
        env.wf(),
    ensures
        outcome(r) == eval_tree(
            Tree::Var { name: ident.ident@, name_span: ident.span, span: ident.span },
            env@,
        ),
{
    match env.get(ident.ident.as_str()) {
        Some(b) => Ok(b),
        None => {
            let mut m = String::from_str("`");
            m.append(ident.ident.as_str());
            m.append("` is not defined");
            Err(Error::new(m, ident.span))
        },
    }
}

fn eval_app(ident: &Ident, args: &[Expr], env: &Env) -> (r: PResult<bool>)
    requires
        env.wf(),
    ensures
        outcome(r) == eval_call(ident.ident@, ident.span, trees_of(args@), env@),
    decreases args@, 0int,
{
    let name = ident.ident.as_str();
    proof {
        lemma_trees_of(args@);
    }
    if is_named(&ident.ident, "not") {
        if args.len() == 1 {
            match eval_expr(&args[0], env) {
                Ok(b) => Ok(!b),
                Err(e) => Err(e),
            }
        } else {
            let mut m = String::from_str("`");
            m.append(name);
            m.append("` requires single argument");
            Err(Error::new(m, ident.span))
        }
    } else if is_named(&ident.ident, "and") || is_named(&ident.ident, "or") {
        let conj = is_named(&ident.ident, "and");
        let mut acc = conj;
        let mut i: usize = 0;
        assert(args@.skip(0) =~= args@);
        while i < args.len()
            invariant
                i <= args.len(),
                env.wf(),
                conj == (ident.ident@ == "and"@),
                ident.ident@ != "not"@,
                ident.ident@ == "and"@ || ident.ident@ == "or"@,
                eval_fold(trees_of(args@), env@, conj, conj) == eval_fold(
                    trees_of(args@.skip(i as int)),
                    env@,
                    conj,
                    acc,
                ),
            decreases args.len() - i,
        {
            proof {
                lemma_trees_of_skip(args@, i as int);
            }
            let b = match eval_expr(&args[i], env) {
                Ok(b) => b,
                Err(e) => {
                    assert(eval_fold(trees_of(args@.skip(i as int)), env@, conj, acc) == Err::<
                        bool,
                        Diag,
                    >(e@));
                    return Err(e);
                },
            };
            acc = if conj {
                acc && b
            } else {
                acc || b
            };
            i = i + 1;
        }
        assert(args@.skip(i as int) =~= Seq::<Expr>::empty());
        assert(trees_of(Seq::<Expr>::empty()) == Seq::<Tree>::empty());
        Ok(acc)
    } else {
        let mut m = String::from_str("cannot call undefined function `");
        m.append(name);
        m.append("`");
        Err(Error::new(m, ident.span))
    }
}

} // verus!

//! The abstract syntax consumed and produced by the flattening pass:
//! expressions, relational conditions, statements and programs, with
//! the structural predicates that the pass's contracts are stated over.

use vstd::prelude::*;
use crate::field::Fp;

verus! {

/// A variable name.  Source programs use `Name` identifiers only; the
/// other forms are synthesized by the flattening pass: `Suffixed` by the
/// single-assignment renaming, `Sym` and `Bit` for fresh gadget symbols,
/// and `Out` for the reserved return variable.
#[derive(Clone, Copy, PartialEq, Eq, Structural, Debug)]
pub enum Identifier {
    /// A source-program identifier, by its interned token.
    Name(u64),
    /// A renamed form of a source identifier: base token and version.
    Suffixed(u64, usize),
    /// A fresh symbol introduced by the pass, by counter value.
    Sym(usize),
    /// Digit `j` of the boolean decomposition attached to symbol `i`.
    Bit(usize, usize),
    /// The reserved output variable of a `Return`.
    Out,
}

/// An arithmetic expression over field literals and variables.
#[derive(Debug)]
pub enum Expression {
    NumberLiteral(Fp),
    VariableReference(Identifier),
    Add(Box<Expression>, Box<Expression>),
    Sub(Box<Expression>, Box<Expression>),
    Mult(Box<Expression>, Box<Expression>),
    Div(Box<Expression>, Box<Expression>),
    Pow(Box<Expression>, Box<Expression>),
    IfElse(Box<Condition>, Box<Expression>, Box<Expression>),
}

/// A relation between two expressions.  Only `Lt` and `Eq` are
/// supported by the flattening pass; the other relations are
/// representable but rejected.
#[derive(Debug)]
pub enum Condition {
    Lt(Expression, Expression),
    Le(Expression, Expression),
    Eq(Expression, Expression),
    Ge(Expression, Expression),
    Gt(Expression, Expression),
}

/// One program statement.  `Compiler` carries a witness-computation
/// hint that is not enforced as an algebraic constraint.
#[derive(Debug)]
pub enum Statement {
    Return(Expression),
    Definition(Identifier, Expression),
    Condition(Expression, Expression),
    Compiler(Identifier, Expression),
}

/// A program: an identifier, the argument names, and an ordered
/// statement sequence.
#[derive(Debug)]
pub struct Prog {
    pub id: String,
    pub arguments: Vec<Identifier>,
    pub statements: Vec<Statement>,
}

// ------------------------------------------------------------------
// Structural predicates
// ------------------------------------------------------------------

/// An affine combination: literals and variables under `Add`/`Sub` only.
pub open spec fn is_linear(e: Expression) -> bool
    decreases e,
{
    match e {
        Expression::NumberLiteral(_) => true,
        Expression::VariableReference(_) => true,
        Expression::Add(l, r) => is_linear(*l) && is_linear(*r),
        Expression::Sub(l, r) => is_linear(*l) && is_linear(*r),
        _ => false,
    }
}

/// Flattened form: every `Mult`/`Div` operand is affine, and no `Pow`
/// or conditional occurs.
pub open spec fn is_flattened(e: Expression) -> bool
    decreases e,
{
    match e {
        Expression::NumberLiteral(_) => true,
        Expression::VariableReference(_) => true,
        Expression::Add(l, r) => is_flattened(*l) && is_flattened(*r),
        Expression::Sub(l, r) => is_flattened(*l) && is_flattened(*r),
        Expression::Mult(l, r) => is_linear(*l) && is_linear(*r),
        Expression::Div(l, r) => is_linear(*l) && is_linear(*r),
        _ => false,
    }
}

/// Every `Mult`/`Div` operand anywhere in `e` is affine and free of
/// nested `Mult`/`Div`/`Pow`/conditionals.  Unlike `is_flattened`, a
/// conditional node itself is allowed, as hint expressions carry them.
pub open spec fn mdp_ok(e: Expression) -> bool
    decreases e,
{
    match e {
        Expression::NumberLiteral(_) => true,
        Expression::VariableReference(_) => true,
        Expression::Add(l, r) => mdp_ok(*l) && mdp_ok(*r),
        Expression::Sub(l, r) => mdp_ok(*l) && mdp_ok(*r),
        Expression::Mult(l, r) => is_linear(*l) && is_linear(*r),
        Expression::Div(l, r) => is_linear(*l) && is_linear(*r),
        Expression::Pow(_, _) => false,
        Expression::IfElse(c, t, f) => cond_mdp_ok(*c) && mdp_ok(*t) && mdp_ok(*f),
    }
}

pub open spec fn cond_mdp_ok(c: Condition) -> bool
    decreases c,
{
    match c {
        Condition::Lt(l, r) => mdp_ok(l) && mdp_ok(r),
        Condition::Le(l, r) => mdp_ok(l) && mdp_ok(r),
        Condition::Eq(l, r) => mdp_ok(l) && mdp_ok(r),
        Condition::Ge(l, r) => mdp_ok(l) && mdp_ok(r),
        Condition::Gt(l, r) => mdp_ok(l) && mdp_ok(r),
    }
}

/// A `Pow` node whose exponent is not a literal greater than one.
pub open spec fn has_bad_exponent(e: Expression) -> bool
    decreases e,
{
    match e {
        Expression::NumberLiteral(_) => false,
        Expression::VariableReference(_) => false,
        Expression::Add(l, r) => has_bad_exponent(*l) || has_bad_exponent(*r),
        Expression::Sub(l, r) => has_bad_exponent(*l) || has_bad_exponent(*r),
        Expression::Mult(l, r) => has_bad_exponent(*l) || has_bad_exponent(*r),
        Expression::Div(l, r) => has_bad_exponent(*l) || has_bad_exponent(*r),
        Expression::Pow(_, ex) => !match *ex {
            Expression::NumberLiteral(x) => x.v > 1,
            _ => false,
        },
        Expression::IfElse(c, t, f) => cond_has_bad_exponent(*c) || has_bad_exponent(*t)
            || has_bad_exponent(*f),
    }
}

pub open spec fn cond_has_bad_exponent(c: Condition) -> bool
    decreases c,
{
    match c {
        Condition::Lt(l, r) => has_bad_exponent(l) || has_bad_exponent(r),
        Condition::Le(l, r) => has_bad_exponent(l) || has_bad_exponent(r),
        Condition::Eq(l, r) => has_bad_exponent(l) || has_bad_exponent(r),
        Condition::Ge(l, r) => has_bad_exponent(l) || has_bad_exponent(r),
        Condition::Gt(l, r) => has_bad_exponent(l) || has_bad_exponent(r),
    }
}

/// A `Pow` node with an acceptable exponent whose base is neither a
/// literal nor a variable reference.
pub open spec fn has_bad_base(e: Expression) -> bool
    decreases e,
{
    match e {
        Expression::NumberLiteral(_) => false,
        Expression::VariableReference(_) => false,
        Expression::Add(l, r) => has_bad_base(*l) || has_bad_base(*r),
        Expression::Sub(l, r) => has_bad_base(*l) || has_bad_base(*r),
        Expression::Mult(l, r) => has_bad_base(*l) || has_bad_base(*r),
        Expression::Div(l, r) => has_bad_base(*l) || has_bad_base(*r),
        Expression::Pow(b, ex) => match *ex {
            Expression::NumberLiteral(x) => x.v > 1 && !match *b {
                Expression::NumberLiteral(_) => true,
                Expression::VariableReference(_) => true,
                _ => false,
            },
            _ => false,
        },
        Expression::IfElse(c, t, f) => cond_has_bad_base(*c) || has_bad_base(*t) || has_bad_base(
            *f,
        ),
    }
}

pub open spec fn cond_has_bad_base(c: Condition) -> bool
    decreases c,
{
    match c {
        Condition::Lt(l, r) => has_bad_base(l) || has_bad_base(r),
        Condition::Le(l, r) => has_bad_base(l) || has_bad_base(r),
        Condition::Eq(l, r) => has_bad_base(l) || has_bad_base(r),
        Condition::Ge(l, r) => has_bad_base(l) || has_bad_base(r),
        Condition::Gt(l, r) => has_bad_base(l) || has_bad_base(r),
    }
}

/// A conditional whose relation is neither `Lt` nor `Eq`.
pub open spec fn has_bad_condition(e: Expression) -> bool
    decreases e,
{
    match e {
        Expression::NumberLiteral(_) => false,
        Expression::VariableReference(_) => false,
        Expression::Add(l, r) => has_bad_condition(*l) || has_bad_condition(*r),
        Expression::Sub(l, r) => has_bad_condition(*l) || has_bad_condition(*r),
        Expression::Mult(l, r) => has_bad_condition(*l) || has_bad_condition(*r),
        Expression::Div(l, r) => has_bad_condition(*l) || has_bad_condition(*r),
        Expression::Pow(_, _) => false,
        Expression::IfElse(c, t, f) => cond_is_bad(*c) || has_bad_condition(*t)
            || has_bad_condition(*f),
    }
}

pub open spec fn cond_is_bad(c: Condition) -> bool
    decreases c,
{
    match c {
        Condition::Lt(l, r) => has_bad_condition(l) || has_bad_condition(r),
        Condition::Eq(l, r) => has_bad_condition(l) || has_bad_condition(r),
        Condition::Le(_, _) => true,
        Condition::Ge(_, _) => true,
        Condition::Gt(_, _) => true,
    }
}

/// The flattening pass succeeds on `e` exactly when this holds.
pub open spec fn supported(e: Expression) -> bool {
    !has_bad_exponent(e) && !has_bad_base(e) && !has_bad_condition(e)
}

pub open spec fn cond_supported(c: Condition) -> bool {
    !cond_has_bad_exponent(c) && !cond_has_bad_base(c) && !cond_is_bad(c)
}

/// A strict less-than condition occurs somewhere in `e`.
pub open spec fn contains_lt(e: Expression) -> bool
    decreases e,
{
    match e {
        Expression::NumberLiteral(_) => false,
        Expression::VariableReference(_) => false,
        Expression::Add(l, r) => contains_lt(*l) || contains_lt(*r),
        Expression::Sub(l, r) => contains_lt(*l) || contains_lt(*r),
        Expression::Mult(l, r) => contains_lt(*l) || contains_lt(*r),
        Expression::Div(l, r) => contains_lt(*l) || contains_lt(*r),
        Expression::Pow(_, _) => false,
        Expression::IfElse(c, t, f) => cond_contains_lt(*c) || contains_lt(*t) || contains_lt(*f),
    }
}

pub open spec fn cond_contains_lt(c: Condition) -> bool
    decreases c,
{
    match c {
        Condition::Lt(_, _) => true,
        Condition::Le(l, r) => contains_lt(l) || contains_lt(r),
        Condition::Eq(l, r) => contains_lt(l) || contains_lt(r),
        Condition::Ge(l, r) => contains_lt(l) || contains_lt(r),
        Condition::Gt(l, r) => contains_lt(l) || contains_lt(r),
    }
}

/// The termination and counter budget of one expression: an upper
/// bound, decreasing under every recursion the pass makes, on the
/// number of fresh symbols its flattening can consume.  A literal
/// power exponent contributes its value, as exponentiation is
/// unrolled one multiplication per unit.
pub open spec fn fuel(e: Expression) -> nat
    decreases e,
{
    match e {
        Expression::NumberLiteral(_) => 1,
        Expression::VariableReference(_) => 1,
        Expression::Add(l, r) => 3 + fuel(*l) + fuel(*r),
        Expression::Sub(l, r) => 3 + fuel(*l) + fuel(*r),
        Expression::Mult(l, r) => 3 + fuel(*l) + fuel(*r),
        Expression::Div(l, r) => 3 + fuel(*l) + fuel(*r),
        Expression::Pow(b, ex) => match *ex {
            Expression::NumberLiteral(x) => 3 + fuel(*b) + x.v as nat,
            _ => 3 + fuel(*b) + fuel(*ex),
        },
        Expression::IfElse(c, t, f) => 13 + cond_fuel(*c) + fuel(*t) + fuel(*f),
    }
}

pub open spec fn cond_fuel(c: Condition) -> nat
    decreases c,
{
    match c {
        Condition::Lt(l, r) => 9 + fuel(l) + fuel(r),
        Condition::Le(l, r) => 9 + fuel(l) + fuel(r),
        Condition::Eq(l, r) => 9 + fuel(l) + fuel(r),
        Condition::Ge(l, r) => 9 + fuel(l) + fuel(r),
        Condition::Gt(l, r) => 9 + fuel(l) + fuel(r),
    }
}

// ------------------------------------------------------------------
// Executable structural tests
// ------------------------------------------------------------------

impl Expression {
    /// Whether the expression is an affine combination.
    pub fn is_linear_exec(&self) -> (r: bool)
        ensures
            r == is_linear(*self),
        decreases *self,
    {
        match self {
            Expression::NumberLiteral(_) => true,
            Expression::VariableReference(_) => true,
            Expression::Add(l, r) => l.is_linear_exec() && r.is_linear_exec(),
            Expression::Sub(l, r) => l.is_linear_exec() && r.is_linear_exec(),
            _ => false,
        }
    }

    /// Whether the expression is already in flattened form.
    pub fn is_flattened_exec(&self) -> (r: bool)
        ensures
            r == is_flattened(*self),
        decreases *self,
    {
        match self {
            Expression::NumberLiteral(_) => true,
            Expression::VariableReference(_) => true,
            Expression::Add(l, r) => l.is_flattened_exec() && r.is_flattened_exec(),
            Expression::Sub(l, r) => l.is_flattened_exec() && r.is_flattened_exec(),
            Expression::Mult(l, r) => l.is_linear_exec() && r.is_linear_exec(),
            Expression::Div(l, r) => l.is_linear_exec() && r.is_linear_exec(),
            _ => false,
        }
    }
}

// ------------------------------------------------------------------
// Renaming substitution
// ------------------------------------------------------------------

/// First value bound to `x` in the association list, if any.
pub open spec fn assoc_lookup(m: Seq<(Identifier, Identifier)>, x: Identifier) -> Option<
    Identifier,
>
    decreases m.len(),
{
    if m.len() == 0 {
        None
    } else if m[0].0 == x {
        Some(m[0].1)
    } else {
        assoc_lookup(m.skip(1), x)
    }
}

/// Chases the substitution from `x` for at most `k` steps.
pub open spec fn resolve_k(m: Seq<(Identifier, Identifier)>, x: Identifier, k: nat) -> Identifier
    decreases k,
{
    if k == 0 {
        x
    } else {
        match assoc_lookup(m, x) {
            Option::Some(y) => resolve_k(m, y, (k - 1) as nat),
            Option::None => x,
        }
    }
}

/// Resolves a name through the substitution, following renaming
/// chains.  The chains the pass builds are acyclic and shorter than
/// the table, so the step bound is never the limit on valid tables.
pub open spec fn resolve(m: Seq<(Identifier, Identifier)>, x: Identifier) -> Identifier {
    resolve_k(m, x, m.len() + 1)
}

/// `e` with every variable leaf resolved through the substitution.
pub open spec fn subst_expr(m: Seq<(Identifier, Identifier)>, e: Expression) -> Expression
    decreases e,
{
    match e {
        Expression::NumberLiteral(x) => Expression::NumberLiteral(x),
        Expression::VariableReference(v) => Expression::VariableReference(resolve(m, v)),
        Expression::Add(l, r) => Expression::Add(
            Box::new(subst_expr(m, *l)),
            Box::new(subst_expr(m, *r)),
        ),
        Expression::Sub(l, r) => Expression::Sub(
            Box::new(subst_expr(m, *l)),
            Box::new(subst_expr(m, *r)),
        ),
        Expression::Mult(l, r) => Expression::Mult(
            Box::new(subst_expr(m, *l)),
            Box::new(subst_expr(m, *r)),
        ),
        Expression::Div(l, r) => Expression::Div(
            Box::new(subst_expr(m, *l)),
            Box::new(subst_expr(m, *r)),
        ),
        Expression::Pow(b, ex) => Expression::Pow(
            Box::new(subst_expr(m, *b)),
            Box::new(subst_expr(m, *ex)),
        ),
        Expression::IfElse(c, t, f) => Expression::IfElse(
            Box::new(subst_cond(m, *c)),
            Box::new(subst_expr(m, *t)),
            Box::new(subst_expr(m, *f)),
        ),
    }
}

pub open spec fn subst_cond(m: Seq<(Identifier, Identifier)>, c: Condition) -> Condition
    decreases c,
{
    match c {
        Condition::Lt(l, r) => Condition::Lt(subst_expr(m, l), subst_expr(m, r)),
        Condition::Le(l, r) => Condition::Le(subst_expr(m, l), subst_expr(m, r)),
        Condition::Eq(l, r) => Condition::Eq(subst_expr(m, l), subst_expr(m, r)),
        Condition::Ge(l, r) => Condition::Ge(subst_expr(m, l), subst_expr(m, r)),
        Condition::Gt(l, r) => Condition::Gt(subst_expr(m, l), subst_expr(m, r)),
    }
}

/// Substitution rewrites variable leaves only, so every structural
/// predicate of the pass is unchanged by it.
pub proof fn lemma_subst_preserves_structure(m: Seq<(Identifier, Identifier)>, e: Expression)
    ensures
        is_linear(subst_expr(m, e)) == is_linear(e),
        is_flattened(subst_expr(m, e)) == is_flattened(e),
        has_bad_exponent(subst_expr(m, e)) == has_bad_exponent(e),
        has_bad_base(subst_expr(m, e)) == has_bad_base(e),
        has_bad_condition(subst_expr(m, e)) == has_bad_condition(e),
        contains_lt(subst_expr(m, e)) == contains_lt(e),
        mdp_ok(subst_expr(m, e)) == mdp_ok(e),
        fuel(subst_expr(m, e)) == fuel(e),
    decreases e,
{
    match e {
        Expression::NumberLiteral(_) => {},
        Expression::VariableReference(_) => {},
        Expression::Add(l, r) => {
            lemma_subst_preserves_structure(m, *l);
            lemma_subst_preserves_structure(m, *r);
        },
        Expression::Sub(l, r) => {
            lemma_subst_preserves_structure(m, *l);
            lemma_subst_preserves_structure(m, *r);
        },
        Expression::Mult(l, r) => {
            lemma_subst_preserves_structure(m, *l);
            lemma_subst_preserves_structure(m, *r);
        },
        Expression::Div(l, r) => {
            lemma_subst_preserves_structure(m, *l);
            lemma_subst_preserves_structure(m, *r);
        },
        Expression::Pow(b, ex) => {
            lemma_subst_preserves_structure(m, *b);
            lemma_subst_preserves_structure(m, *ex);
        },
        Expression::IfElse(c, t, f) => {
            lemma_subst_cond_preserves_structure(m, *c);
            lemma_subst_preserves_structure(m, *t);
            lemma_subst_preserves_structure(m, *f);
        },
    }
}

pub proof fn lemma_subst_cond_preserves_structure(m: Seq<(Identifier, Identifier)>, c: Condition)
    ensures
        cond_has_bad_exponent(subst_cond(m, c)) == cond_has_bad_exponent(c),
        cond_has_bad_base(subst_cond(m, c)) == cond_has_bad_base(c),
        cond_is_bad(subst_cond(m, c)) == cond_is_bad(c),
        cond_contains_lt(subst_cond(m, c)) == cond_contains_lt(c),
        cond_mdp_ok(subst_cond(m, c)) == cond_mdp_ok(c),
        cond_fuel(subst_cond(m, c)) == cond_fuel(c),
    decreases c,
{
    match c {
        Condition::Lt(l, r) => {
            lemma_subst_preserves_structure(m, l);
            lemma_subst_preserves_structure(m, r);
        },
        Condition::Le(l, r) => {
            lemma_subst_preserves_structure(m, l);
            lemma_subst_preserves_structure(m, r);
        },
        Condition::Eq(l, r) => {
            lemma_subst_preserves_structure(m, l);
            lemma_subst_preserves_structure(m, r);
        },
        Condition::Ge(l, r) => {
            lemma_subst_preserves_structure(m, l);
            lemma_subst_preserves_structure(m, r);
        },
        Condition::Gt(l, r) => {
            lemma_subst_preserves_structure(m, l);
            lemma_subst_preserves_structure(m, r);
        },
    }
}

impl Expression {
    /// Rewrites every variable-reference leaf through the renaming
    /// substitution, following chains of renamings to the freshest
    /// physical name.
    pub fn apply_substitution(self, substitution: &Vec<(Identifier, Identifier)>) -> (r:
        Expression)
        requires
            substitution@.len() < usize::MAX,
        ensures
            r == subst_expr(substitution@, self),
        decreases self,
    {
        match self {
            Expression::NumberLiteral(x) => Expression::NumberLiteral(x),
            Expression::VariableReference(v) => Expression::VariableReference(
                resolve_exec(substitution, v),
            ),
            Expression::Add(l, r) => Expression::Add(
                Box::new(l.apply_substitution(substitution)),
                Box::new(r.apply_substitution(substitution)),
            ),
            Expression::Sub(l, r) => Expression::Sub(
                Box::new(l.apply_substitution(substitution)),
                Box::new(r.apply_substitution(substitution)),
            ),
            Expression::Mult(l, r) => Expression::Mult(
                Box::new(l.apply_substitution(substitution)),
                Box::new(r.apply_substitution(substitution)),
            ),
            Expression::Div(l, r) => Expression::Div(
                Box::new(l.apply_substitution(substitution)),
                Box::new(r.apply_substitution(substitution)),
            ),
            Expression::Pow(b, ex) => Expression::Pow(
                Box::new(b.apply_substitution(substitution)),
                Box::new(ex.apply_substitution(substitution)),
            ),
            Expression::IfElse(c, t, f) => Expression::IfElse(
                Box::new(c.apply_substitution(substitution)),
                Box::new(t.apply_substitution(substitution)),
                Box::new(f.apply_substitution(substitution)),
            ),
        }
    }
}

impl Condition {
    pub fn apply_substitution(self, substitution: &Vec<(Identifier, Identifier)>) -> (r: Condition)
        requires
            substitution@.len() < usize::MAX,
        ensures
            r == subst_cond(substitution@, self),
        decreases self,
    {
        match self {
            Condition::Lt(l, r) => Condition::Lt(
                l.apply_substitution(substitution),
                r.apply_substitution(substitution),
            ),
            Condition::Le(l, r) => Condition::Le(
                l.apply_substitution(substitution),
                r.apply_substitution(substitution),
            ),
            Condition::Eq(l, r) => Condition::Eq(
                l.apply_substitution(substitution),
                r.apply_substitution(substitution),
            ),
            Condition::Ge(l, r) => Condition::Ge(
                l.apply_substitution(substitution),
                r.apply_substitution(substitution),
            ),
            Condition::Gt(l, r) => Condition::Gt(
                l.apply_substitution(substitution),
                r.apply_substitution(substitution),
            ),
        }
    }
}

/// First binding for `x` in the association list, if any.
pub fn assoc_lookup_exec(m: &Vec<(Identifier, Identifier)>, x: Identifier) -> (r: Option<
    Identifier,
>)
    ensures
        r == assoc_lookup(m@, x),
{
    let mut i: usize = 0;
    proof {
        assert(m@.skip(0) =~= m@);
    }
    while i < m.len()
        invariant
            i <= m.len(),
            assoc_lookup(m@, x) == assoc_lookup(m@.skip(i as int), x),
        decreases m.len() - i,
    {
        proof {
            assert(m@.skip(i as int)[0] == m@[i as int]);
            assert(m@.skip(i as int).skip(1) =~= m@.skip(i as int + 1));
        }
        if m[i].0 == x {
            return Some(m[i].1);
        }
        i = i + 1;
    }
    proof {
        assert(m@.skip(m@.len() as int).len() == 0);
    }
    None
}

/// Follows renaming chains from `x`, stepping at most `len + 1` times.
pub fn resolve_exec(m: &Vec<(Identifier, Identifier)>, x: Identifier) -> (r: Identifier)
    requires
        m@.len() < usize::MAX,
    ensures
        r == resolve(m@, x),
{
    let mut cur = x;
    let mut k: usize = 0;
    let n = m.len();
    while k < n + 1
        invariant
            k <= n + 1,
            n == m@.len(),
            n < usize::MAX,
            resolve_k(m@, x, m@.len() + 1) == resolve_k(m@, cur, (n + 1 - k) as nat),
        decreases n + 1 - k,
    {
        match assoc_lookup_exec(m, cur) {
            Some(y) => {
                cur = y;
            },
            None => {
                return cur;
            },
        }
        k = k + 1;
    }
    cur
}

} // verus!

verus! {

/// An affine expression is already flattened, and a flattened
/// expression contains no power, no conditional, and hence none of the
/// shapes the pass rejects.
pub proof fn lemma_flattened_supported(e: Expression)
    ensures
        is_linear(e) ==> is_flattened(e),
        is_flattened(e) ==> !has_bad_exponent(e) && !has_bad_base(e) && !has_bad_condition(e)
            && !contains_lt(e) && mdp_ok(e) && supported(e),
    decreases e,
{
    match e {
        Expression::NumberLiteral(_) => {},
        Expression::VariableReference(_) => {},
        Expression::Add(l, r) => {
            lemma_flattened_supported(*l);
            lemma_flattened_supported(*r);
        },
        Expression::Sub(l, r) => {
            lemma_flattened_supported(*l);
            lemma_flattened_supported(*r);
        },
        Expression::Mult(l, r) => {
            lemma_flattened_supported(*l);
            lemma_flattened_supported(*r);
        },
        Expression::Div(l, r) => {
            lemma_flattened_supported(*l);
            lemma_flattened_supported(*r);
        },
        Expression::Pow(_, _) => {},
        Expression::IfElse(_, _, _) => {},
    }
}

} // verus!

//! The flattening pass itself: an expression flattener, a condition
//! flattener lowering `Lt`/`Eq` into algebraic gadgets, and the program
//! driver with its single-assignment renaming.

use vstd::prelude::*;
use vstd::seq_lib::*;
use vstd::set_lib::lemma_len_subset;
use crate::absy::{
    Identifier, Expression, Condition, Statement, Prog, is_linear, is_flattened, mdp_ok,
    cond_mdp_ok, has_bad_exponent, has_bad_base, has_bad_condition, cond_has_bad_exponent,
    cond_has_bad_base, cond_is_bad, supported, cond_supported, contains_lt, cond_contains_lt,
    fuel, cond_fuel, subst_expr, lemma_subst_preserves_structure, lemma_flattened_supported,
};
use crate::field::{Fp, FIELD_MODULUS, pow_int};

verus! {

/// The structural rejections of the pass.  Each aborts the whole
/// program flattening; none is recoverable.
#[derive(Clone, Copy, PartialEq, Eq, Structural, Debug)]
pub enum FlattenError {
    /// A `Pow` exponent is not a literal greater than one.
    UnsupportedExponent,
    /// A `Pow` base is neither a literal nor a variable reference.
    UnsupportedPowerBase,
    /// A condition kind other than `Lt`/`Eq` was encountered.
    UnsupportedCondition,
    /// Neither side of a `ConstraintEquality` is affine.
    UnresolvableEquality,
}

/// The target name a statement defines, if it is a `Definition`.
pub open spec fn def_target(s: Statement) -> Option<Identifier> {
    match s {
        Statement::Definition(x, _) => Some(x),
        _ => None,
    }
}

/// A synthesized symbol whose counter value lies in `[lo, hi)`.
pub open spec fn is_sym_in(t: Identifier, lo: nat, hi: nat) -> bool {
    match t {
        Identifier::Sym(j) => lo <= j < hi,
        Identifier::Bit(j, _) => lo <= j < hi,
        _ => false,
    }
}

/// The output invariant of one statement: `Return` and `Definition`
/// bodies are flattened, a `ConstraintEquality` has two flattened
/// sides of which at least one is affine, and a hint's expression has
/// affine `Mult`/`Div` operands throughout.
pub open spec fn stmt_ok(s: Statement) -> bool {
    match s {
        Statement::Return(e) => is_flattened(e),
        Statement::Definition(_, e) => is_flattened(e),
        Statement::Condition(l, r) => is_flattened(l) && is_flattened(r) && (is_linear(l)
            || is_linear(r)),
        Statement::Compiler(_, e) => mdp_ok(e),
    }
}

/// The new buffer extends the old one.
pub open spec fn buffer_extended(old_s: Seq<Statement>, new_s: Seq<Statement>) -> bool {
    old_s.len() <= new_s.len() && new_s.subrange(0, old_s.len() as int) =~= old_s
}

/// Everything appended to the buffer satisfies the output invariant,
/// and every appended definition target is a fresh symbol of the
/// window `[lo, hi)`.
pub open spec fn appended_ok(old_s: Seq<Statement>, new_s: Seq<Statement>, lo: nat, hi: nat) -> bool {
    &&& buffer_extended(old_s, new_s)
    &&& forall|i: int|
        old_s.len() <= i < new_s.len() ==> stmt_ok(#[trigger] new_s[i])
    &&& forall|i: int|
        old_s.len() <= i < new_s.len() ==> (match def_target(#[trigger] new_s[i]) {
            Some(t) => is_sym_in(t, lo, hi),
            None => true,
        })
}

/// No two definitions in `s[lo..hi]` share a target.
pub open spec fn defs_distinct_range(s: Seq<Statement>, lo: int, hi: int) -> bool {
    forall|i: int, j: int|
        lo <= i < j < hi && def_target(#[trigger] s[i]) is Some && def_target(
            #[trigger] s[j],
        ) is Some ==> def_target(s[i]) != def_target(s[j])
}

/// The candidate sequence the renaming probes for a source name:
/// first the name itself, then its suffixed versions in order.
pub open spec fn cand_at(base: u64, j: nat) -> Identifier {
    if j == 0 {
        Identifier::Name(base)
    } else {
        Identifier::Suffixed(base, (j - 1) as usize)
    }
}

/// If the first `i + 1` probe candidates are all among the used
/// variables, the used set has more than `i` entries: the probe loop
/// therefore ends within the table's length.
proof fn lemma_candidates_bound(vars: Seq<Identifier>, base: u64, i: nat)
    requires
        i <= usize::MAX,
        forall|j: nat| j <= i ==> vars.contains(#[trigger] cand_at(base, j)),
    ensures
        i + 1 <= vars.len(),
{
    let cs = Seq::new(i + 1, |j: int| cand_at(base, j as nat));
    assert(cs.no_duplicates()) by {
        assert forall|j1: int, j2: int|
            0 <= j1 < cs.len() && 0 <= j2 < cs.len() && j1 != j2 implies cs[j1] != cs[j2] by {
            if j1 == 0 || j2 == 0 {
            } else {
                assert(cand_at(base, j1 as nat) == Identifier::Suffixed(base, (j1 - 1) as usize));
                assert(cand_at(base, j2 as nat) == Identifier::Suffixed(base, (j2 - 1) as usize));
            }
        }
    }
    cs.unique_seq_to_set();
    assert(cs.to_set().subset_of(vars.to_set())) by {
        assert forall|x: Identifier| cs.to_set().contains(x) implies vars.to_set().contains(x) by {
            let j = choose|j: int| 0 <= j < cs.len() && cs[j] == x;
            assert(vars.contains(cand_at(base, j as nat)));
            let k = choose|k: int| 0 <= k < vars.len() && vars[k] == x;
            assert(vars.to_set().contains(vars[k]));
        }
    }
    assert(vars.to_set().finite()) by {
        broadcast use seq_to_set_is_finite;

    }
    lemma_len_subset(cs.to_set(), vars.to_set());
    vars.lemma_cardinality_of_set();
}

/// The flattening transformer: the fixed bit width for comparison
/// gadgets, the set of output names already used, the renaming
/// substitution, and the fresh-symbol counter.
pub struct Flattener {
    /// Number of digits used by the boolean decomposition of the
    /// less-than gadget.  Soundness of that gadget requires the width
    /// to be large enough for the operands compared; the caller is
    /// responsible for choosing it.
    pub bits: usize,
    /// All variable names used in the output so far.
    pub variables: Vec<Identifier>,
    /// Renamings of reassigned variables, chained in order.
    pub substitution: Vec<(Identifier, Identifier)>,
    /// Counter for the next synthesized symbol.
    pub next_var_idx: usize,
}

impl Flattener {
    pub open spec fn spec_bits(self) -> usize {
        self.bits
    }

    pub open spec fn spec_variables(self) -> Seq<Identifier> {
        self.variables@
    }

    pub open spec fn spec_substitution(self) -> Seq<(Identifier, Identifier)> {
        self.substitution@
    }

    pub open spec fn spec_next_var_idx(self) -> usize {
        self.next_var_idx
    }

    /// Returns a `Flattener` with fresh state.
    ///
    /// `bits` is the number of digits the less-than gadget decomposes
    /// a difference into.
    pub fn new(bits: usize) -> (r: Flattener)
        ensures
            r.spec_bits() == bits,
            r.spec_variables() =~= Seq::<Identifier>::empty(),
            r.spec_substitution() =~= Seq::<(Identifier, Identifier)>::empty(),
            r.spec_next_var_idx() == 0,
    {
        Flattener { bits, variables: Vec::new(), substitution: Vec::new(), next_var_idx: 0 }
    }

    /// Whether `x` is already a used output name.
    fn contains_var(&self, x: Identifier) -> (r: bool)
        ensures
            r == self.variables@.contains(x),
    {
        let mut i: usize = 0;
        while i < self.variables.len()
            invariant
                i <= self.variables@.len(),
                forall|j: int| 0 <= j < i ==> self.variables@[j] != x,
            decreases self.variables@.len() - i,
        {
            if self.variables[i] == x {
                return true;
            }
            i = i + 1;
        }
        false
    }

    /// Picks a fresh output name for `name` by probing the name and
    /// then its suffixed versions, registers it as used, and records
    /// the renaming so later references to the logical name resolve to
    /// the newest physical one.
    fn use_variable(&mut self, name: Identifier) -> (r: Identifier)
        requires
            old(self).variables@.len() + 2 <= usize::MAX,
            old(self).substitution@.len() + 1 <= usize::MAX,
            name matches Identifier::Name(_),
        ensures
            final(self).spec_bits() == old(self).spec_bits(),
            final(self).spec_next_var_idx() == old(self).spec_next_var_idx(),
            final(self).variables@ =~= old(self).variables@.push(r),
            !old(self).variables@.contains(r),
            old(self).substitution@.len() <= final(self).substitution@.len() <= old(
                self,
            ).substitution@.len() + 1,
            !(r is Sym) && !(r is Bit) && !(r is Out),
            (r, final(self).variables@, final(self).substitution@) == spec_use_variable(
                old(self).variables@,
                old(self).substitution@,
                name,
            ),
    {
        let base: u64 = match name {
            Identifier::Name(b) => b,
            _ => {
                proof {
                    assert(false);
                }
                0
            },
        };
        let mut i: usize = 0;
        let mut cand: Identifier = name;
        loop
            invariant
                *self == *old(self),
                name == Identifier::Name(base),
                self.variables@.len() + 2 <= usize::MAX,
                self.substitution@.len() + 1 <= usize::MAX,
                i <= self.variables@.len() + 1,
                cand == cand_at(base, i as nat),
                forall|j: nat| j < i ==> self.variables@.contains(#[trigger] cand_at(base, j)),
                probe(self.variables@, base, 0, self.variables@.len() + 1) == probe(
                    self.variables@,
                    base,
                    i as nat,
                    (self.variables@.len() + 1 - i) as nat,
                ),
            decreases self.variables@.len() + 1 - i,
        {
            if self.contains_var(cand) {
                proof {
                    lemma_candidates_bound(self.variables@, base, i as nat);
                    // the probe steps over a used candidate
                    assert(probe(
                        self.variables@,
                        base,
                        i as nat,
                        (self.variables@.len() + 1 - i) as nat,
                    ) == probe(
                        self.variables@,
                        base,
                        (i + 1) as nat,
                        (self.variables@.len() - i) as nat,
                    ));
                }
                cand = Identifier::Suffixed(base, i);
                i = i + 1;
            } else {
                proof {
                    // the probe stops at the first free candidate
                    assert(probe(
                        self.variables@,
                        base,
                        i as nat,
                        (self.variables@.len() + 1 - i) as nat,
                    ) == i as nat);
                }
                self.variables.push(cand);
                if i == 1 {
                    self.substitution.push((Identifier::Name(base), cand));
                } else if i > 1 {
                    self.substitution.push((Identifier::Suffixed(base, i - 2), cand));
                }
                proof {
                    assert(self.variables@ =~= old(self).variables@.push(cand));
                    assert((cand, self.variables@, self.substitution@) == spec_use_variable(
                        old(self).variables@,
                        old(self).substitution@,
                        name,
                    ));
                }
                return cand;
            }
        }
    }
}

} // verus!

verus! {

/// Composition of two buffer extensions whose symbol windows are
/// disjoint and both lie inside `[lo, hi)`.
proof fn lemma_append_compose(
    s0: Seq<Statement>,
    s1: Seq<Statement>,
    s2: Seq<Statement>,
    lo1: nat,
    hi1: nat,
    lo2: nat,
    hi2: nat,
    lo: nat,
    hi: nat,
)
    requires
        lo <= lo1 <= hi1 <= hi,
        lo <= lo2 <= hi2 <= hi,
        hi1 <= lo2 || hi2 <= lo1,
        appended_ok(s0, s1, lo1, hi1),
        appended_ok(s1, s2, lo2, hi2),
    ensures
        appended_ok(s0, s2, lo, hi),
        defs_distinct_range(s1, s0.len() as int, s1.len() as int) && defs_distinct_range(
            s2,
            s1.len() as int,
            s2.len() as int,
        ) ==> defs_distinct_range(s2, s0.len() as int, s2.len() as int),
{
    assert forall|i: int| 0 <= i < s1.len() implies s2[i] == s1[i] by {
        assert(s2.subrange(0, s1.len() as int)[i] == s2[i]);
    }
    assert(s2.subrange(0, s0.len() as int) =~= s0);
    assert forall|i: int| s0.len() <= i < s2.len() implies stmt_ok(#[trigger] s2[i]) by {
        if i < s1.len() {
            assert(stmt_ok(s1[i]));
        }
    }
    assert forall|i: int| s0.len() <= i < s2.len() implies (match def_target(#[trigger] s2[i]) {
        Some(t) => is_sym_in(t, lo, hi),
        None => true,
    }) by {
        if i < s1.len() {
            assert(match def_target(s1[i]) {
                Some(t) => is_sym_in(t, lo1, hi1),
                None => true,
            });
        }
    }
    if defs_distinct_range(s1, s0.len() as int, s1.len() as int) && defs_distinct_range(
        s2,
        s1.len() as int,
        s2.len() as int,
    ) {
        assert forall|i: int, j: int|
            s0.len() <= i < j < s2.len() && def_target(#[trigger] s2[i]) is Some && def_target(
                #[trigger] s2[j],
            ) is Some implies def_target(s2[i]) != def_target(s2[j]) by {
            if j < s1.len() {
                assert(def_target(s1[i]) != def_target(s1[j]));
            } else if i >= s1.len() {
            } else {
                // the targets lie in the two disjoint symbol windows
                assert(match def_target(s1[i]) {
                    Some(t) => is_sym_in(t, lo1, hi1),
                    None => true,
                });
                assert(match def_target(s2[j]) {
                    Some(t) => is_sym_in(t, lo2, hi2),
                    None => true,
                });
            }
        }
    }
}

/// A single digit constraint of the boolean decomposition: the digit
/// equals its own square, which forces it into `{0, 1}`.
pub open spec fn bit_def(k: usize, i: usize) -> Statement {
    Statement::Definition(
        Identifier::Bit(k, i),
        Expression::Mult(
            Box::new(Expression::VariableReference(Identifier::Bit(k, i))),
            Box::new(Expression::VariableReference(Identifier::Bit(k, i))),
        ),
    )
}

pub open spec fn bit_defs(k: usize, bits: usize) -> Seq<Statement> {
    Seq::new(bits as nat, |i: int| bit_def(k, i as usize))
}

/// The literal `2^i` reduced into the field.
pub open spec fn pow2_lit(i: usize) -> Fp {
    Fp { v: (pow_int(2, i as nat) % (FIELD_MODULUS as int)) as u64 }
}

/// The literal `-2^i` reduced into the field.
pub open spec fn neg_pow2_lit(i: usize) -> Fp {
    Fp { v: ((0 - (pow_int(2, i as nat) % (FIELD_MODULUS as int))) % (FIELD_MODULUS as int)) as u64 }
}

/// The weighted recomposition of the first `n` low digits plus the
/// negatively weighted top digit: digit `i` of symbol `k` contributes
/// `2^i` for `i < bits - 1`, and the top digit `-2^(bits-1)`.
pub open spec fn recomp_partial(k: usize, bits: usize, n: usize) -> Expression
    decreases n,
{
    if n == 0 {
        Expression::Mult(
            Box::new(Expression::VariableReference(Identifier::Bit(k, (bits - 1) as usize))),
            Box::new(Expression::NumberLiteral(neg_pow2_lit((bits - 1) as usize))),
        )
    } else {
        Expression::Add(
            Box::new(recomp_partial(k, bits, (n - 1) as usize)),
            Box::new(
                Expression::Mult(
                    Box::new(Expression::VariableReference(Identifier::Bit(k, (n - 1) as usize))),
                    Box::new(Expression::NumberLiteral(pow2_lit((n - 1) as usize))),
                ),
            ),
        )
    }
}

pub open spec fn recomp_expr(k: usize, bits: usize) -> Expression {
    recomp_partial(k, bits, (bits - 1) as usize)
}

proof fn lemma_recomp_flattened(k: usize, bits: usize, n: usize)
    ensures
        is_flattened(recomp_partial(k, bits, n)),
    decreases n,
{
    if n == 0 {
        let leaf = Expression::VariableReference(Identifier::Bit(k, (bits - 1) as usize));
        let lit = Expression::NumberLiteral(neg_pow2_lit((bits - 1) as usize));
        assert(recomp_partial(k, bits, n) == Expression::Mult(Box::new(leaf), Box::new(lit)));
        assert(is_linear(leaf) && is_linear(lit));
    } else {
        lemma_recomp_flattened(k, bits, (n - 1) as usize);
        let leaf = Expression::VariableReference(Identifier::Bit(k, (n - 1) as usize));
        let lit = Expression::NumberLiteral(pow2_lit((n - 1) as usize));
        let m = Expression::Mult(Box::new(leaf), Box::new(lit));
        assert(is_flattened(m));
        assert(recomp_partial(k, bits, n) == Expression::Add(
            Box::new(recomp_partial(k, bits, (n - 1) as usize)),
            Box::new(m),
        ));
    }
}

/// The statement sequence of the less-than gadget over the flattened
/// sides `l` and `r`, with fresh symbols starting at `idx`: bind both
/// sides, define their difference, constrain `bits` digits to be
/// boolean, redefine the difference as the digits' two's-complement
/// recomposition, and define the false indicator as one minus the top
/// digit.
pub open spec fn lt_gadget_seq(l: Expression, r: Expression, idx: usize, bits: usize) -> Seq<
    Statement,
> {
    seq![
        Statement::Definition(Identifier::Sym(idx), l),
        Statement::Definition(Identifier::Sym((idx + 1) as usize), r),
        Statement::Definition(
            Identifier::Sym((idx + 2) as usize),
            Expression::Sub(
                Box::new(Expression::VariableReference(Identifier::Sym(idx))),
                Box::new(Expression::VariableReference(Identifier::Sym((idx + 1) as usize))),
            ),
        ),
    ] + bit_defs((idx + 2) as usize, bits) + seq![
        Statement::Definition(Identifier::Sym((idx + 2) as usize), recomp_expr((idx + 2) as usize, bits)),
        Statement::Definition(
            Identifier::Sym((idx + 3) as usize),
            Expression::Sub(
                Box::new(Expression::NumberLiteral(Fp { v: 1 })),
                Box::new(
                    Expression::VariableReference(
                        Identifier::Bit((idx + 2) as usize, (bits - 1) as usize),
                    ),
                ),
            ),
        ),
    ]
}

/// The statement sequence of the equality gadget over the flattened
/// difference `c`, with fresh symbols starting at `idx`: bind `c`, hint
/// the indicator `d`, define `1 - d` and `c - d`, hint `w = 1/(c - d)`,
/// and constrain `c*d = 0`, `d*(1-d) = 0`, `(c-d)*w = 1`.
pub open spec fn eq_gadget_seq(c: Expression, idx: usize) -> Seq<Statement> {
    seq![
        Statement::Definition(Identifier::Sym(idx), c),
        Statement::Compiler(
            Identifier::Sym((idx + 1) as usize),
            Expression::IfElse(
                Box::new(
                    Condition::Eq(
                        Expression::VariableReference(Identifier::Sym(idx)),
                        Expression::NumberLiteral(Fp { v: 0 }),
                    ),
                ),
                Box::new(Expression::NumberLiteral(Fp { v: 1 })),
                Box::new(Expression::NumberLiteral(Fp { v: 0 })),
            ),
        ),
        Statement::Definition(
            Identifier::Sym((idx + 2) as usize),
            Expression::Sub(
                Box::new(Expression::NumberLiteral(Fp { v: 1 })),
                Box::new(Expression::VariableReference(Identifier::Sym((idx + 1) as usize))),
            ),
        ),
        Statement::Definition(
            Identifier::Sym((idx + 3) as usize),
            Expression::Sub(
                Box::new(Expression::VariableReference(Identifier::Sym(idx))),
                Box::new(Expression::VariableReference(Identifier::Sym((idx + 1) as usize))),
            ),
        ),
        Statement::Compiler(
            Identifier::Sym((idx + 4) as usize),
            Expression::Div(
                Box::new(Expression::NumberLiteral(Fp { v: 1 })),
                Box::new(Expression::VariableReference(Identifier::Sym((idx + 3) as usize))),
            ),
        ),
        Statement::Condition(
            Expression::NumberLiteral(Fp { v: 0 }),
            Expression::Mult(
                Box::new(Expression::VariableReference(Identifier::Sym(idx))),
                Box::new(Expression::VariableReference(Identifier::Sym((idx + 1) as usize))),
            ),
        ),
        Statement::Condition(
            Expression::NumberLiteral(Fp { v: 0 }),
            Expression::Mult(
                Box::new(Expression::VariableReference(Identifier::Sym((idx + 1) as usize))),
                Box::new(Expression::VariableReference(Identifier::Sym((idx + 2) as usize))),
            ),
        ),
        Statement::Condition(
            Expression::NumberLiteral(Fp { v: 1 }),
            Expression::Mult(
                Box::new(Expression::VariableReference(Identifier::Sym((idx + 3) as usize))),
                Box::new(Expression::VariableReference(Identifier::Sym((idx + 4) as usize))),
            ),
        ),
    ]
}

} // verus!

verus! {

/// Appends the equality gadget for the flattened difference `c`,
/// using the five fresh symbols `idx .. idx + 5`.
fn emit_eq_gadget(stmts: &mut Vec<Statement>, c: Expression, idx: usize) -> (r: (
    Expression,
    Expression,
))
    requires
        idx + 5 <= usize::MAX,
        is_flattened(c),
    ensures
        final(stmts)@ =~= old(stmts)@ + eq_gadget_seq(c, idx),
        appended_ok(old(stmts)@, final(stmts)@, idx as nat, (idx + 5) as nat),
        defs_distinct_range(final(stmts)@, old(stmts)@.len() as int, final(stmts)@.len() as int),
        r.0 == Expression::VariableReference(Identifier::Sym((idx + 1) as usize)),
        r.1 == Expression::VariableReference(Identifier::Sym((idx + 2) as usize)),
{
    let ghost s0 = stmts@;
    stmts.push(Statement::Definition(Identifier::Sym(idx), c));
    stmts.push(
        Statement::Compiler(
            Identifier::Sym(idx + 1),
            Expression::IfElse(
                Box::new(
                    Condition::Eq(
                        Expression::VariableReference(Identifier::Sym(idx)),
                        Expression::NumberLiteral(Fp { v: 0 }),
                    ),
                ),
                Box::new(Expression::NumberLiteral(Fp { v: 1 })),
                Box::new(Expression::NumberLiteral(Fp { v: 0 })),
            ),
        ),
    );
    stmts.push(
        Statement::Definition(
            Identifier::Sym(idx + 2),
            Expression::Sub(
                Box::new(Expression::NumberLiteral(Fp { v: 1 })),
                Box::new(Expression::VariableReference(Identifier::Sym(idx + 1))),
            ),
        ),
    );
    stmts.push(
        Statement::Definition(
            Identifier::Sym(idx + 3),
            Expression::Sub(
                Box::new(Expression::VariableReference(Identifier::Sym(idx))),
                Box::new(Expression::VariableReference(Identifier::Sym(idx + 1))),
            ),
        ),
    );
    stmts.push(
        Statement::Compiler(
            Identifier::Sym(idx + 4),
            Expression::Div(
                Box::new(Expression::NumberLiteral(Fp { v: 1 })),
                Box::new(Expression::VariableReference(Identifier::Sym(idx + 3))),
            ),
        ),
    );
    stmts.push(
        Statement::Condition(
            Expression::NumberLiteral(Fp { v: 0 }),
            Expression::Mult(
                Box::new(Expression::VariableReference(Identifier::Sym(idx))),
                Box::new(Expression::VariableReference(Identifier::Sym(idx + 1))),
            ),
        ),
    );
    stmts.push(
        Statement::Condition(
            Expression::NumberLiteral(Fp { v: 0 }),
            Expression::Mult(
                Box::new(Expression::VariableReference(Identifier::Sym(idx + 1))),
                Box::new(Expression::VariableReference(Identifier::Sym(idx + 2))),
            ),
        ),
    );
    stmts.push(
        Statement::Condition(
            Expression::NumberLiteral(Fp { v: 1 }),
            Expression::Mult(
                Box::new(Expression::VariableReference(Identifier::Sym(idx + 3))),
                Box::new(Expression::VariableReference(Identifier::Sym(idx + 4))),
            ),
        ),
    );
    proof {
        assert(stmts@ =~= s0 + eq_gadget_seq(c, idx));
        let g = eq_gadget_seq(c, idx);
        assert(g.len() == 8);
        let lit0 = Expression::NumberLiteral(Fp { v: 0 });
        let lit1 = Expression::NumberLiteral(Fp { v: 1 });
        let v0 = Expression::VariableReference(Identifier::Sym(idx));
        let v1 = Expression::VariableReference(Identifier::Sym((idx + 1) as usize));
        let v2 = Expression::VariableReference(Identifier::Sym((idx + 2) as usize));
        let v3 = Expression::VariableReference(Identifier::Sym((idx + 3) as usize));
        let v4 = Expression::VariableReference(Identifier::Sym((idx + 4) as usize));
        assert(is_linear(lit0) && is_linear(lit1) && is_linear(v0) && is_linear(v1) && is_linear(
            v2,
        ) && is_linear(v3) && is_linear(v4));
        assert(is_flattened(lit0) && is_flattened(lit1) && is_flattened(v0) && is_flattened(v1)
            && is_flattened(v2) && is_flattened(v3) && is_flattened(v4));
        assert(mdp_ok(lit0) && mdp_ok(lit1) && mdp_ok(v0) && mdp_ok(v1));
        assert(stmt_ok(g[0]));
        assert(stmt_ok(g[1])) by {
            assert(cond_mdp_ok(Condition::Eq(v0, lit0)));
            assert(mdp_ok(
                Expression::IfElse(
                    Box::new(Condition::Eq(v0, lit0)),
                    Box::new(lit1),
                    Box::new(lit0),
                ),
            ));
        }
        assert(stmt_ok(g[2])) by {
            assert(is_flattened(Expression::Sub(Box::new(lit1), Box::new(v1))));
        }
        assert(stmt_ok(g[3])) by {
            assert(is_flattened(Expression::Sub(Box::new(v0), Box::new(v1))));
        }
        assert(stmt_ok(g[4])) by {
            assert(mdp_ok(Expression::Div(Box::new(lit1), Box::new(v3))));
        }
        assert(stmt_ok(g[5])) by {
            assert(is_flattened(Expression::Mult(Box::new(v0), Box::new(v1))));
        }
        assert(stmt_ok(g[6])) by {
            assert(is_flattened(Expression::Mult(Box::new(v1), Box::new(v2))));
        }
        assert(stmt_ok(g[7])) by {
            assert(is_flattened(Expression::Mult(Box::new(v3), Box::new(v4))));
        }
        assert forall|i: int| s0.len() <= i < stmts@.len() implies stmt_ok(#[trigger] stmts@[i])
            && (match def_target(stmts@[i]) {
            Some(t) => is_sym_in(t, idx as nat, (idx + 5) as nat),
            None => true,
        }) by {
            assert(stmts@[i] == g[i - s0.len()]);
        }
        assert forall|i: int, j: int|
            s0.len() <= i < j < stmts@.len() && def_target(#[trigger] stmts@[i]) is Some
                && def_target(#[trigger] stmts@[j]) is Some implies def_target(stmts@[i])
            != def_target(stmts@[j]) by {
            let g = eq_gadget_seq(c, idx);
            assert(stmts@[i] == g[i - s0.len()]);
            assert(stmts@[j] == g[j - s0.len()]);
        }
    }
    (
        Expression::VariableReference(Identifier::Sym(idx + 1)),
        Expression::VariableReference(Identifier::Sym(idx + 2)),
    )
}

} // verus!

verus! {

/// Appends the less-than gadget over the flattened sides `l` and `r`,
/// using the four fresh symbols `idx .. idx + 4` and the digit names
/// attached to the difference symbol.  Returns the true and false
/// indicator references: the top digit of the decomposition, and one
/// minus it.
fn emit_lt_gadget(
    stmts: &mut Vec<Statement>,
    l: Expression,
    r: Expression,
    idx: usize,
    bits: usize,
) -> (res: (Expression, Expression))
    requires
        idx + 4 <= usize::MAX,
        bits >= 1,
        is_flattened(l),
        is_flattened(r),
    ensures
        final(stmts)@ =~= old(stmts)@ + lt_gadget_seq(l, r, idx, bits),
        appended_ok(old(stmts)@, final(stmts)@, idx as nat, (idx + 4) as nat),
        res.0 == Expression::VariableReference(
            Identifier::Bit((idx + 2) as usize, (bits - 1) as usize),
        ),
        res.1 == Expression::VariableReference(Identifier::Sym((idx + 3) as usize)),
{
    let ghost s0 = stmts@;
    let k = idx + 2;
    let top = bits - 1;
    stmts.push(Statement::Definition(Identifier::Sym(idx), l));
    stmts.push(Statement::Definition(Identifier::Sym(idx + 1), r));
    stmts.push(
        Statement::Definition(
            Identifier::Sym(k),
            Expression::Sub(
                Box::new(Expression::VariableReference(Identifier::Sym(idx))),
                Box::new(Expression::VariableReference(Identifier::Sym(idx + 1))),
            ),
        ),
    );
    let ghost pre3 = stmts@;
    let mut i: usize = 0;
    proof {
        assert(stmts@ =~= pre3 + bit_defs(k, bits).subrange(0, 0));
    }
    while i < bits
        invariant
            i <= bits,
            k == idx + 2,
            stmts@ =~= pre3 + bit_defs(k, bits).subrange(0, i as int),
        decreases bits - i,
    {
        stmts.push(
            Statement::Definition(
                Identifier::Bit(k, i),
                Expression::Mult(
                    Box::new(Expression::VariableReference(Identifier::Bit(k, i))),
                    Box::new(Expression::VariableReference(Identifier::Bit(k, i))),
                ),
            ),
        );
        proof {
            assert(bit_defs(k, bits)[i as int] == bit_def(k, i));
            assert(bit_defs(k, bits).subrange(0, i + 1) =~= bit_defs(k, bits).subrange(
                0,
                i as int,
            ).push(bit_def(k, i)));
        }
        i = i + 1;
    }
    proof {
        assert(bit_defs(k, bits).subrange(0, bits as int) =~= bit_defs(k, bits));
    }
    // the two's-complement recomposition of the digits
    let two = Fp { v: 2 };
    let neg_top = Fp::zero().sub(two.pow(top));
    proof {
        assert(neg_top == neg_pow2_lit(top));
    }
    let mut expr = Expression::Mult(
        Box::new(Expression::VariableReference(Identifier::Bit(k, top))),
        Box::new(Expression::NumberLiteral(neg_top)),
    );
    let mut j: usize = 0;
    proof {
        assert(expr == recomp_partial(k, bits, 0));
    }
    while j < top
        invariant
            j <= top,
            top == bits - 1,
            k == idx + 2,
            two == (Fp { v: 2u64 }),
            expr == recomp_partial(k, bits, j),
        decreases top - j,
    {
        let w = two.pow(j);
        proof {
            assert(0 <= pow_int(2, j as nat) % (FIELD_MODULUS as int) < FIELD_MODULUS as int);
        }
        proof {
            assert(w == pow2_lit(j));
        }
        expr = Expression::Add(
            Box::new(expr),
            Box::new(
                Expression::Mult(
                    Box::new(Expression::VariableReference(Identifier::Bit(k, j))),
                    Box::new(Expression::NumberLiteral(w)),
                ),
            ),
        );
        j = j + 1;
    }
    stmts.push(Statement::Definition(Identifier::Sym(k), expr));
    stmts.push(
        Statement::Definition(
            Identifier::Sym(idx + 3),
            Expression::Sub(
                Box::new(Expression::NumberLiteral(Fp { v: 1 })),
                Box::new(Expression::VariableReference(Identifier::Bit(k, top))),
            ),
        ),
    );
    proof {
        let g = lt_gadget_seq(l, r, idx, bits);
        assert(g.len() == 5 + bits);
        assert(stmts@ =~= s0 + g);
        let va = Expression::VariableReference(Identifier::Sym(idx));
        let vb = Expression::VariableReference(Identifier::Sym((idx + 1) as usize));
        let vtop = Expression::VariableReference(Identifier::Bit(k, top));
        let lit1 = Expression::NumberLiteral(Fp { v: 1 });
        assert(is_linear(va) && is_linear(vb) && is_linear(vtop) && is_linear(lit1));
        assert(is_flattened(va) && is_flattened(vb) && is_flattened(vtop) && is_flattened(lit1));
        assert(stmt_ok(g[0]) && stmt_ok(g[1]));
        assert(stmt_ok(g[2])) by {
            assert(is_flattened(Expression::Sub(Box::new(va), Box::new(vb))));
        }
        assert forall|i2: int| 0 <= i2 < bits implies stmt_ok(#[trigger] g[3 + i2]) by {
            assert(g[3 + i2] == bit_def(k, i2 as usize));
            let bv = Expression::VariableReference(Identifier::Bit(k, i2 as usize));
            assert(is_linear(bv));
            assert(is_flattened(Expression::Mult(Box::new(bv), Box::new(bv))));
        }
        assert(stmt_ok(g[3 + bits])) by {
            lemma_recomp_flattened(k, bits, top);
            assert(g[3 + bits] == Statement::Definition(Identifier::Sym(k), recomp_expr(k, bits)));
        }
        assert(stmt_ok(g[4 + bits])) by {
            assert(is_flattened(Expression::Sub(Box::new(lit1), Box::new(vtop))));
        }
        assert forall|i2: int| s0.len() <= i2 < stmts@.len() implies stmt_ok(#[trigger] stmts@[i2])
            && (match def_target(stmts@[i2]) {
            Some(t) => is_sym_in(t, idx as nat, (idx + 4) as nat),
            None => true,
        }) by {
            assert(stmts@[i2] == g[i2 - s0.len()]);
            let o = i2 - s0.len();
            if 3 <= o < 3 + bits {
                assert(g[o] == bit_def(k, (o - 3) as usize));
            }
        }
    }
    (
        Expression::VariableReference(Identifier::Bit(k, top)),
        Expression::VariableReference(Identifier::Sym(idx + 3)),
    )
}

} // verus!


verus! {

/// The precondition of one flattening step on `e`: the symbol counter
/// cannot exhaust the machine integer, and a positive digit width is
/// set when a less-than gadget will be emitted.
pub open spec fn flatten_pre(pre: Flattener, e: Expression) -> bool {
    &&& pre.next_var_idx + fuel(e) <= usize::MAX
    &&& (contains_lt(e) ==> pre.bits >= 1)
}

/// The contract of one expression-flattening step: the state advances
/// only in its symbol counter and at most by the fuel of `e`; the
/// buffer is extended by statements that satisfy the output invariant
/// and define only symbols of the consumed counter window, pairwise
/// distinct unless a less-than gadget redefined its difference symbol;
/// the returned expression is flattened; and the step succeeds exactly
/// on the supported shapes, failing with the error kind matching the
/// offending shape.
pub open spec fn flatten_post(
    pre: Flattener,
    post: Flattener,
    s_pre: Seq<Statement>,
    s_post: Seq<Statement>,
    e: Expression,
    r: Result<Expression, FlattenError>,
) -> bool {
    &&& post.bits == pre.bits
    &&& post.variables == pre.variables
    &&& post.substitution == pre.substitution
    &&& pre.next_var_idx <= post.next_var_idx
    &&& post.next_var_idx <= pre.next_var_idx + fuel(e)
    &&& buffer_extended(s_pre, s_post)
    &&& (r is Ok ==> appended_ok(s_pre, s_post, pre.next_var_idx as nat, post.next_var_idx as nat))
    &&& (r matches Ok(out) ==> is_flattened(out))
    &&& (r is Ok <==> supported(e))
    &&& (r is Ok && !contains_lt(e) ==> defs_distinct_range(
        s_post,
        s_pre.len() as int,
        s_post.len() as int,
    ))
    &&& (r matches Err(k) ==> {
        &&& (k == FlattenError::UnsupportedExponent ==> has_bad_exponent(e))
        &&& (k == FlattenError::UnsupportedPowerBase ==> has_bad_base(e))
        &&& (k == FlattenError::UnsupportedCondition ==> has_bad_condition(e))
        &&& k != FlattenError::UnresolvableEquality
    })
    &&& (match spec_flatten_expression(e, pre.next_var_idx as int, pre.bits) {
        Ok((ap, out, ni)) => r == Result::<Expression, FlattenError>::Ok(out) && s_post == s_pre
            + ap && post.next_var_idx as int == ni,
        Err(k) => r == Result::<Expression, FlattenError>::Err(k),
    })
}

/// The same contract for one condition-flattening step, which returns
/// the pair of indicator references.
pub open spec fn cond_flatten_post(
    pre: Flattener,
    post: Flattener,
    s_pre: Seq<Statement>,
    s_post: Seq<Statement>,
    c: Condition,
    r: Result<(Expression, Expression), FlattenError>,
) -> bool {
    &&& post.bits == pre.bits
    &&& post.variables == pre.variables
    &&& post.substitution == pre.substitution
    &&& pre.next_var_idx <= post.next_var_idx
    &&& post.next_var_idx <= pre.next_var_idx + cond_fuel(c)
    &&& buffer_extended(s_pre, s_post)
    &&& (r is Ok ==> appended_ok(s_pre, s_post, pre.next_var_idx as nat, post.next_var_idx as nat))
    &&& (r matches Ok(p) ==> p.0 is VariableReference && p.1 is VariableReference)
    &&& (r is Ok <==> cond_supported(c))
    &&& (r is Ok && !cond_contains_lt(c) ==> defs_distinct_range(
        s_post,
        s_pre.len() as int,
        s_post.len() as int,
    ))
    &&& (r matches Err(k) ==> {
        &&& (k == FlattenError::UnsupportedExponent ==> cond_has_bad_exponent(c))
        &&& (k == FlattenError::UnsupportedPowerBase ==> cond_has_bad_base(c))
        &&& (k == FlattenError::UnsupportedCondition ==> cond_is_bad(c))
        &&& k != FlattenError::UnresolvableEquality
    })
    &&& (match spec_flatten_condition(c, pre.next_var_idx as int, pre.bits) {
        Ok((ap, tid, fid, ni)) => r == Result::<(Expression, Expression), FlattenError>::Ok(
            (
                Expression::VariableReference(tid),
                Expression::VariableReference(fid),
            ),
        ) && s_post == s_pre + ap && post.next_var_idx as int == ni,
        Err(k) => r == Result::<(Expression, Expression), FlattenError>::Err(k),
    })
}

/// Whether the node is a subtraction.
fn is_sub_node(e: &Expression) -> (r: bool)
    ensures
        r == (e matches Expression::Sub(_, _)),
{
    match e {
        Expression::Sub(_, _) => true,
        _ => false,
    }
}

impl Flattener {
    /// Binds a flattened expression to a fresh symbol and returns a
    /// reference to it.
    fn bind_to_sym(&mut self, stmts: &mut Vec<Statement>, e: Expression) -> (r: Expression)
        requires
            old(self).next_var_idx < usize::MAX,
            is_flattened(e),
        ensures
            final(self).bits == old(self).bits,
            final(self).variables == old(self).variables,
            final(self).substitution == old(self).substitution,
            final(self).next_var_idx == old(self).next_var_idx + 1,
            final(stmts)@ =~= old(stmts)@.push(
                Statement::Definition(Identifier::Sym(old(self).next_var_idx), e),
            ),
            appended_ok(
                old(stmts)@,
                final(stmts)@,
                old(self).next_var_idx as nat,
                (old(self).next_var_idx + 1) as nat,
            ),
            defs_distinct_range(final(stmts)@, old(stmts)@.len() as int, final(stmts)@.len() as int),
            r == Expression::VariableReference(Identifier::Sym(old(self).next_var_idx)),
            is_linear(r),
            is_flattened(r),
    {
        let id = Identifier::Sym(self.next_var_idx);
        self.next_var_idx = self.next_var_idx + 1;
        stmts.push(Statement::Definition(id, e));
        Expression::VariableReference(id)
    }

    /// Flattens an addition: each operand stays inline when affine
    /// and is bound to a fresh variable otherwise.
    fn flatten_add(&mut self, stmts: &mut Vec<Statement>, l: Expression, r: Expression) -> (res:
        Result<Expression, FlattenError>)
        requires
            flatten_pre(
                *old(self),
                Expression::Add(Box::new(l), Box::new(r)),
            ),
            !is_flattened(Expression::Add(Box::new(l), Box::new(r))),
        ensures
            flatten_post(
                *old(self),
                *final(self),
                old(stmts)@,
                final(stmts)@,
                Expression::Add(Box::new(l), Box::new(r)),
                res,
            ),
        decreases fuel(Expression::Add(Box::new(l), Box::new(r))), 0nat,
    {
        let ghost lg = l;
        let ghost rg = r;
        let ghost e = Expression::Add(Box::new(lg), Box::new(rg));
        let ghost s0 = stmts@;
        let ghost n0 = self.next_var_idx;
        let lf = match self.flatten_expression(stmts, l) {
            Ok(x) => x,
            Err(k) => {
                proof {
                    assert(spec_flatten_expression(e, n0 as int, self.bits) == Err::<
                        (Seq<Statement>, Expression, int),
                        FlattenError,
                    >(k));
                }
                return Err(k);
            },
        };
        let ghost s1 = stmts@;
        let ghost n1 = self.next_var_idx;
        let rf = match self.flatten_expression(stmts, r) {
            Ok(x) => x,
            Err(k) => {
                proof {
                    assert(spec_flatten_expression(e, n0 as int, self.bits) == Err::<
                        (Seq<Statement>, Expression, int),
                        FlattenError,
                    >(k));
                }
                return Err(k);
            },
        };
        let ghost s2 = stmts@;
        let ghost n2 = self.next_var_idx;
        proof {
            lemma_append_compose(
                s0, s1, s2, n0 as nat, n1 as nat, n1 as nat, n2 as nat, n0 as nat, n2 as nat,
            );
        }
        let new_l = if lf.is_linear_exec() {
            lf
        } else {
            self.bind_to_sym(stmts, lf)
        };
        let ghost s3 = stmts@;
        let ghost n3 = self.next_var_idx;
        proof {
            lemma_append_compose(
                s0, s2, s3, n0 as nat, n2 as nat, n2 as nat, n3 as nat, n0 as nat, n3 as nat,
            );
        }
        let new_r = if rf.is_linear_exec() {
            rf
        } else {
            self.bind_to_sym(stmts, rf)
        };
        let ghost s4 = stmts@;
        let ghost n4 = self.next_var_idx;
        proof {
            lemma_append_compose(
                s0, s3, s4, n0 as nat, n3 as nat, n3 as nat, n4 as nat, n0 as nat, n4 as nat,
            );
            // the executable steps equal the model's steps
            let ml = spec_flatten_expression(lg, n0 as int, self.bits);
            let (ap1, lf1, i1s) = ml->Ok_0;
            assert(lf1 == lf && s1 == s0 + ap1 && i1s == n1 as int);
            let mr = spec_flatten_expression(rg, n1 as int, self.bits);
            let (ap2, rf1, i2s) = mr->Ok_0;
            assert(rf1 == rf && s2 == s1 + ap2 && i2s == n2 as int);
            let (m3, nl, i3s) = spec_materialize(lf, n2 as int, false);
            assert(nl == new_l && i3s == n3 as int && s3 =~= s2 + m3) by {
                if is_linear(lf) && !(false && lf is Sub) {
                    assert(s2 + Seq::<Statement>::empty() =~= s2);
                } else {
                    assert(s2 + m3 =~= s2.push(
                        Statement::Definition(Identifier::Sym(n2), lf),
                    ));
                }
            }
            let (m4, nr, i4s) = spec_materialize(rf, n3 as int, false);
            assert(nr == new_r && i4s == n4 as int && s4 =~= s3 + m4) by {
                if is_linear(rf) && !(false && rf is Sub) {
                    assert(s3 + Seq::<Statement>::empty() =~= s3);
                } else {
                    assert(s3 + m4 =~= s3.push(
                        Statement::Definition(Identifier::Sym(n3), rf),
                    ));
                }
            }
            assert(spec_flatten_expression(e, n0 as int, self.bits) == Ok::<
                (Seq<Statement>, Expression, int),
                FlattenError,
            >((ap1 + ap2 + m3 + m4, Expression::Add(Box::new(nl), Box::new(nr)), i4s)));
            assert(s4 =~= s0 + (ap1 + ap2 + m3 + m4));
        }
        Ok(Expression::Add(Box::new(new_l), Box::new(new_r)))
    }

    /// Flattens a subtraction, like an addition.
    fn flatten_sub(&mut self, stmts: &mut Vec<Statement>, l: Expression, r: Expression) -> (res:
        Result<Expression, FlattenError>)
        requires
            flatten_pre(
                *old(self),
                Expression::Sub(Box::new(l), Box::new(r)),
            ),
            !is_flattened(Expression::Sub(Box::new(l), Box::new(r))),
        ensures
            flatten_post(
                *old(self),
                *final(self),
                old(stmts)@,
                final(stmts)@,
                Expression::Sub(Box::new(l), Box::new(r)),
                res,
            ),
        decreases fuel(Expression::Sub(Box::new(l), Box::new(r))), 0nat,
    {
        let ghost lg = l;
        let ghost rg = r;
        let ghost e = Expression::Sub(Box::new(lg), Box::new(rg));
        let ghost s0 = stmts@;
        let ghost n0 = self.next_var_idx;
        let lf = match self.flatten_expression(stmts, l) {
            Ok(x) => x,
            Err(k) => {
                proof {
                    assert(spec_flatten_expression(e, n0 as int, self.bits) == Err::<
                        (Seq<Statement>, Expression, int),
                        FlattenError,
                    >(k));
                }
                return Err(k);
            },
        };
        let ghost s1 = stmts@;
        let ghost n1 = self.next_var_idx;
        let rf = match self.flatten_expression(stmts, r) {
            Ok(x) => x,
            Err(k) => {
                proof {
                    assert(spec_flatten_expression(e, n0 as int, self.bits) == Err::<
                        (Seq<Statement>, Expression, int),
                        FlattenError,
                    >(k));
                }
                return Err(k);
            },
        };
        let ghost s2 = stmts@;
        let ghost n2 = self.next_var_idx;
        proof {
            lemma_append_compose(
                s0, s1, s2, n0 as nat, n1 as nat, n1 as nat, n2 as nat, n0 as nat, n2 as nat,
            );
        }
        let new_l = if lf.is_linear_exec() {
            lf
        } else {
            self.bind_to_sym(stmts, lf)
        };
        let ghost s3 = stmts@;
        let ghost n3 = self.next_var_idx;
        proof {
            lemma_append_compose(
                s0, s2, s3, n0 as nat, n2 as nat, n2 as nat, n3 as nat, n0 as nat, n3 as nat,
            );
        }
        let new_r = if rf.is_linear_exec() {
            rf
        } else {
            self.bind_to_sym(stmts, rf)
        };
        let ghost s4 = stmts@;
        let ghost n4 = self.next_var_idx;
        proof {
            lemma_append_compose(
                s0, s3, s4, n0 as nat, n3 as nat, n3 as nat, n4 as nat, n0 as nat, n4 as nat,
            );
            // the executable steps equal the model's steps
            let ml = spec_flatten_expression(lg, n0 as int, self.bits);
            let (ap1, lf1, i1s) = ml->Ok_0;
            assert(lf1 == lf && s1 == s0 + ap1 && i1s == n1 as int);
            let mr = spec_flatten_expression(rg, n1 as int, self.bits);
            let (ap2, rf1, i2s) = mr->Ok_0;
            assert(rf1 == rf && s2 == s1 + ap2 && i2s == n2 as int);
            let (m3, nl, i3s) = spec_materialize(lf, n2 as int, false);
            assert(nl == new_l && i3s == n3 as int && s3 =~= s2 + m3) by {
                if is_linear(lf) && !(false && lf is Sub) {
                    assert(s2 + Seq::<Statement>::empty() =~= s2);
                } else {
                    assert(s2 + m3 =~= s2.push(
                        Statement::Definition(Identifier::Sym(n2), lf),
                    ));
                }
            }
            let (m4, nr, i4s) = spec_materialize(rf, n3 as int, false);
            assert(nr == new_r && i4s == n4 as int && s4 =~= s3 + m4) by {
                if is_linear(rf) && !(false && rf is Sub) {
                    assert(s3 + Seq::<Statement>::empty() =~= s3);
                } else {
                    assert(s3 + m4 =~= s3.push(
                        Statement::Definition(Identifier::Sym(n3), rf),
                    ));
                }
            }
            assert(spec_flatten_expression(e, n0 as int, self.bits) == Ok::<
                (Seq<Statement>, Expression, int),
                FlattenError,
            >((ap1 + ap2 + m3 + m4, Expression::Sub(Box::new(nl), Box::new(nr)), i4s)));
            assert(s4 =~= s0 + (ap1 + ap2 + m3 + m4));
        }
        Ok(Expression::Sub(Box::new(new_l), Box::new(new_r)))
    }

    /// Flattens a multiplication; affine operands stay inline except
    /// a Sub-shaped one, which is still materialized.
    fn flatten_mult(&mut self, stmts: &mut Vec<Statement>, l: Expression, r: Expression) -> (res:
        Result<Expression, FlattenError>)
        requires
            flatten_pre(
                *old(self),
                Expression::Mult(Box::new(l), Box::new(r)),
            ),
            !is_flattened(Expression::Mult(Box::new(l), Box::new(r))),
        ensures
            flatten_post(
                *old(self),
                *final(self),
                old(stmts)@,
                final(stmts)@,
                Expression::Mult(Box::new(l), Box::new(r)),
                res,
            ),
        decreases fuel(Expression::Mult(Box::new(l), Box::new(r))), 0nat,
    {
        let ghost lg = l;
        let ghost rg = r;
        let ghost e = Expression::Mult(Box::new(lg), Box::new(rg));
        let ghost s0 = stmts@;
        let ghost n0 = self.next_var_idx;
        let lf = match self.flatten_expression(stmts, l) {
            Ok(x) => x,
            Err(k) => {
                proof {
                    assert(spec_flatten_expression(e, n0 as int, self.bits) == Err::<
                        (Seq<Statement>, Expression, int),
                        FlattenError,
                    >(k));
                }
                return Err(k);
            },
        };
        let ghost s1 = stmts@;
        let ghost n1 = self.next_var_idx;
        let rf = match self.flatten_expression(stmts, r) {
            Ok(x) => x,
            Err(k) => {
                proof {
                    assert(spec_flatten_expression(e, n0 as int, self.bits) == Err::<
                        (Seq<Statement>, Expression, int),
                        FlattenError,
                    >(k));
                }
                return Err(k);
            },
        };
        let ghost s2 = stmts@;
        let ghost n2 = self.next_var_idx;
        proof {
            lemma_append_compose(
                s0, s1, s2, n0 as nat, n1 as nat, n1 as nat, n2 as nat, n0 as nat, n2 as nat,
            );
        }
        let new_l = if lf.is_linear_exec() {
            if is_sub_node(&lf) {
            // a Sub-shaped affine operand is still materialized under
            // Mult; the asymmetry with Div is deliberate
            self.bind_to_sym(stmts, lf)
        } else {
            lf
        }
        } else {
            self.bind_to_sym(stmts, lf)
        };
        let ghost s3 = stmts@;
        let ghost n3 = self.next_var_idx;
        proof {
            lemma_append_compose(
                s0, s2, s3, n0 as nat, n2 as nat, n2 as nat, n3 as nat, n0 as nat, n3 as nat,
            );
        }
        let new_r = if rf.is_linear_exec() {
            if is_sub_node(&rf) {
            self.bind_to_sym(stmts, rf)
        } else {
            rf
        }
        } else {
            self.bind_to_sym(stmts, rf)
        };
        let ghost s4 = stmts@;
        let ghost n4 = self.next_var_idx;
        proof {
            lemma_append_compose(
                s0, s3, s4, n0 as nat, n3 as nat, n3 as nat, n4 as nat, n0 as nat, n4 as nat,
            );
            // the executable steps equal the model's steps
            let ml = spec_flatten_expression(lg, n0 as int, self.bits);
            let (ap1, lf1, i1s) = ml->Ok_0;
            assert(lf1 == lf && s1 == s0 + ap1 && i1s == n1 as int);
            let mr = spec_flatten_expression(rg, n1 as int, self.bits);
            let (ap2, rf1, i2s) = mr->Ok_0;
            assert(rf1 == rf && s2 == s1 + ap2 && i2s == n2 as int);
            let (m3, nl, i3s) = spec_materialize(lf, n2 as int, true);
            assert(nl == new_l && i3s == n3 as int && s3 =~= s2 + m3) by {
                if is_linear(lf) && !(true && lf is Sub) {
                    assert(s2 + Seq::<Statement>::empty() =~= s2);
                } else {
                    assert(s2 + m3 =~= s2.push(
                        Statement::Definition(Identifier::Sym(n2), lf),
                    ));
                }
            }
            let (m4, nr, i4s) = spec_materialize(rf, n3 as int, true);
            assert(nr == new_r && i4s == n4 as int && s4 =~= s3 + m4) by {
                if is_linear(rf) && !(true && rf is Sub) {
                    assert(s3 + Seq::<Statement>::empty() =~= s3);
                } else {
                    assert(s3 + m4 =~= s3.push(
                        Statement::Definition(Identifier::Sym(n3), rf),
                    ));
                }
            }
            assert(spec_flatten_expression(e, n0 as int, self.bits) == Ok::<
                (Seq<Statement>, Expression, int),
                FlattenError,
            >((ap1 + ap2 + m3 + m4, Expression::Mult(Box::new(nl), Box::new(nr)), i4s)));
            assert(s4 =~= s0 + (ap1 + ap2 + m3 + m4));
        }
        Ok(Expression::Mult(Box::new(new_l), Box::new(new_r)))
    }

    /// Flattens a division: each operand stays inline when affine.
    fn flatten_div(&mut self, stmts: &mut Vec<Statement>, l: Expression, r: Expression) -> (res:
        Result<Expression, FlattenError>)
        requires
            flatten_pre(
                *old(self),
                Expression::Div(Box::new(l), Box::new(r)),
            ),
            !is_flattened(Expression::Div(Box::new(l), Box::new(r))),
        ensures
            flatten_post(
                *old(self),
                *final(self),
                old(stmts)@,
                final(stmts)@,
                Expression::Div(Box::new(l), Box::new(r)),
                res,
            ),
        decreases fuel(Expression::Div(Box::new(l), Box::new(r))), 0nat,
    {
        let ghost lg = l;
        let ghost rg = r;
        let ghost e = Expression::Div(Box::new(lg), Box::new(rg));
        let ghost s0 = stmts@;
        let ghost n0 = self.next_var_idx;
        let lf = match self.flatten_expression(stmts, l) {
            Ok(x) => x,
            Err(k) => {
                proof {
                    assert(spec_flatten_expression(e, n0 as int, self.bits) == Err::<
                        (Seq<Statement>, Expression, int),
                        FlattenError,
                    >(k));
                }
                return Err(k);
            },
        };
        let ghost s1 = stmts@;
        let ghost n1 = self.next_var_idx;
        let rf = match self.flatten_expression(stmts, r) {
            Ok(x) => x,
            Err(k) => {
                proof {
                    assert(spec_flatten_expression(e, n0 as int, self.bits) == Err::<
                        (Seq<Statement>, Expression, int),
                        FlattenError,
                    >(k));
                }
                return Err(k);
            },
        };
        let ghost s2 = stmts@;
        let ghost n2 = self.next_var_idx;
        proof {
            lemma_append_compose(
                s0, s1, s2, n0 as nat, n1 as nat, n1 as nat, n2 as nat, n0 as nat, n2 as nat,
            );
        }
        let new_l = if lf.is_linear_exec() {
            lf
        } else {
            self.bind_to_sym(stmts, lf)
        };
        let ghost s3 = stmts@;
        let ghost n3 = self.next_var_idx;
        proof {
            lemma_append_compose(
                s0, s2, s3, n0 as nat, n2 as nat, n2 as nat, n3 as nat, n0 as nat, n3 as nat,
            );
        }
        let new_r = if rf.is_linear_exec() {
            rf
        } else {
            self.bind_to_sym(stmts, rf)
        };
        let ghost s4 = stmts@;
        let ghost n4 = self.next_var_idx;
        proof {
            lemma_append_compose(
                s0, s3, s4, n0 as nat, n3 as nat, n3 as nat, n4 as nat, n0 as nat, n4 as nat,
            );
            // the executable steps equal the model's steps
            let ml = spec_flatten_expression(lg, n0 as int, self.bits);
            let (ap1, lf1, i1s) = ml->Ok_0;
            assert(lf1 == lf && s1 == s0 + ap1 && i1s == n1 as int);
            let mr = spec_flatten_expression(rg, n1 as int, self.bits);
            let (ap2, rf1, i2s) = mr->Ok_0;
            assert(rf1 == rf && s2 == s1 + ap2 && i2s == n2 as int);
            let (m3, nl, i3s) = spec_materialize(lf, n2 as int, false);
            assert(nl == new_l && i3s == n3 as int && s3 =~= s2 + m3) by {
                if is_linear(lf) && !(false && lf is Sub) {
                    assert(s2 + Seq::<Statement>::empty() =~= s2);
                } else {
                    assert(s2 + m3 =~= s2.push(
                        Statement::Definition(Identifier::Sym(n2), lf),
                    ));
                }
            }
            let (m4, nr, i4s) = spec_materialize(rf, n3 as int, false);
            assert(nr == new_r && i4s == n4 as int && s4 =~= s3 + m4) by {
                if is_linear(rf) && !(false && rf is Sub) {
                    assert(s3 + Seq::<Statement>::empty() =~= s3);
                } else {
                    assert(s3 + m4 =~= s3.push(
                        Statement::Definition(Identifier::Sym(n3), rf),
                    ));
                }
            }
            assert(spec_flatten_expression(e, n0 as int, self.bits) == Ok::<
                (Seq<Statement>, Expression, int),
                FlattenError,
            >((ap1 + ap2 + m3 + m4, Expression::Div(Box::new(nl), Box::new(nr)), i4s)));
            assert(s4 =~= s0 + (ap1 + ap2 + m3 + m4));
        }
        Ok(Expression::Div(Box::new(new_l), Box::new(new_r)))
    }

    /// Unrolls an exponentiation into a chain of multiplications, one
    /// per unit of the exponent, by recursing on the decremented
    /// exponent down to the squaring base case.  The exponent must be
    /// a literal greater than one and the base a literal or variable.
    fn flatten_pow(&mut self, stmts: &mut Vec<Statement>, b: Expression, ex: Expression) -> (res:
        Result<Expression, FlattenError>)
        requires
            flatten_pre(*old(self), Expression::Pow(Box::new(b), Box::new(ex))),
            !is_flattened(Expression::Pow(Box::new(b), Box::new(ex))),
        ensures
            flatten_post(
                *old(self),
                *final(self),
                old(stmts)@,
                final(stmts)@,
                Expression::Pow(Box::new(b), Box::new(ex)),
                res,
            ),
        decreases fuel(Expression::Pow(Box::new(b), Box::new(ex))), 0nat,
    {
        let ghost e = Expression::Pow(Box::new(b), Box::new(ex));
        match ex {
            Expression::NumberLiteral(x) => {
                if x.v > 1 {
                    match b {
                        Expression::VariableReference(var) => {
                            if x.v > 2 {
                                let ghost s0 = stmts@;
                                let ghost n0 = self.next_var_idx;
                                let sub_e = Expression::Pow(
                                    Box::new(Expression::VariableReference(var)),
                                    Box::new(Expression::NumberLiteral(Fp { v: x.v - 1 })),
                                );
                                proof {
                                    assert(fuel(Expression::VariableReference(var)) == 1);
                                    assert(fuel(sub_e) == 3 + x.v);
                                    assert(!has_bad_exponent(sub_e) && !has_bad_base(sub_e)
                                        && !has_bad_condition(sub_e) && !contains_lt(sub_e));
                                }
                                let tmp = match self.flatten_expression(stmts, sub_e) {
                                    Ok(t) => t,
                                    Err(k) => {
                                        proof {
                                            assert(false);
                                        }
                                        return Err(k);
                                    },
                                };
                                let ghost s1 = stmts@;
                                let ghost n1 = self.next_var_idx;
                                let new_ref = self.bind_to_sym(stmts, tmp);
                                let ghost s2 = stmts@;
                                let ghost n2 = self.next_var_idx;
                                proof {
                                    lemma_append_compose(
                                        s0, s1, s2, n0 as nat, n1 as nat, n1 as nat, n2 as nat,
                                        n0 as nat, n2 as nat,
                                    );
                                }
                                Ok(
                                    Expression::Mult(
                                        Box::new(new_ref),
                                        Box::new(Expression::VariableReference(var)),
                                    ),
                                )
                            } else {
                                Ok(
                                    Expression::Mult(
                                        Box::new(Expression::VariableReference(var)),
                                        Box::new(Expression::VariableReference(var)),
                                    ),
                                )
                            }
                        },
                        Expression::NumberLiteral(base_lit) => {
                            if x.v > 2 {
                                let ghost s0 = stmts@;
                                let ghost n0 = self.next_var_idx;
                                let sub_e = Expression::Pow(
                                    Box::new(Expression::NumberLiteral(base_lit)),
                                    Box::new(Expression::NumberLiteral(Fp { v: x.v - 1 })),
                                );
                                proof {
                                    assert(fuel(Expression::NumberLiteral(base_lit)) == 1);
                                    assert(fuel(sub_e) == 3 + x.v);
                                    assert(!has_bad_exponent(sub_e) && !has_bad_base(sub_e)
                                        && !has_bad_condition(sub_e) && !contains_lt(sub_e));
                                }
                                let tmp = match self.flatten_expression(stmts, sub_e) {
                                    Ok(t) => t,
                                    Err(k) => {
                                        proof {
                                            assert(false);
                                        }
                                        return Err(k);
                                    },
                                };
                                let ghost s1 = stmts@;
                                let ghost n1 = self.next_var_idx;
                                let new_ref = self.bind_to_sym(stmts, tmp);
                                let ghost s2 = stmts@;
                                let ghost n2 = self.next_var_idx;
                                proof {
                                    lemma_append_compose(
                                        s0, s1, s2, n0 as nat, n1 as nat, n1 as nat, n2 as nat,
                                        n0 as nat, n2 as nat,
                                    );
                                }
                                Ok(
                                    Expression::Mult(
                                        Box::new(new_ref),
                                        Box::new(Expression::NumberLiteral(base_lit)),
                                    ),
                                )
                            } else {
                                Ok(
                                    Expression::Mult(
                                        Box::new(Expression::NumberLiteral(base_lit)),
                                        Box::new(Expression::NumberLiteral(base_lit)),
                                    ),
                                )
                            }
                        },
                        _ => Err(FlattenError::UnsupportedPowerBase),
                    }
                } else {
                    Err(FlattenError::UnsupportedExponent)
                }
            },
            _ => Err(FlattenError::UnsupportedExponent),
        }
    }

    /// Lowers a conditional expression: flatten the condition into the
    /// two indicators, then flatten
    /// `indicator_true * consequent + indicator_false * alternative`.
    fn flatten_ifelse(
        &mut self,
        stmts: &mut Vec<Statement>,
        c: Condition,
        t: Expression,
        f: Expression,
    ) -> (res: Result<Expression, FlattenError>)
        requires
            flatten_pre(
                *old(self),
                Expression::IfElse(Box::new(c), Box::new(t), Box::new(f)),
            ),
            !is_flattened(Expression::IfElse(Box::new(c), Box::new(t), Box::new(f))),
        ensures
            flatten_post(
                *old(self),
                *final(self),
                old(stmts)@,
                final(stmts)@,
                Expression::IfElse(Box::new(c), Box::new(t), Box::new(f)),
                res,
            ),
        decreases fuel(Expression::IfElse(Box::new(c), Box::new(t), Box::new(f))), 0nat,
    {
        let ghost cg = c;
        let ghost e = Expression::IfElse(Box::new(c), Box::new(t), Box::new(f));
        let ghost s0 = stmts@;
        let ghost n0 = self.next_var_idx;
        let pair = match self.flatten_condition(stmts, c) {
            Ok(p) => p,
            Err(k) => {
                proof {
                    assert(spec_flatten_expression(e, n0 as int, self.bits) == Err::<
                        (Seq<Statement>, Expression, int),
                        FlattenError,
                    >(k));
                }
                return Err(k);
            },
        };
        let (cond_true, cond_false) = pair;
        let ghost s1 = stmts@;
        let ghost n1 = self.next_var_idx;
        let ghost ct = cond_true;
        let ghost cf = cond_false;
        let ghost tspec = t;
        let ghost fspec = f;
        // (condition true * consequent) + (condition false * alternative)
        let combined = Expression::Add(
            Box::new(Expression::Mult(Box::new(cond_true), Box::new(t))),
            Box::new(Expression::Mult(Box::new(cond_false), Box::new(f))),
        );
        proof {
            let m1 = Expression::Mult(Box::new(ct), Box::new(tspec));
            let m2 = Expression::Mult(Box::new(cf), Box::new(fspec));
            assert(combined == Expression::Add(Box::new(m1), Box::new(m2)));
            assert(fuel(ct) == 1 && fuel(cf) == 1);
            assert(fuel(m1) == 4 + fuel(tspec) && fuel(m2) == 4 + fuel(fspec));
            assert(fuel(combined) == 11 + fuel(tspec) + fuel(fspec));
            assert(cond_fuel(c) >= 11);
            assert(!contains_lt(ct) && !contains_lt(cf));
            assert(contains_lt(m1) == contains_lt(tspec));
            assert(contains_lt(m2) == contains_lt(fspec));
            assert(contains_lt(combined) == (contains_lt(tspec) || contains_lt(fspec)));
            assert(!has_bad_exponent(ct) && !has_bad_exponent(cf) && !has_bad_base(ct)
                && !has_bad_base(cf) && !has_bad_condition(ct) && !has_bad_condition(cf));
            assert(has_bad_exponent(m1) == has_bad_exponent(tspec) && has_bad_exponent(m2)
                == has_bad_exponent(fspec));
            assert(has_bad_exponent(combined) == (has_bad_exponent(tspec) || has_bad_exponent(
                fspec,
            )));
            assert(has_bad_base(m1) == has_bad_base(tspec) && has_bad_base(m2) == has_bad_base(
                fspec,
            ));
            assert(has_bad_base(combined) == (has_bad_base(tspec) || has_bad_base(fspec)));
            assert(has_bad_condition(m1) == has_bad_condition(tspec) && has_bad_condition(m2)
                == has_bad_condition(fspec));
            assert(has_bad_condition(combined) == (has_bad_condition(tspec) || has_bad_condition(
                fspec,
            )));
        }
        let ghost combined_g = combined;
        let res = match self.flatten_expression(stmts, combined) {
            Ok(x) => x,
            Err(k) => {
                proof {
                    let mc = spec_flatten_condition(cg, n0 as int, self.bits);
                    let (ap1, tid, fid, i1s) = mc->Ok_0;
                    assert(ct == Expression::VariableReference(tid) && cf
                        == Expression::VariableReference(fid) && i1s == n1 as int);
                    assert(spec_flatten_expression(e, n0 as int, self.bits) == Err::<
                        (Seq<Statement>, Expression, int),
                        FlattenError,
                    >(k));
                }
                return Err(k);
            },
        };
        let ghost s2 = stmts@;
        let ghost n2 = self.next_var_idx;
        proof {
            lemma_append_compose(
                s0, s1, s2, n0 as nat, n1 as nat, n1 as nat, n2 as nat, n0 as nat, n2 as nat,
            );
            let mc = spec_flatten_condition(cg, n0 as int, self.bits);
            let (ap1, tid, fid, i1s) = mc->Ok_0;
            assert(ct == Expression::VariableReference(tid) && cf
                == Expression::VariableReference(fid) && s1 == s0 + ap1 && i1s == n1 as int);
            let m2 = spec_flatten_expression(combined_g, n1 as int, self.bits);
            let (ap2, rr, i2s) = m2->Ok_0;
            assert(rr == res && s2 == s1 + ap2 && i2s == n2 as int);
            assert(spec_flatten_expression(e, n0 as int, self.bits) == Ok::<
                (Seq<Statement>, Expression, int),
                FlattenError,
            >((ap1 + ap2, rr, i2s)));
            assert(s2 =~= s0 + (ap1 + ap2));
        }
        Ok(res)
    }

    /// Returns a flattened expression equal in meaning to `expr`,
    /// appending the definitions that bind the intermediate values it
    /// needs.  Every returned expression is in flattened form; every
    /// appended statement satisfies the output invariant and defines
    /// only fresh symbols of the counter window this call consumed.
    /// Succeeds exactly on the supported shapes.
    pub fn flatten_expression(&mut self, stmts: &mut Vec<Statement>, expr: Expression) -> (r:
        Result<Expression, FlattenError>)
        requires
            flatten_pre(*old(self), expr),
        ensures
            flatten_post(*old(self), *final(self), old(stmts)@, final(stmts)@, expr, r),
        decreases fuel(expr), 1nat,
    {
        // an expression already in flattened form passes through
        if expr.is_flattened_exec() {
            proof {
                lemma_flattened_supported(expr);
            }
            return Ok(expr);
        }
        match expr {
            // unreachable: literals and variables are already in
            // flattened form and passed through above
            Expression::NumberLiteral(x) => {
                proof {
                    assert(false);
                }
                Ok(Expression::NumberLiteral(x))
            },
            Expression::VariableReference(v) => {
                proof {
                    assert(false);
                }
                Ok(Expression::VariableReference(v))
            },
            Expression::Add(l, r) => self.flatten_add(stmts, *l, *r),
            Expression::Sub(l, r) => self.flatten_sub(stmts, *l, *r),
            Expression::Mult(l, r) => self.flatten_mult(stmts, *l, *r),
            Expression::Div(l, r) => self.flatten_div(stmts, *l, *r),
            Expression::Pow(b, ex) => self.flatten_pow(stmts, *b, *ex),
            Expression::IfElse(c, t, f) => self.flatten_ifelse(stmts, *c, *t, *f),
        }
    }

    /// Lowers a relational condition into a pair of boolean indicator
    /// expressions — the first evaluating to one exactly when the
    /// condition holds, the second its complement — appending the
    /// gadget constraints to the buffer.  Succeeds exactly on `Lt` and
    /// `Eq` conditions whose sides are supported.
    #[verifier::rlimit(100)]
    pub fn flatten_condition(&mut self, stmts: &mut Vec<Statement>, condition: Condition) -> (r:
        Result<(Expression, Expression), FlattenError>)
        requires
            old(self).next_var_idx + cond_fuel(condition) <= usize::MAX,
            cond_contains_lt(condition) ==> old(self).bits >= 1,
        ensures
            cond_flatten_post(
                *old(self),
                *final(self),
                old(stmts)@,
                final(stmts)@,
                condition,
                r,
            ),
        decreases cond_fuel(condition), 1nat,
    {
        let ghost cond_g = condition;
        match condition {
            Condition::Lt(lhs, rhs) => {
                let ghost lhg = lhs;
                let ghost rhg = rhs;
                let ghost s0 = stmts@;
                let ghost n0 = self.next_var_idx;
                let lf = match self.flatten_expression(stmts, lhs) {
                    Ok(x) => x,
                    Err(k) => {
                        proof {
                            assert(spec_flatten_condition(cond_g, n0 as int, self.bits) == Err::<
                                (Seq<Statement>, Identifier, Identifier, int),
                                FlattenError,
                            >(k));
                        }
                        return Err(k);
                    },
                };
                let ghost s1 = stmts@;
                let ghost n1 = self.next_var_idx;
                let rf = match self.flatten_expression(stmts, rhs) {
                    Ok(x) => x,
                    Err(k) => {
                        proof {
                            assert(spec_flatten_condition(cond_g, n0 as int, self.bits) == Err::<
                                (Seq<Statement>, Identifier, Identifier, int),
                                FlattenError,
                            >(k));
                        }
                        return Err(k);
                    },
                };
                let ghost s2 = stmts@;
                let ghost n2 = self.next_var_idx;
                proof {
                    lemma_append_compose(
                        s0, s1, s2, n0 as nat, n1 as nat, n1 as nat, n2 as nat, n0 as nat,
                        n2 as nat,
                    );
                }
                let idx = self.next_var_idx;
                self.next_var_idx = idx + 4;
                let pair = emit_lt_gadget(stmts, lf, rf, idx, self.bits);
                let ghost s3 = stmts@;
                let ghost n3 = self.next_var_idx;
                proof {
                    lemma_append_compose(
                        s0, s2, s3, n0 as nat, n2 as nat, n2 as nat, n3 as nat, n0 as nat,
                        n3 as nat,
                    );
                    let ml = spec_flatten_expression(lhg, n0 as int, self.bits);
                    let (ap1, lf1, i1s) = ml->Ok_0;
                    assert(lf1 == lf && s1 == s0 + ap1 && i1s == n1 as int);
                    let mr = spec_flatten_expression(rhg, n1 as int, self.bits);
                    let (ap2, rf1, i2s) = mr->Ok_0;
                    assert(rf1 == rf && s2 == s1 + ap2 && i2s == n2 as int);
                    assert((i2s as usize) == idx && ((i2s + 2) as usize) == idx + 2 && ((i2s + 3)
                        as usize) == idx + 3);
                    assert(spec_flatten_condition(cond_g, n0 as int, self.bits) == Ok::<
                        (Seq<Statement>, Identifier, Identifier, int),
                        FlattenError,
                    >(
                        (
                            ap1 + ap2 + lt_gadget_seq(lf, rf, idx, self.bits),
                            Identifier::Bit((idx + 2) as usize, (self.bits - 1) as usize),
                            Identifier::Sym((idx + 3) as usize),
                            i2s + 4,
                        ),
                    ));
                    assert(s3 =~= s0 + (ap1 + ap2 + lt_gadget_seq(lf, rf, idx, self.bits)));
                }
                Ok(pair)
            },
            Condition::Eq(lhs, rhs) => {
                let ghost s0 = stmts@;
                let ghost n0 = self.next_var_idx;
                let idx = self.next_var_idx;
                self.next_var_idx = idx + 5;
                let diff = Expression::Sub(Box::new(lhs), Box::new(rhs));
                let ghost diff_g = diff;
                let cexp = match self.flatten_expression(stmts, diff) {
                    Ok(x) => x,
                    Err(k) => {
                        proof {
                            assert(spec_flatten_condition(cond_g, n0 as int, self.bits) == Err::<
                                (Seq<Statement>, Identifier, Identifier, int),
                                FlattenError,
                            >(k));
                        }
                        return Err(k);
                    },
                };
                let ghost s1 = stmts@;
                let ghost n1 = self.next_var_idx;
                let pair = emit_eq_gadget(stmts, cexp, idx);
                let ghost s2 = stmts@;
                let ghost n2 = self.next_var_idx;
                proof {
                    lemma_append_compose(
                        s0,
                        s1,
                        s2,
                        (idx + 5) as nat,
                        n1 as nat,
                        idx as nat,
                        (idx + 5) as nat,
                        n0 as nat,
                        n2 as nat,
                    );
                    let md = spec_flatten_expression(diff_g, n0 as int + 5, self.bits);
                    let (ap1, ce1, i1s) = md->Ok_0;
                    assert(ce1 == cexp && s1 == s0 + ap1 && i1s == n1 as int);
                    assert(((n0 as int + 1) as usize) == idx + 1 && ((n0 as int + 2) as usize)
                        == idx + 2);
                    assert(spec_flatten_condition(cond_g, n0 as int, self.bits) == Ok::<
                        (Seq<Statement>, Identifier, Identifier, int),
                        FlattenError,
                    >(
                        (
                            ap1 + eq_gadget_seq(cexp, idx),
                            Identifier::Sym((idx + 1) as usize),
                            Identifier::Sym((idx + 2) as usize),
                            i1s,
                        ),
                    ));
                    assert(s2 =~= s0 + (ap1 + eq_gadget_seq(cexp, idx)));
                }
                Ok(pair)
            },
            Condition::Le(_, _) => Err(FlattenError::UnsupportedCondition),
            Condition::Ge(_, _) => Err(FlattenError::UnsupportedCondition),
            Condition::Gt(_, _) => Err(FlattenError::UnsupportedCondition),
        }
    }
}

} // verus!

verus! {

// ------------------------------------------------------------------
// Program-level predicates
// ------------------------------------------------------------------

pub open spec fn stmt_fuel(s: Statement) -> nat {
    match s {
        Statement::Return(e) => fuel(e),
        Statement::Definition(_, e) => fuel(e),
        Statement::Condition(l, r) => fuel(l) + fuel(r),
        Statement::Compiler(_, _) => 0,
    }
}

/// The total counter budget of a statement sequence.
pub open spec fn seq_fuel(ss: Seq<Statement>) -> nat
    decreases ss.len(),
{
    if ss.len() == 0 {
        0
    } else {
        stmt_fuel(ss[0]) + seq_fuel(ss.skip(1))
    }
}

/// The flattening pass succeeds on this statement exactly when this
/// holds: its expressions are supported, and a constraint equality has
/// at least one affine side.
pub open spec fn stmt_supported(s: Statement) -> bool {
    match s {
        Statement::Return(e) => supported(e),
        Statement::Definition(_, e) => supported(e),
        Statement::Condition(l, r) => supported(l) && supported(r) && (is_linear(l) || is_linear(
            r,
        )),
        Statement::Compiler(_, _) => true,
    }
}

pub open spec fn prog_supported(p: Prog) -> bool {
    forall|i: int| 0 <= i < p.statements@.len() ==> stmt_supported(#[trigger] p.statements@[i])
}

pub open spec fn stmt_contains_lt(s: Statement) -> bool {
    match s {
        Statement::Return(e) => contains_lt(e),
        Statement::Definition(_, e) => contains_lt(e),
        Statement::Condition(l, r) => contains_lt(l) || contains_lt(r),
        Statement::Compiler(_, _) => false,
    }
}

/// A less-than condition occurs somewhere in the program.
pub open spec fn prog_contains_lt(p: Prog) -> bool {
    exists|i: int| 0 <= i < p.statements@.len() && stmt_contains_lt(#[trigger] p.statements@[i])
}

/// A source program: every definition target is a plain source name.
/// The suffixed, symbol, digit and output names are reserved for the
/// pass itself.
pub open spec fn prog_source_form(p: Prog) -> bool {
    forall|i: int|
        0 <= i < p.statements@.len() ==> (match #[trigger] p.statements@[i] {
            Statement::Definition(x, _) => x is Name,
            _ => true,
        })
}

/// Hint statements pass through the flattening verbatim, so the output
/// invariant holds of them only when it held on the input.
pub open spec fn prog_hints_ok(p: Prog) -> bool {
    forall|i: int|
        0 <= i < p.statements@.len() ==> (match #[trigger] p.statements@[i] {
            Statement::Compiler(_, e) => mdp_ok(e),
            _ => true,
        })
}

pub open spec fn stmt_has_bad_exponent(s: Statement) -> bool {
    match s {
        Statement::Return(e) => has_bad_exponent(e),
        Statement::Definition(_, e) => has_bad_exponent(e),
        Statement::Condition(l, r) => has_bad_exponent(l) || has_bad_exponent(r),
        Statement::Compiler(_, _) => false,
    }
}

pub open spec fn stmt_has_bad_base(s: Statement) -> bool {
    match s {
        Statement::Return(e) => has_bad_base(e),
        Statement::Definition(_, e) => has_bad_base(e),
        Statement::Condition(l, r) => has_bad_base(l) || has_bad_base(r),
        Statement::Compiler(_, _) => false,
    }
}

pub open spec fn stmt_has_bad_condition(s: Statement) -> bool {
    match s {
        Statement::Return(e) => has_bad_condition(e),
        Statement::Definition(_, e) => has_bad_condition(e),
        Statement::Condition(l, r) => has_bad_condition(l) || has_bad_condition(r),
        Statement::Compiler(_, _) => false,
    }
}

/// A constraint equality neither side of which is affine.
pub open spec fn stmt_unresolvable(s: Statement) -> bool {
    match s {
        Statement::Condition(l, r) => !is_linear(l) && !is_linear(r),
        _ => false,
    }
}

/// Names the pass may store in its used-variable set: never the fresh
/// gadget symbols, which are guaranteed unique by the counter alone.
pub open spec fn vars_form(vars: Seq<Identifier>) -> bool {
    forall|i: int| 0 <= i < vars.len() ==> !(#[trigger] vars[i] is Sym) && !(vars[i] is Bit)
}

/// The driver's buffer invariant: every definition target is either a
/// fresh symbol below the counter or a user-derived name recorded in
/// the used-variable set.
pub open spec fn buf_inv(s: Seq<Statement>, vars: Seq<Identifier>, hi: nat) -> bool {
    forall|i: int|
        0 <= i < s.len() ==> (match def_target(#[trigger] s[i]) {
            Some(t) => is_sym_in(t, 0, hi) || vars.contains(t),
            None => true,
        })
}

/// Recording one more used name keeps the buffer invariant.
proof fn lemma_buf_vars_push(s: Seq<Statement>, vars: Seq<Identifier>, v: Identifier, hi: nat)
    requires
        buf_inv(s, vars, hi),
    ensures
        buf_inv(s, vars.push(v), hi),
{
    assert forall|x: Identifier| vars.contains(x) implies vars.push(v).contains(x) by {
        let w = choose|w: int| 0 <= w < vars.len() && vars[w] == x;
        assert(vars.push(v)[w] == x);
    }
}

/// Extending the buffer by a flattening step preserves the driver's
/// invariants: the appended definitions bind fresh symbols only.
proof fn lemma_buf_extend(
    s0: Seq<Statement>,
    s1: Seq<Statement>,
    vars: Seq<Identifier>,
    n0: nat,
    n1: nat,
    no_lt: bool,
)
    requires
        n0 <= n1,
        vars_form(vars),
        buf_inv(s0, vars, n0),
        appended_ok(s0, s1, n0, n1),
        no_lt ==> defs_distinct_range(s0, 0, s0.len() as int) && defs_distinct_range(
            s1,
            s0.len() as int,
            s1.len() as int,
        ),
    ensures
        buf_inv(s1, vars, n1),
        no_lt ==> defs_distinct_range(s1, 0, s1.len() as int),
        (forall|i: int| 0 <= i < s0.len() ==> stmt_ok(#[trigger] s0[i])) ==> (forall|i: int|
            0 <= i < s1.len() ==> stmt_ok(#[trigger] s1[i])),
        (forall|i: int|
            0 <= i < s0.len() ==> (#[trigger] s0[i]) is Compiler || stmt_ok(s0[i])) ==> (forall|
            i: int,
        |
            0 <= i < s1.len() ==> (#[trigger] s1[i]) is Compiler || stmt_ok(s1[i])),
{
    assert forall|i: int| 0 <= i < s0.len() implies s1[i] == s0[i] by {
        assert(s1.subrange(0, s0.len() as int)[i] == s1[i]);
    }
    if forall|i: int| 0 <= i < s0.len() ==> stmt_ok(#[trigger] s0[i]) {
        assert forall|i: int| 0 <= i < s1.len() implies stmt_ok(#[trigger] s1[i]) by {
            if i < s0.len() {
                assert(stmt_ok(s0[i]));
            }
        }
    }
    if forall|i: int| 0 <= i < s0.len() ==> (#[trigger] s0[i]) is Compiler || stmt_ok(s0[i]) {
        assert forall|i: int|
            0 <= i < s1.len() implies (#[trigger] s1[i]) is Compiler || stmt_ok(s1[i]) by {
            if i < s0.len() {
                assert(s0[i] is Compiler || stmt_ok(s0[i]));
            }
        }
    }
    assert forall|i: int| 0 <= i < s1.len() implies (match def_target(#[trigger] s1[i]) {
        Some(t) => is_sym_in(t, 0, n1) || vars.contains(t),
        None => true,
    }) by {
        if i < s0.len() {
            assert(match def_target(s0[i]) {
                Some(t) => is_sym_in(t, 0, n0) || vars.contains(t),
                None => true,
            });
        }
    }
    if no_lt {
        assert forall|i: int, j: int|
            0 <= i < j < s1.len() && def_target(#[trigger] s1[i]) is Some && def_target(
                #[trigger] s1[j],
            ) is Some implies def_target(s1[i]) != def_target(s1[j]) by {
            if j < s0.len() {
                assert(def_target(s0[i]) != def_target(s0[j]));
            } else if i >= s0.len() {
            } else {
                // the new target is a fresh symbol of `[n0, n1)`; the
                // old one is an older symbol or a recorded user name
                let t1 = def_target(s1[i])->Some_0;
                let t2 = def_target(s1[j])->Some_0;
                assert(is_sym_in(t2, n0, n1));
                assert(is_sym_in(t1, 0, n0) || vars.contains(t1));
                if vars.contains(t1) {
                    let w = choose|w: int| 0 <= w < vars.len() && vars[w] == t1;
                    assert(!(vars[w] is Sym) && !(vars[w] is Bit));
                }
            }
        }
    }
}

impl Flattener {
    /// Flattens a whole program: resets the transformer state, then
    /// processes the statements in order, applying the renaming
    /// substitution, flattening expressions and conditions, renaming
    /// definition targets into single-assignment form, and passing
    /// hints through verbatim.  The output program keeps the input's
    /// identifier and argument list; every output statement satisfies
    /// the flattened-form invariant, and definition targets are
    /// pairwise distinct for programs without a less-than condition,
    /// whose gadget deliberately redefines its difference symbol.
    /// Succeeds exactly on supported programs, failing with the error
    /// kind of the offending shape.
    #[verifier::rlimit(100)]
    pub fn flatten_program(&mut self, prog: Prog) -> (r: Result<Prog, FlattenError>)
        requires
            prog.statements@.len() + 2 <= usize::MAX,
            seq_fuel(prog.statements@) <= usize::MAX,
            prog_source_form(prog),
            prog_contains_lt(prog) ==> old(self).bits >= 1,
        ensures
            final(self).bits == old(self).bits,
            r is Ok <==> prog_supported(prog),
            r matches Ok(out) ==> {
                &&& out.id == prog.id
                &&& out.arguments == prog.arguments
                &&& (forall|i: int|
                    0 <= i < out.statements@.len() ==> (#[trigger] out.statements@[i]) is Compiler
                        || stmt_ok(out.statements@[i]))
                &&& (prog_hints_ok(prog) ==> forall|i: int|
                    0 <= i < out.statements@.len() ==> stmt_ok(#[trigger] out.statements@[i]))
                &&& (!prog_contains_lt(prog) ==> defs_distinct_range(
                    out.statements@,
                    0,
                    out.statements@.len() as int,
                ))
            },
            (match spec_flatten_program(prog, old(self).bits) {
                Ok(out_seq) => (match r {
                    Ok(out) => out.statements@ == out_seq,
                    Err(_) => false,
                }),
                Err(k) => r == Result::<Prog, FlattenError>::Err(k),
            }),
            r matches Err(k) ==> {
                &&& (k == FlattenError::UnsupportedExponent ==> exists|i: int|
                    0 <= i < prog.statements@.len() && stmt_has_bad_exponent(
                        #[trigger] prog.statements@[i],
                    ))
                &&& (k == FlattenError::UnsupportedPowerBase ==> exists|i: int|
                    0 <= i < prog.statements@.len() && stmt_has_bad_base(
                        #[trigger] prog.statements@[i],
                    ))
                &&& (k == FlattenError::UnsupportedCondition ==> exists|i: int|
                    0 <= i < prog.statements@.len() && stmt_has_bad_condition(
                        #[trigger] prog.statements@[i],
                    ))
                &&& (k == FlattenError::UnresolvableEquality ==> exists|i: int|
                    0 <= i < prog.statements@.len() && stmt_unresolvable(
                        #[trigger] prog.statements@[i],
                    ))
            },
    {
        let ghost gprog = prog;
        let Prog { id, arguments, statements } = prog;
        let ghost orig = statements@;
        let mut remaining = statements;
        let mut statements_flattened: Vec<Statement> = Vec::new();
        self.variables = Vec::new();
        self.substitution = Vec::new();
        self.next_var_idx = 0;
        let ghost total = orig.len() as int;
        proof {
            assert(remaining@ =~= orig.skip(0));
            let full = spec_flatten_stmts(orig, Seq::<Identifier>::empty(), Seq::<(
                Identifier,
                Identifier,
            )>::empty(), 0, self.bits);
            if full is Ok {
                let (o2, v2, s2, i2) = full->Ok_0;
                assert(Seq::<Statement>::empty() + o2 =~= o2);
            }
        }
        while remaining.len() > 0
            invariant
                self.bits == old(self).bits,
                gprog == prog,
                orig == gprog.statements@,
                total == orig.len(),
                gprog.statements@.len() + 2 <= usize::MAX,
                seq_fuel(gprog.statements@) <= usize::MAX,
                prog_source_form(gprog),
                prog_contains_lt(gprog) ==> self.bits >= 1,
                remaining@ =~= orig.skip(total - remaining@.len()),
                remaining@.len() <= orig.len(),
                self.next_var_idx as nat + seq_fuel(remaining@) <= usize::MAX,
                self.variables@.len() + remaining@.len() <= orig.len(),
                self.substitution@.len() + remaining@.len() <= orig.len(),
                vars_form(self.variables@),
                buf_inv(statements_flattened@, self.variables@, self.next_var_idx as nat),
                prog_hints_ok(gprog) ==> forall|i: int|
                    0 <= i < statements_flattened@.len() ==> stmt_ok(
                        #[trigger] statements_flattened@[i],
                    ),
                !prog_contains_lt(gprog) ==> defs_distinct_range(
                    statements_flattened@,
                    0,
                    statements_flattened@.len() as int,
                ),
                forall|j: int|
                    0 <= j < total - remaining@.len() ==> stmt_supported(#[trigger] orig[j]),
                forall|i: int|
                    0 <= i < statements_flattened@.len() ==> (
                    #[trigger] statements_flattened@[i]) is Compiler || stmt_ok(
                        statements_flattened@[i],
                    ),
                spec_flatten_stmts(
                    orig,
                    Seq::<Identifier>::empty(),
                    Seq::<(Identifier, Identifier)>::empty(),
                    0,
                    self.bits,
                ) == (match spec_flatten_stmts(
                    remaining@,
                    self.variables@,
                    self.substitution@,
                    self.next_var_idx as int,
                    self.bits,
                ) {
                    Ok((o2, v2, s2, i2)) => Ok::<
                        (Seq<Statement>, Seq<Identifier>, Seq<(Identifier, Identifier)>, int),
                        FlattenError,
                    >((statements_flattened@ + o2, v2, s2, i2)),
                    Err(k) => Err::<
                        (Seq<Statement>, Seq<Identifier>, Seq<(Identifier, Identifier)>, int),
                        FlattenError,
                    >(k),
                }),
            decreases remaining@.len(),
        {
            let ghost k = total - remaining@.len();
            let ghost cur = orig[k];
            let ghost rem0 = remaining@;
            let ghost s_pre = statements_flattened@;
            let ghost n_pre = self.next_var_idx;
            let ghost vars0 = self.variables@;
            let ghost subs = self.substitution@;
            proof {
                broadcast use vstd::seq_lib::lemma_seq_skip_index, vstd::seq_lib::lemma_seq_skip_len;

                assert(remaining@[0] == orig.skip(k)[0]);
                assert(orig.skip(k)[0] == orig[k]);
                assert(remaining@.skip(1) =~= orig.skip(k).skip(1));
                assert(orig.skip(k).skip(1) =~= orig.skip(k + 1));
                assert(seq_fuel(remaining@) == stmt_fuel(remaining@[0]) + seq_fuel(
                    remaining@.skip(1),
                ));
            }
            let def = remaining.remove(0);
            let ghost gdef = def;
            proof {
                assert(gdef == orig[k]);
                assert(remaining@ =~= orig.skip(k + 1));
            }
            match def {
                Statement::Return(expr) => {
                    let ghost e0 = expr;
                    proof {
                        lemma_subst_preserves_structure(subs, e0);
                        if contains_lt(e0) {
                            assert(stmt_contains_lt(gprog.statements@[k]));
                        }
                    }
                    let expr_subbed = expr.apply_substitution(&self.substitution);
                    let rhs = match self.flatten_expression(&mut statements_flattened, expr_subbed)
                        {
                        Ok(x) => x,
                        Err(e) => {
                            proof {
                                assert(gprog.statements@[k] == Statement::Return(e0));
                                assert(!stmt_supported(gprog.statements@[k]));
                                assert(0 <= k < gprog.statements@.len());
                                assert(!prog_supported(gprog));
                                assert(rem0[0] == cur && rem0.skip(1) =~= remaining@);
                                assert(spec_flatten_stmts(rem0, vars0, subs, n_pre as int, self.bits)
                                    == Err::<(Seq<Statement>, Seq<Identifier>, Seq<(Identifier, Identifier)>, int), FlattenError>(e));
                                assert(spec_flatten_program(gprog, old(self).bits) == Err::<
                                    Seq<Statement>,
                                    FlattenError,
                                >(e));
                            }
                            return Err(e);
                        },
                    };
                    proof {
                        assert(gprog.statements@[k] == Statement::Return(e0));
                        assert(stmt_supported(gprog.statements@[k]));
                        lemma_buf_extend(
                            s_pre,
                            statements_flattened@,
                            self.variables@,
                            n_pre as nat,
                            self.next_var_idx as nat,
                            !prog_contains_lt(gprog),
                        );
                    }
                    let ghost vars_pre = self.variables@;
                    self.variables.push(Identifier::Out);
                    let ghost s_mid = statements_flattened@;
                    proof {
                        assert(self.variables@ =~= vars_pre.push(Identifier::Out));
                        lemma_buf_vars_push(
                            s_mid,
                            vars_pre,
                            Identifier::Out,
                            self.next_var_idx as nat,
                        );
                    }
                    statements_flattened.push(Statement::Return(rhs));
                    proof {
                        assert forall|i: int| 0 <= i < s_mid.len() implies statements_flattened@[i]
                            == s_mid[i] by {}
                        assert(statements_flattened@.last() == Statement::Return(rhs));
                        assert(stmt_ok(Statement::Return(rhs)));
                        // the step taken equals the model's step
                        let me = spec_flatten_expression(subst_expr(subs, e0), n_pre as int, self.bits);
                        let (ap, rr, i1s) = me->Ok_0;
                        assert(rr == rhs && s_mid == s_pre + ap && i1s == self.next_var_idx as int);
                        assert(rem0[0] == cur && rem0.skip(1) =~= remaining@);
                        assert(self.variables@ == vars0.push(Identifier::Out));
                        assert(self.substitution@ == subs);
                        let mrest = spec_flatten_stmts(
                            remaining@,
                            self.variables@,
                            self.substitution@,
                            self.next_var_idx as int,
                            self.bits,
                        );
                        assert(spec_flatten_stmts(rem0, vars0, subs, n_pre as int, self.bits) == (
                        match mrest {
                            Ok((o2, v2, s2, i2)) => Ok::<(Seq<Statement>, Seq<Identifier>, Seq<(Identifier, Identifier)>, int), FlattenError>(
                                (ap.push(Statement::Return(rr)) + o2, v2, s2, i2),
                            ),
                            Err(kk) => Err::<(Seq<Statement>, Seq<Identifier>, Seq<(Identifier, Identifier)>, int), FlattenError>(kk),
                        }));
                        if mrest is Ok {
                            let (o2, v2, s2, i2) = mrest->Ok_0;
                            assert(statements_flattened@ + o2 =~= s_pre + (ap.push(
                                Statement::Return(rr),
                            ) + o2));
                        }
                    }
                },
                Statement::Definition(id_name, expr) => {
                    let ghost e0 = expr;
                    proof {
                        assert(gprog.statements@[k] matches Statement::Definition(x, _) && x
                            is Name);
                        lemma_subst_preserves_structure(subs, e0);
                        if contains_lt(e0) {
                            assert(stmt_contains_lt(gprog.statements@[k]));
                        }
                    }
                    let expr_subbed = expr.apply_substitution(&self.substitution);
                    let rhs = match self.flatten_expression(&mut statements_flattened, expr_subbed)
                        {
                        Ok(x) => x,
                        Err(e) => {
                            proof {
                                assert(gprog.statements@[k] == Statement::Definition(id_name, e0));
                                assert(!stmt_supported(gprog.statements@[k]));
                                assert(0 <= k < gprog.statements@.len());
                                assert(!prog_supported(gprog));
                                assert(rem0[0] == cur && rem0.skip(1) =~= remaining@);
                                assert(spec_flatten_stmts(rem0, vars0, subs, n_pre as int, self.bits)
                                    == Err::<(Seq<Statement>, Seq<Identifier>, Seq<(Identifier, Identifier)>, int), FlattenError>(e));
                                assert(spec_flatten_program(gprog, old(self).bits) == Err::<
                                    Seq<Statement>,
                                    FlattenError,
                                >(e));
                            }
                            return Err(e);
                        },
                    };
                    proof {
                        assert(gprog.statements@[k] == Statement::Definition(id_name, e0));
                        assert(stmt_supported(gprog.statements@[k]));
                        lemma_buf_extend(
                            s_pre,
                            statements_flattened@,
                            self.variables@,
                            n_pre as nat,
                            self.next_var_idx as nat,
                            !prog_contains_lt(gprog),
                        );
                    }
                    let ghost vars_pre = self.variables@;
                    let new_name = self.use_variable(id_name);
                    let ghost s_mid = statements_flattened@;
                    let ghost vars_mid = self.variables@;
                    proof {
                        assert(vars_mid =~= vars_pre.push(new_name));
                        lemma_buf_vars_push(s_mid, vars_pre, new_name, self.next_var_idx as nat);
                    }
                    statements_flattened.push(Statement::Definition(new_name, rhs));
                    proof {
                        assert forall|i: int| 0 <= i < s_mid.len() implies statements_flattened@[i]
                            == s_mid[i] by {}
                        assert(statements_flattened@.last() == Statement::Definition(
                            new_name,
                            rhs,
                        ));
                        assert(stmt_ok(Statement::Definition(new_name, rhs)));
                        // the renamed target is recorded in the new used set
                        assert(vars_mid[vars_mid.len() - 1] == new_name);
                        assert(vars_mid.contains(new_name));
                        // older user targets were recorded before the renaming
                        // picked a fresh name, hence they differ from it
                        assert forall|i: int|
                            0 <= i < s_mid.len() && def_target(#[trigger] s_mid[i]) is Some implies
                            def_target(s_mid[i]) != Some(new_name) by {
                            let t = def_target(s_mid[i])->Some_0;
                            assert(is_sym_in(t, 0, self.next_var_idx as nat) || vars_pre.contains(
                                t,
                            ));
                            if !is_sym_in(t, 0, self.next_var_idx as nat) {
                                assert(!vars_pre.contains(new_name));
                            }
                        }
                        // the step taken equals the model's step
                        let me = spec_flatten_expression(subst_expr(subs, e0), n_pre as int, self.bits);
                        let (ap, rr, i1s) = me->Ok_0;
                        assert(rr == rhs && s_mid == s_pre + ap && i1s == self.next_var_idx as int);
                        let (nn, v2m, s2m) = spec_use_variable(vars0, subs, id_name);
                        assert(nn == new_name && v2m == self.variables@ && s2m
                            == self.substitution@);
                        assert(rem0[0] == cur && rem0.skip(1) =~= remaining@);
                        let mrest = spec_flatten_stmts(
                            remaining@,
                            self.variables@,
                            self.substitution@,
                            self.next_var_idx as int,
                            self.bits,
                        );
                        assert(spec_flatten_stmts(rem0, vars0, subs, n_pre as int, self.bits) == (
                        match mrest {
                            Ok((o2, v2, s2, i2)) => Ok::<(Seq<Statement>, Seq<Identifier>, Seq<(Identifier, Identifier)>, int), FlattenError>(
                                (ap.push(Statement::Definition(nn, rr)) + o2, v2, s2, i2),
                            ),
                            Err(kk) => Err::<(Seq<Statement>, Seq<Identifier>, Seq<(Identifier, Identifier)>, int), FlattenError>(kk),
                        }));
                        if mrest is Ok {
                            let (o2, v2, s2, i2) = mrest->Ok_0;
                            assert(statements_flattened@ + o2 =~= s_pre + (ap.push(
                                Statement::Definition(nn, rr),
                            ) + o2));
                        }
                    }
                },
                Statement::Condition(expr1, expr2) => {
                    let ghost e1 = expr1;
                    let ghost e2 = expr2;
                    proof {
                        lemma_subst_preserves_structure(subs, e1);
                        lemma_subst_preserves_structure(subs, e2);
                        if contains_lt(e1) || contains_lt(e2) {
                            assert(stmt_contains_lt(gprog.statements@[k]));
                        }
                    }
                    let expr1_subbed = expr1.apply_substitution(&self.substitution);
                    let expr2_subbed = expr2.apply_substitution(&self.substitution);
                    proof {
                        assert(gprog.statements@[k] == Statement::Condition(e1, e2));
                    }
                    let (lhs, rhs) = if expr1_subbed.is_linear_exec() {
                        let flat = match self.flatten_expression(
                            &mut statements_flattened,
                            expr2_subbed,
                        ) {
                            Ok(x) => x,
                            Err(e) => {
                                proof {
                                    assert(!stmt_supported(gprog.statements@[k]));
                                    assert(0 <= k < gprog.statements@.len());
                                    assert(!prog_supported(gprog));
                                    assert(rem0[0] == cur && rem0.skip(1) =~= remaining@);
                                    assert(spec_flatten_stmts(
                                        rem0,
                                        vars0,
                                        subs,
                                        n_pre as int,
                                        self.bits,
                                    ) == Err::<(Seq<Statement>, Seq<Identifier>, Seq<(Identifier, Identifier)>, int), FlattenError>(e));
                                    assert(spec_flatten_program(gprog, old(self).bits) == Err::<
                                        Seq<Statement>,
                                        FlattenError,
                                    >(e));
                                }
                                return Err(e);
                            },
                        };
                        (expr1_subbed, flat)
                    } else if expr2_subbed.is_linear_exec() {
                        let flat = match self.flatten_expression(
                            &mut statements_flattened,
                            expr1_subbed,
                        ) {
                            Ok(x) => x,
                            Err(e) => {
                                proof {
                                    assert(!stmt_supported(gprog.statements@[k]));
                                    assert(0 <= k < gprog.statements@.len());
                                    assert(!prog_supported(gprog));
                                    assert(rem0[0] == cur && rem0.skip(1) =~= remaining@);
                                    assert(spec_flatten_stmts(
                                        rem0,
                                        vars0,
                                        subs,
                                        n_pre as int,
                                        self.bits,
                                    ) == Err::<(Seq<Statement>, Seq<Identifier>, Seq<(Identifier, Identifier)>, int), FlattenError>(e));
                                    assert(spec_flatten_program(gprog, old(self).bits) == Err::<
                                        Seq<Statement>,
                                        FlattenError,
                                    >(e));
                                }
                                return Err(e);
                            },
                        };
                        (expr2_subbed, flat)
                    } else {
                        proof {
                            assert(stmt_unresolvable(gprog.statements@[k]));
                            assert(!stmt_supported(gprog.statements@[k]));
                            assert(0 <= k < gprog.statements@.len());
                            assert(!prog_supported(gprog));
                            assert(rem0[0] == cur && rem0.skip(1) =~= remaining@);
                            assert(spec_flatten_stmts(rem0, vars0, subs, n_pre as int, self.bits)
                                == Err::<(Seq<Statement>, Seq<Identifier>, Seq<(Identifier, Identifier)>, int), FlattenError>(FlattenError::UnresolvableEquality));
                            assert(spec_flatten_program(gprog, old(self).bits) == Err::<
                                Seq<Statement>,
                                FlattenError,
                            >(FlattenError::UnresolvableEquality));
                        }
                        return Err(FlattenError::UnresolvableEquality);
                    };
                    proof {
                        lemma_flattened_supported(expr1_subbed);
                        lemma_flattened_supported(expr2_subbed);
                        lemma_flattened_supported(lhs);
                        assert(stmt_supported(gprog.statements@[k]));
                        lemma_buf_extend(
                            s_pre,
                            statements_flattened@,
                            self.variables@,
                            n_pre as nat,
                            self.next_var_idx as nat,
                            !prog_contains_lt(gprog),
                        );
                    }
                    let ghost s_mid = statements_flattened@;
                    statements_flattened.push(Statement::Condition(lhs, rhs));
                    proof {
                        assert forall|i: int| 0 <= i < s_mid.len() implies statements_flattened@[i]
                            == s_mid[i] by {}
                        assert(statements_flattened@.last() == Statement::Condition(lhs, rhs));
                        assert(stmt_ok(Statement::Condition(lhs, rhs)));
                        // the step taken equals the model's step
                        let a = subst_expr(subs, e1);
                        let b = subst_expr(subs, e2);
                        let flattened_side = if is_linear(a) {
                            b
                        } else {
                            a
                        };
                        let me = spec_flatten_expression(flattened_side, n_pre as int, self.bits);
                        let (ap, rr, i1s) = me->Ok_0;
                        assert(rr == rhs && s_mid == s_pre + ap && i1s == self.next_var_idx as int);
                        assert(lhs == (if is_linear(a) {
                            a
                        } else {
                            b
                        }));
                        assert(rem0[0] == cur && rem0.skip(1) =~= remaining@);
                        let mrest = spec_flatten_stmts(
                            remaining@,
                            self.variables@,
                            self.substitution@,
                            self.next_var_idx as int,
                            self.bits,
                        );
                        assert(spec_flatten_stmts(rem0, vars0, subs, n_pre as int, self.bits) == (
                        match mrest {
                            Ok((o2, v2, s2, i2)) => Ok::<(Seq<Statement>, Seq<Identifier>, Seq<(Identifier, Identifier)>, int), FlattenError>(
                                (ap.push(Statement::Condition(lhs, rr)) + o2, v2, s2, i2),
                            ),
                            Err(kk) => Err::<(Seq<Statement>, Seq<Identifier>, Seq<(Identifier, Identifier)>, int), FlattenError>(kk),
                        }));
                        if mrest is Ok {
                            let (o2, v2, s2, i2) = mrest->Ok_0;
                            assert(statements_flattened@ + o2 =~= s_pre + (ap.push(
                                Statement::Condition(lhs, rr),
                            ) + o2));
                        }
                    }
                },
                Statement::Compiler(hint_name, hint_expr) => {
                    let ghost s_mid = statements_flattened@;
                    statements_flattened.push(Statement::Compiler(hint_name, hint_expr));
                    proof {
                        assert forall|i: int| 0 <= i < s_mid.len() implies statements_flattened@[i]
                            == s_mid[i] by {}
                        assert(statements_flattened@.last() == Statement::Compiler(
                            hint_name,
                            hint_expr,
                        ));
                        assert(gprog.statements@[k] == Statement::Compiler(
                            hint_name,
                            hint_expr,
                        ));
                        assert(stmt_supported(gprog.statements@[k]));
                        if prog_hints_ok(gprog) {
                            assert(mdp_ok(hint_expr));
                            assert(stmt_ok(Statement::Compiler(hint_name, hint_expr)));
                        }
                        // the step taken equals the model's step
                        assert(rem0[0] == cur && rem0.skip(1) =~= remaining@);
                        let mrest = spec_flatten_stmts(
                            remaining@,
                            self.variables@,
                            self.substitution@,
                            self.next_var_idx as int,
                            self.bits,
                        );
                        assert(spec_flatten_stmts(rem0, vars0, subs, n_pre as int, self.bits) == (
                        match mrest {
                            Ok((o2, v2, s2, i2)) => Ok::<(Seq<Statement>, Seq<Identifier>, Seq<(Identifier, Identifier)>, int), FlattenError>(
                                (seq![Statement::Compiler(hint_name, hint_expr)] + o2, v2, s2, i2),
                            ),
                            Err(kk) => Err::<(Seq<Statement>, Seq<Identifier>, Seq<(Identifier, Identifier)>, int), FlattenError>(kk),
                        }));
                        if mrest is Ok {
                            let (o2, v2, s2, i2) = mrest->Ok_0;
                            assert(statements_flattened@ + o2 =~= s_pre + (seq![
                                Statement::Compiler(hint_name, hint_expr),
                            ] + o2));
                        }
                    }
                },
            }
        }
        proof {
            assert(orig.skip(total).len() == 0);
            assert forall|i: int| 0 <= i < gprog.statements@.len() implies stmt_supported(
                #[trigger] gprog.statements@[i],
            ) by {}
            // the model's run ends here with exactly the built buffer
            assert(spec_flatten_stmts(
                remaining@,
                self.variables@,
                self.substitution@,
                self.next_var_idx as int,
                self.bits,
            ) == Ok::<(Seq<Statement>, Seq<Identifier>, Seq<(Identifier, Identifier)>, int), FlattenError>(
                (
                    Seq::<Statement>::empty(),
                    self.variables@,
                    self.substitution@,
                    self.next_var_idx as int,
                ),
            ));
            assert(statements_flattened@ + Seq::<Statement>::empty() =~= statements_flattened@);
            assert(spec_flatten_program(gprog, old(self).bits) == Ok::<Seq<Statement>, FlattenError>(
                statements_flattened@,
            ));
        }
        Ok(Prog { id, arguments, statements: statements_flattened })
    }
}

} // verus!

verus! {

// ------------------------------------------------------------------
// The functional model of the pass
// ------------------------------------------------------------------
//
// These spec functions compute, for a given input and counter
// position, exactly the statements the pass appends, the expression
// or indicator pair it returns, and the counter it leaves behind.
// Each executable function below ensures that its effect equals its
// model, so the output of the pass is fully determined by its input:
// two runs on equal inputs are equal, statement for statement.

/// One operand of a binary node: an affine operand stays inline —
/// except a `Sub`-shaped one where `force_sub` is set, as under
/// `Mult` — and any other is bound to the next fresh symbol.
pub open spec fn spec_materialize(opnd: Expression, idx: int, force_sub: bool) -> (
    Seq<Statement>,
    Expression,
    int,
) {
    if is_linear(opnd) && !(force_sub && opnd is Sub) {
        (Seq::empty(), opnd, idx)
    } else {
        (
            seq![Statement::Definition(Identifier::Sym(idx as usize), opnd)],
            Expression::VariableReference(Identifier::Sym(idx as usize)),
            idx + 1,
        )
    }
}

/// The statements appended, expression returned and counter left by
/// flattening `e` with the counter at `idx`.
pub open spec fn spec_flatten_expression(e: Expression, idx: int, bits: usize) -> Result<
    (Seq<Statement>, Expression, int),
    FlattenError,
>
    decreases fuel(e),
{
    if is_flattened(e) {
        Ok((Seq::empty(), e, idx))
    } else {
        match e {
            Expression::NumberLiteral(_) => Ok((Seq::empty(), e, idx)),
            Expression::VariableReference(_) => Ok((Seq::empty(), e, idx)),
            Expression::Add(l, r) => match spec_flatten_expression(*l, idx, bits) {
                Ok((s1, lf, i1)) => match spec_flatten_expression(*r, i1, bits) {
                    Ok((s2, rf, i2)) => {
                        let (s3, nl, i3) = spec_materialize(lf, i2, false);
                        let (s4, nr, i4) = spec_materialize(rf, i3, false);
                        Ok(
                            (
                                s1 + s2 + s3 + s4,
                                Expression::Add(Box::new(nl), Box::new(nr)),
                                i4,
                            ),
                        )
                    },
                    Err(k) => Err(k),
                },
                Err(k) => Err(k),
            },
            Expression::Sub(l, r) => match spec_flatten_expression(*l, idx, bits) {
                Ok((s1, lf, i1)) => match spec_flatten_expression(*r, i1, bits) {
                    Ok((s2, rf, i2)) => {
                        let (s3, nl, i3) = spec_materialize(lf, i2, false);
                        let (s4, nr, i4) = spec_materialize(rf, i3, false);
                        Ok(
                            (
                                s1 + s2 + s3 + s4,
                                Expression::Sub(Box::new(nl), Box::new(nr)),
                                i4,
                            ),
                        )
                    },
                    Err(k) => Err(k),
                },
                Err(k) => Err(k),
            },
            Expression::Mult(l, r) => match spec_flatten_expression(*l, idx, bits) {
                Ok((s1, lf, i1)) => match spec_flatten_expression(*r, i1, bits) {
                    Ok((s2, rf, i2)) => {
                        let (s3, nl, i3) = spec_materialize(lf, i2, true);
                        let (s4, nr, i4) = spec_materialize(rf, i3, true);
                        Ok(
                            (
                                s1 + s2 + s3 + s4,
                                Expression::Mult(Box::new(nl), Box::new(nr)),
                                i4,
                            ),
                        )
                    },
                    Err(k) => Err(k),
                },
                Err(k) => Err(k),
            },
            Expression::Div(l, r) => match spec_flatten_expression(*l, idx, bits) {
                Ok((s1, lf, i1)) => match spec_flatten_expression(*r, i1, bits) {
                    Ok((s2, rf, i2)) => {
                        let (s3, nl, i3) = spec_materialize(lf, i2, false);
                        let (s4, nr, i4) = spec_materialize(rf, i3, false);
                        Ok(
                            (
                                s1 + s2 + s3 + s4,
                                Expression::Div(Box::new(nl), Box::new(nr)),
                                i4,
                            ),
                        )
                    },
                    Err(k) => Err(k),
                },
                Err(k) => Err(k),
            },
            Expression::Pow(b, ex) => match *ex {
                Expression::NumberLiteral(x) => if x.v > 1 {
                    match *b {
                        Expression::VariableReference(var) => if x.v > 2 {
                            match spec_flatten_expression(
                                Expression::Pow(
                                    Box::new(Expression::VariableReference(var)),
                                    Box::new(Expression::NumberLiteral(Fp { v: (x.v - 1) as u64 })),
                                ),
                                idx,
                                bits,
                            ) {
                                Ok((s1, tmp, i1)) => Ok(
                                    (
                                        s1.push(
                                            Statement::Definition(
                                                Identifier::Sym(i1 as usize),
                                                tmp,
                                            ),
                                        ),
                                        Expression::Mult(
                                            Box::new(
                                                Expression::VariableReference(
                                                    Identifier::Sym(i1 as usize),
                                                ),
                                            ),
                                            Box::new(Expression::VariableReference(var)),
                                        ),
                                        i1 + 1,
                                    ),
                                ),
                                Err(k) => Err(k),
                            }
                        } else {
                            Ok(
                                (
                                    Seq::empty(),
                                    Expression::Mult(
                                        Box::new(Expression::VariableReference(var)),
                                        Box::new(Expression::VariableReference(var)),
                                    ),
                                    idx,
                                ),
                            )
                        },
                        Expression::NumberLiteral(bl) => if x.v > 2 {
                            match spec_flatten_expression(
                                Expression::Pow(
                                    Box::new(Expression::NumberLiteral(bl)),
                                    Box::new(Expression::NumberLiteral(Fp { v: (x.v - 1) as u64 })),
                                ),
                                idx,
                                bits,
                            ) {
                                Ok((s1, tmp, i1)) => Ok(
                                    (
                                        s1.push(
                                            Statement::Definition(
                                                Identifier::Sym(i1 as usize),
                                                tmp,
                                            ),
                                        ),
                                        Expression::Mult(
                                            Box::new(
                                                Expression::VariableReference(
                                                    Identifier::Sym(i1 as usize),
                                                ),
                                            ),
                                            Box::new(Expression::NumberLiteral(bl)),
                                        ),
                                        i1 + 1,
                                    ),
                                ),
                                Err(k) => Err(k),
                            }
                        } else {
                            Ok(
                                (
                                    Seq::empty(),
                                    Expression::Mult(
                                        Box::new(Expression::NumberLiteral(bl)),
                                        Box::new(Expression::NumberLiteral(bl)),
                                    ),
                                    idx,
                                ),
                            )
                        },
                        _ => Err(FlattenError::UnsupportedPowerBase),
                    }
                } else {
                    Err(FlattenError::UnsupportedExponent)
                },
                _ => Err(FlattenError::UnsupportedExponent),
            },
            Expression::IfElse(c, t, f) => match spec_flatten_condition(*c, idx, bits) {
                Ok((s1, ct, cf, i1)) => {
                    let combined = Expression::Add(
                        Box::new(
                            Expression::Mult(Box::new(Expression::VariableReference(ct)), t),
                        ),
                        Box::new(
                            Expression::Mult(Box::new(Expression::VariableReference(cf)), f),
                        ),
                    );
                    proof {
                        assert(fuel(Expression::VariableReference(ct)) == 1);
                        assert(fuel(Expression::VariableReference(cf)) == 1);
                        assert(fuel(
                            Expression::Mult(Box::new(Expression::VariableReference(ct)), t),
                        ) == 4 + fuel(*t));
                        assert(fuel(
                            Expression::Mult(Box::new(Expression::VariableReference(cf)), f),
                        ) == 4 + fuel(*f));
                        assert(fuel(combined) == 11 + fuel(*t) + fuel(*f));
                    }
                    match spec_flatten_expression(combined, i1, bits) {
                        Ok((s2, r, i2)) => Ok((s1 + s2, r, i2)),
                        Err(k) => Err(k),
                    }
                },
                Err(k) => Err(k),
            },
        }
    }
}

/// The statements appended, the names of the true and false
/// indicators, and the counter left by lowering the condition `c`
/// with the counter at `idx`.
pub open spec fn spec_flatten_condition(c: Condition, idx: int, bits: usize) -> Result<
    (Seq<Statement>, Identifier, Identifier, int),
    FlattenError,
>
    decreases cond_fuel(c),
{
    match c {
        Condition::Lt(lhs, rhs) => match spec_flatten_expression(lhs, idx, bits) {
            Ok((s1, lf, i1)) => match spec_flatten_expression(rhs, i1, bits) {
                Ok((s2, rf, i2)) => Ok(
                    (
                        s1 + s2 + lt_gadget_seq(lf, rf, i2 as usize, bits),
                        Identifier::Bit((i2 + 2) as usize, (bits - 1) as usize),
                        Identifier::Sym((i2 + 3) as usize),
                        i2 + 4,
                    ),
                ),
                Err(k) => Err(k),
            },
            Err(k) => Err(k),
        },
        Condition::Eq(lhs, rhs) => match spec_flatten_expression(
            Expression::Sub(Box::new(lhs), Box::new(rhs)),
            idx + 5,
            bits,
        ) {
            Ok((s1, cexp, i1)) => Ok(
                (
                    s1 + eq_gadget_seq(cexp, idx as usize),
                    Identifier::Sym((idx + 1) as usize),
                    Identifier::Sym((idx + 2) as usize),
                    i1,
                ),
            ),
            Err(k) => Err(k),
        },
        Condition::Le(_, _) => Err(FlattenError::UnsupportedCondition),
        Condition::Ge(_, _) => Err(FlattenError::UnsupportedCondition),
        Condition::Gt(_, _) => Err(FlattenError::UnsupportedCondition),
    }
}

/// The index of the first free probe candidate, stepping at most `k`
/// times; the probe always ends within the used set's size.
pub open spec fn probe(vars: Seq<Identifier>, base: u64, j: nat, k: nat) -> nat
    decreases k,
{
    if k == 0 {
        j
    } else if vars.contains(cand_at(base, j)) {
        probe(vars, base, j + 1, (k - 1) as nat)
    } else {
        j
    }
}

/// The renaming's choice for `name`: the first free candidate, the
/// used set grown by it, and — from the second use on — the
/// substitution extended so the previous physical name resolves
/// forward to the new one.
pub open spec fn spec_use_variable(
    vars: Seq<Identifier>,
    subs: Seq<(Identifier, Identifier)>,
    name: Identifier,
) -> (Identifier, Seq<Identifier>, Seq<(Identifier, Identifier)>) {
    let base = name->Name_0;
    let j = probe(vars, base, 0, vars.len() + 1);
    let r = cand_at(base, j);
    let subs2 = if j == 1 {
        subs.push((Identifier::Name(base), r))
    } else if j > 1 {
        subs.push((Identifier::Suffixed(base, (j - 2) as usize), r))
    } else {
        subs
    };
    (r, vars.push(r), subs2)
}

/// The output statements and final state of the driver loop over a
/// statement sequence.
pub open spec fn spec_flatten_stmts(
    ss: Seq<Statement>,
    vars: Seq<Identifier>,
    subs: Seq<(Identifier, Identifier)>,
    idx: int,
    bits: usize,
) -> Result<(Seq<Statement>, Seq<Identifier>, Seq<(Identifier, Identifier)>, int), FlattenError>
    decreases ss.len(),
{
    if ss.len() == 0 {
        Ok((Seq::empty(), vars, subs, idx))
    } else {
        let rest = ss.skip(1);
        match ss[0] {
            Statement::Return(e) => match spec_flatten_expression(subst_expr(subs, e), idx, bits) {
                Ok((ap, r, i1)) => {
                    let v2 = vars.push(Identifier::Out);
                    match spec_flatten_stmts(rest, v2, subs, i1, bits) {
                        Ok((out2, v3, s3, i2)) => Ok(
                            (ap.push(Statement::Return(r)) + out2, v3, s3, i2),
                        ),
                        Err(k) => Err(k),
                    }
                },
                Err(k) => Err(k),
            },
            Statement::Definition(x, e) => match spec_flatten_expression(
                subst_expr(subs, e),
                idx,
                bits,
            ) {
                Ok((ap, r, i1)) => {
                    let (nn, v2, s2) = spec_use_variable(vars, subs, x);
                    match spec_flatten_stmts(rest, v2, s2, i1, bits) {
                        Ok((out2, v3, s3, i2)) => Ok(
                            (ap.push(Statement::Definition(nn, r)) + out2, v3, s3, i2),
                        ),
                        Err(k) => Err(k),
                    }
                },
                Err(k) => Err(k),
            },
            Statement::Condition(e1, e2) => {
                let a = subst_expr(subs, e1);
                let b = subst_expr(subs, e2);
                if is_linear(a) {
                    match spec_flatten_expression(b, idx, bits) {
                        Ok((ap, r, i1)) => match spec_flatten_stmts(rest, vars, subs, i1, bits) {
                            Ok((out2, v3, s3, i2)) => Ok(
                                (ap.push(Statement::Condition(a, r)) + out2, v3, s3, i2),
                            ),
                            Err(k) => Err(k),
                        },
                        Err(k) => Err(k),
                    }
                } else if is_linear(b) {
                    match spec_flatten_expression(a, idx, bits) {
                        Ok((ap, r, i1)) => match spec_flatten_stmts(rest, vars, subs, i1, bits) {
                            Ok((out2, v3, s3, i2)) => Ok(
                                (ap.push(Statement::Condition(b, r)) + out2, v3, s3, i2),
                            ),
                            Err(k) => Err(k),
                        },
                        Err(k) => Err(k),
                    }
                } else {
                    Err(FlattenError::UnresolvableEquality)
                }
            },
            Statement::Compiler(x, e) => match spec_flatten_stmts(rest, vars, subs, idx, bits) {
                Ok((out2, v3, s3, i2)) => Ok(
                    (seq![Statement::Compiler(x, e)] + out2, v3, s3, i2),
                ),
                Err(k) => Err(k),
            },
        }
    }
}

/// The whole pass as a function of the input program and the digit
/// width: the state is reset, so the result depends on nothing else.
pub open spec fn spec_flatten_program(prog: Prog, bits: usize) -> Result<
    Seq<Statement>,
    FlattenError,
> {
    match spec_flatten_stmts(prog.statements@, Seq::empty(), Seq::empty(), 0, bits) {
        Ok((out, v, s, i)) => Ok(out),
        Err(k) => Err(k),
    }
}

} // verus!

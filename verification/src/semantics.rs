//! Evaluation semantics for flattened programs: a witness is an
//! assignment of field values to names, a statement is satisfied when
//! the equation it encodes holds under the witness, and hints are not
//! enforced.  An executable checker mirrors the specification so whole
//! flattened programs can be checked against concrete witnesses.

use vstd::prelude::*;
use vstd::arithmetic::div_mod::lemma_small_mod;
use crate::absy::{Identifier, Expression, Statement};
use crate::field::{Fp, FIELD_MODULUS, pow_int};
use crate::flatten::eq_gadget_seq;

verus! {

/// First binding of `x` in the witness.
pub open spec fn env_get(env: Seq<(Identifier, Fp)>, x: Identifier) -> Option<Fp>
    decreases env.len(),
{
    if env.len() == 0 {
        None
    } else if env[0].0 == x {
        Some(env[0].1)
    } else {
        env_get(env.skip(1), x)
    }
}

/// All witness values are reduced field elements.
pub open spec fn env_wf(env: Seq<(Identifier, Fp)>) -> bool {
    forall|i: int| 0 <= i < env.len() ==> (#[trigger] env[i]).1.wf()
}

/// The value of a flattened expression under a witness, as an integer
/// in `[0, FIELD_MODULUS)`.  Powers, divisions and conditionals are
/// not given a value: the pass lowers them all away, and in hints they
/// are not enforced.
pub open spec fn eval_expr(env: Seq<(Identifier, Fp)>, e: Expression) -> Option<int>
    decreases e,
{
    match e {
        Expression::NumberLiteral(x) => if x.wf() {
            Some(x.v as int)
        } else {
            None
        },
        Expression::VariableReference(v) => match env_get(env, v) {
            Some(f) => Some(f.v as int),
            None => None,
        },
        Expression::Add(l, r) => match (eval_expr(env, *l), eval_expr(env, *r)) {
            (Some(a), Some(b)) => Some((a + b) % (FIELD_MODULUS as int)),
            _ => None,
        },
        Expression::Sub(l, r) => match (eval_expr(env, *l), eval_expr(env, *r)) {
            (Some(a), Some(b)) => Some((a - b) % (FIELD_MODULUS as int)),
            _ => None,
        },
        Expression::Mult(l, r) => match (eval_expr(env, *l), eval_expr(env, *r)) {
            (Some(a), Some(b)) => Some((a * b) % (FIELD_MODULUS as int)),
            _ => None,
        },
        _ => None,
    }
}

/// A statement holds under a witness: a definition's target carries
/// the value of its body, both sides of a constraint equality agree,
/// a return's value is carried by the output variable, and a hint is
/// not enforced.
pub open spec fn stmt_satisfied(env: Seq<(Identifier, Fp)>, s: Statement) -> bool {
    match s {
        Statement::Return(e) => match (env_get(env, Identifier::Out), eval_expr(env, e)) {
            (Some(o), Some(v)) => o.v as int == v,
            _ => false,
        },
        Statement::Definition(x, e) => match e {
            // a definitional division encodes the multiplicative
            // constraint: the target times the divisor equals the
            // dividend, and the divisor is nonzero
            Expression::Div(l, r) => match (env_get(env, x), eval_expr(env, *l), eval_expr(
                env,
                *r,
            )) {
                (Some(o), Some(a), Some(b)) => b != 0 && ((o.v as int) * b) % (
                FIELD_MODULUS as int) == a,
                _ => false,
            },
            _ => match (env_get(env, x), eval_expr(env, e)) {
                (Some(o), Some(v)) => o.v as int == v,
                _ => false,
            },
        },
        Statement::Condition(l, r) => match (eval_expr(env, l), eval_expr(env, r)) {
            (Some(a), Some(b)) => a == b,
            _ => false,
        },
        Statement::Compiler(_, _) => true,
    }
}

pub open spec fn stmts_satisfied(env: Seq<(Identifier, Fp)>, ss: Seq<Statement>) -> bool {
    forall|i: int| 0 <= i < ss.len() ==> stmt_satisfied(env, #[trigger] ss[i])
}

/// First binding of `x` in the witness.
pub fn env_get_exec(env: &Vec<(Identifier, Fp)>, x: Identifier) -> (r: Option<Fp>)
    ensures
        r == env_get(env@, x),
{
    let mut i: usize = 0;
    proof {
        assert(env@.skip(0) =~= env@);
    }
    while i < env.len()
        invariant
            i <= env@.len(),
            env_get(env@, x) == env_get(env@.skip(i as int), x),
        decreases env@.len() - i,
    {
        proof {
            assert(env@.skip(i as int)[0] == env@[i as int]);
            assert(env@.skip(i as int).skip(1) =~= env@.skip(i as int + 1));
        }
        if env[i].0 == x {
            return Some(env[i].1);
        }
        i = i + 1;
    }
    proof {
        assert(env@.skip(env@.len() as int).len() == 0);
    }
    None
}

/// Evaluates a flattened expression under a witness.
pub fn eval_expr_exec(env: &Vec<(Identifier, Fp)>, e: &Expression) -> (r: Option<Fp>)
    requires
        env_wf(env@),
    ensures
        match r {
            Some(v) => v.wf() && eval_expr(env@, *e) == Some(v.v as int),
            None => eval_expr(env@, *e) is None,
        },
    decreases *e,
{
    match e {
        Expression::NumberLiteral(x) => {
            if x.v < FIELD_MODULUS {
                Some(*x)
            } else {
                // an unreduced literal has no value in the field model
                None
            }
        },
        Expression::VariableReference(v) => {
            match env_get_exec(env, *v) {
                Some(f) => {
                    proof {
                        lemma_env_get_wf(env@, *v);
                    }
                    Some(f)
                },
                None => None,
            }
        },
        Expression::Add(l, r) => {
            let a = eval_expr_exec(env, l);
            let b = eval_expr_exec(env, r);
            match (a, b) {
                (Some(x), Some(y)) => Some(x.add(y)),
                _ => None,
            }
        },
        Expression::Sub(l, r) => {
            let a = eval_expr_exec(env, l);
            let b = eval_expr_exec(env, r);
            match (a, b) {
                (Some(x), Some(y)) => Some(x.sub(y)),
                _ => None,
            }
        },
        Expression::Mult(l, r) => {
            let a = eval_expr_exec(env, l);
            let b = eval_expr_exec(env, r);
            match (a, b) {
                (Some(x), Some(y)) => Some(x.mul(y)),
                _ => None,
            }
        },
        Expression::Div(_, _) => None,
        Expression::Pow(_, _) => None,
        Expression::IfElse(_, _, _) => None,
    }
}

/// A witness value found by lookup is a value of the witness.
proof fn lemma_env_get_wf(env: Seq<(Identifier, Fp)>, x: Identifier)
    requires
        env_wf(env),
        env_get(env, x) is Some,
    ensures
        env_get(env, x)->Some_0.wf(),
    decreases env.len(),
{
    if env.len() == 0 {
    } else if env[0].0 == x {
        assert(env[0].1.wf());
    } else {
        assert(env.skip(1) =~= env.subrange(1, env.len() as int));
        assert forall|i: int| 0 <= i < env.skip(1).len() implies (#[trigger] env.skip(
            1,
        )[i]).1.wf() by {
            assert(env.skip(1)[i] == env[i + 1]);
        }
        lemma_env_get_wf(env.skip(1), x);
    }
}

/// Whether one statement holds under the witness.
pub fn check_statement(env: &Vec<(Identifier, Fp)>, s: &Statement) -> (r: bool)
    requires
        env_wf(env@),
    ensures
        r == stmt_satisfied(env@, *s),
{
    match s {
        Statement::Return(e) => {
            let o = env_get_exec(env, Identifier::Out);
            let v = eval_expr_exec(env, e);
            match (o, v) {
                (Some(of), Some(vf)) => of.v == vf.v,
                _ => false,
            }
        },
        Statement::Definition(x, e) => match e {
            Expression::Div(l, r) => {
                let o = env_get_exec(env, *x);
                let a = eval_expr_exec(env, l);
                let b = eval_expr_exec(env, r);
                match (o, a, b) {
                    (Some(of), Some(af), Some(bf)) => {
                        proof {
                            lemma_env_get_wf(env@, *x);
                        }
                        bf.v != 0 && of.mul(bf).v == af.v
                    },
                    _ => false,
                }
            },
            _ => {
                let o = env_get_exec(env, *x);
                let v = eval_expr_exec(env, e);
                match (o, v) {
                    (Some(of), Some(vf)) => of.v == vf.v,
                    _ => false,
                }
            },
        },
        Statement::Condition(l, r2) => {
            let a = eval_expr_exec(env, l);
            let b = eval_expr_exec(env, r2);
            match (a, b) {
                (Some(x), Some(y)) => x.v == y.v,
                _ => false,
            }
        },
        Statement::Compiler(_, _) => true,
    }
}

/// Whether every statement of a flattened program holds under the
/// witness.
pub fn check_statements(env: &Vec<(Identifier, Fp)>, ss: &Vec<Statement>) -> (r: bool)
    requires
        env_wf(env@),
    ensures
        r == stmts_satisfied(env@, ss@),
{
    let mut i: usize = 0;
    while i < ss.len()
        invariant
            env_wf(env@),
            i <= ss@.len(),
            forall|j: int| 0 <= j < i ==> stmt_satisfied(env@, #[trigger] ss@[j]),
        decreases ss@.len() - i,
    {
        if !check_statement(env, &ss[i]) {
            return false;
        }
        i = i + 1;
    }
    true
}

} // verus!

verus! {

/// For reduced field values, the reduced difference vanishes exactly
/// on equal values.
pub proof fn lemma_diff_zero_iff_equal(a: int, b: int)
    requires
        0 <= a < FIELD_MODULUS,
        0 <= b < FIELD_MODULUS,
    ensures
        ((a - b) % (FIELD_MODULUS as int) == 0) <==> a == b,
{
    let p = FIELD_MODULUS as int;
    if a == b {
        assert((a - b) % p == 0);
    } else if a > b {
        lemma_small_mod((a - b) as nat, p as nat);
    } else {
        vstd::arithmetic::div_mod::lemma_mod_add_multiples_vanish(a - b, p);
        lemma_small_mod((a - b + p) as nat, p as nat);
    }
}

/// **Equality-gadget correctness.**  Take the witness the hints
/// compute: the indicator `d` is one exactly when the difference value
/// `c` of the compared sides is zero, the auxiliary symbols carry
/// `1 - d` and `c - d`, and `w` is an inverse of `c - d`.  Then every
/// statement of the emitted equality gadget is satisfied, and the
/// indicator is one exactly when the two compared values are equal.
pub proof fn lemma_eq_gadget_correct(
    env: Seq<(Identifier, Fp)>,
    c_expr: Expression,
    idx: usize,
    a: int,
    b: int,
    w: int,
)
    requires
        idx + 5 <= usize::MAX,
        0 <= a < FIELD_MODULUS,
        0 <= b < FIELD_MODULUS,
        0 <= w < FIELD_MODULUS,
        eval_expr(env, c_expr) == Some((a - b) % (FIELD_MODULUS as int)),
        env_get(env, Identifier::Sym(idx)) == Some(
            Fp { v: ((a - b) % (FIELD_MODULUS as int)) as u64 },
        ),
        env_get(env, Identifier::Sym((idx + 1) as usize)) == Some(
            Fp { v: (if a == b { 1u64 } else { 0u64 }) },
        ),
        env_get(env, Identifier::Sym((idx + 2) as usize)) == Some(
            Fp { v: (if a == b { 0u64 } else { 1u64 }) },
        ),
        env_get(env, Identifier::Sym((idx + 3) as usize)) == Some(
            Fp {
                v: (((a - b) % (FIELD_MODULUS as int) - (if a == b { 1int } else { 0int })) % (
                FIELD_MODULUS as int)) as u64,
            },
        ),
        env_get(env, Identifier::Sym((idx + 4) as usize)) == Some(Fp { v: w as u64 }),
        ((((a - b) % (FIELD_MODULUS as int) - (if a == b { 1int } else { 0int })) % (
        FIELD_MODULUS as int)) * w) % (FIELD_MODULUS as int) == 1,
    ensures
        stmts_satisfied(env, eq_gadget_seq(c_expr, idx)),
        (env_get(env, Identifier::Sym((idx + 1) as usize)) == Some(Fp { v: 1u64 })) <==> a == b,
{
    let p = FIELD_MODULUS as int;
    let g = eq_gadget_seq(c_expr, idx);
    let c = (a - b) % p;
    let d: int = if a == b { 1 } else { 0 };
    lemma_diff_zero_iff_equal(a, b);
    assert(0 <= c < p) by {
        vstd::arithmetic::div_mod::lemma_mod_bound(a - b, p);
    }
    let v0 = Expression::VariableReference(Identifier::Sym(idx));
    let v1 = Expression::VariableReference(Identifier::Sym((idx + 1) as usize));
    let v2 = Expression::VariableReference(Identifier::Sym((idx + 2) as usize));
    let v3 = Expression::VariableReference(Identifier::Sym((idx + 3) as usize));
    let v4 = Expression::VariableReference(Identifier::Sym((idx + 4) as usize));
    let lit0 = Expression::NumberLiteral(Fp { v: 0 });
    let lit1 = Expression::NumberLiteral(Fp { v: 1 });
    assert(eval_expr(env, v0) == Some(c));
    assert(eval_expr(env, v1) == Some(d));
    assert(eval_expr(env, v2) == Some(1 - d));
    assert(eval_expr(env, v3) == Some((c - d) % p)) by {
        vstd::arithmetic::div_mod::lemma_mod_bound(c - d, p);
    }
    assert(eval_expr(env, v4) == Some(w));
    assert(eval_expr(env, lit0) == Some(0int));
    assert(eval_expr(env, lit1) == Some(1int));
    // the difference symbol carries the value of the flattened sides
    assert(stmt_satisfied(env, g[0]));
    // hints are not enforced
    assert(stmt_satisfied(env, g[1]) && stmt_satisfied(env, g[4]));
    // 1 - d
    assert(stmt_satisfied(env, g[2])) by {
        assert(eval_expr(env, Expression::Sub(Box::new(lit1), Box::new(v1))) == Some((1 - d) % p));
        lemma_small_mod((1 - d) as nat, p as nat);
    }
    // c - d
    assert(stmt_satisfied(env, g[3])) by {
        assert(eval_expr(env, Expression::Sub(Box::new(v0), Box::new(v1))) == Some((c - d) % p));
    }
    // c * d = 0
    assert(stmt_satisfied(env, g[5])) by {
        assert(eval_expr(env, Expression::Mult(Box::new(v0), Box::new(v1))) == Some((c * d) % p));
        assert(c * d == 0);
        assert((0int) % p == 0);
    }
    // d * (1 - d) = 0
    assert(stmt_satisfied(env, g[6])) by {
        assert(eval_expr(env, Expression::Mult(Box::new(v1), Box::new(v2))) == Some((d * (1 - d))
            % p));
        assert(d * (1 - d) == 0);
        assert((0int) % p == 0);
    }
    // (c - d) * w = 1
    assert(stmt_satisfied(env, g[7])) by {
        assert(eval_expr(env, Expression::Mult(Box::new(v3), Box::new(v4))) == Some((((c - d) % p)
            * w) % p));
    }
    assert forall|i: int| 0 <= i < g.len() implies stmt_satisfied(env, #[trigger] g[i]) by {
        if i == 0 {
        } else if i == 1 {
        } else if i == 2 {
        } else if i == 3 {
        } else if i == 4 {
        } else if i == 5 {
        } else if i == 6 {
        } else {
            assert(i == 7);
        }
    }
}

} // verus!

verus! {

/// Digit `i` of the `bits`-wide two's-complement representation of
/// the signed difference `d`.
pub open spec fn tc_bit(d: int, bits: nat, i: nat) -> int {
    ((d % pow_int(2, bits)) / pow_int(2, i)) % 2
}

proof fn lemma_pow2_pos(n: nat)
    ensures
        pow_int(2, n) >= 1,
    decreases n,
{
    if n > 0 {
        lemma_pow2_pos((n - 1) as nat);
    }
}

/// The weighted sum of the low `n` digits of `u`.
pub open spec fn sum_low_bits(u: int, n: nat) -> int
    decreases n,
{
    if n == 0 {
        0
    } else {
        sum_low_bits(u, (n - 1) as nat) + ((u / pow_int(2, (n - 1) as nat)) % 2) * pow_int(
            2,
            (n - 1) as nat,
        )
    }
}

/// Binary decomposition: the low `n` digits of a nonnegative `u`
/// recompose to `u` modulo `2^n`.
proof fn lemma_sum_low_bits(u: int, n: nat)
    requires
        u >= 0,
    ensures
        sum_low_bits(u, n) == u % pow_int(2, n),
    decreases n,
{
    if n == 0 {
        assert(pow_int(2, 0) == 1);
        assert(u % 1 == 0) by {
            vstd::arithmetic::div_mod::lemma_fundamental_div_mod(u, 1);
        }
    } else {
        let m = (n - 1) as nat;
        lemma_sum_low_bits(u, m);
        lemma_pow2_pos(m);
        vstd::arithmetic::div_mod::lemma_mod_breakdown(u, pow_int(2, m), 2);
        assert(pow_int(2, m) * 2 == pow_int(2, n)) by {
            assert(pow_int(2, n) == 2 * pow_int(2, m));
        }
        assert(u % (pow_int(2, m) * 2) == pow_int(2, m) * ((u / pow_int(2, m)) % 2) + u % pow_int(
            2,
            m,
        ));
        assert(pow_int(2, m) * ((u / pow_int(2, m)) % 2) == ((u / pow_int(2, m)) % 2) * pow_int(
            2,
            m,
        )) by (nonlinear_arith);
    }
}

} // verus!

verus! {

/// The digits are boolean and the residue is nonnegative.
proof fn lemma_tc_bit_bool(d: int, bits: nat, i: nat)
    ensures
        0 <= d % pow_int(2, bits),
        tc_bit(d, bits, i) == 0 || tc_bit(d, bits, i) == 1,
{
    lemma_pow2_pos(bits);
    lemma_pow2_pos(i);
    vstd::arithmetic::div_mod::lemma_mod_bound(d, pow_int(2, bits));
    let u = d % pow_int(2, bits);
    assert(u / pow_int(2, i) >= 0) by {
        vstd::arithmetic::div_mod::lemma_div_pos_is_pos(u, pow_int(2, i));
    }
    vstd::arithmetic::div_mod::lemma_mod_bound(u / pow_int(2, i), 2);
}

/// The value of the recomposition chain under a witness that assigns
/// the digit names the two's-complement digits of `d`: the negatively
/// weighted top digit plus the weighted low digits, reduced into the
/// field.
proof fn lemma_recomp_eval(
    env: Seq<(Identifier, Fp)>,
    k: usize,
    bits: usize,
    n: usize,
    d: int,
)
    requires
        1 <= bits,
        n <= bits - 1,
        forall|i: nat|
            i < bits ==> env_get(env, Identifier::Bit(k, i as usize)) == Some(
                Fp { v: tc_bit(d, bits as nat, i) as u64 },
            ),
    ensures
        eval_expr(env, crate::flatten::recomp_partial(k, bits, n)) == Some(
            ((0 - pow_int(2, (bits - 1) as nat)) * tc_bit(d, bits as nat, (bits - 1) as nat)
                + sum_low_bits(d % pow_int(2, bits as nat), n as nat)) % (FIELD_MODULUS as int),
        ),
    decreases n,
{
    let p = FIELD_MODULUS as int;
    let bn = bits as nat;
    let top = tc_bit(d, bn, (bits - 1) as nat);
    let pw = pow_int(2, (bits - 1) as nat);
    let u = d % pow_int(2, bn);
    lemma_pow2_pos(bn);
    lemma_pow2_pos((bits - 1) as nat);
    lemma_tc_bit_bool(d, bn, (bits - 1) as nat);
    if n == 0 {
        let neg = crate::flatten::neg_pow2_lit((bits - 1) as usize);
        let neg_i = (0 - (pw % p)) % p;
        assert(0 <= neg_i < p) by {
            vstd::arithmetic::div_mod::lemma_mod_bound(0 - (pw % p), p);
        }
        assert(neg.v as int == neg_i);
        assert(neg.wf());
        assert(neg_i == (0 - pw) % p) by {
            vstd::arithmetic::div_mod::lemma_sub_mod_noop(0, pw, p);
            assert((0int) % p == 0);
        }
        let topf = env_get(env, Identifier::Bit(k, (bits - 1) as usize))->Some_0;
        assert(topf.v as int == top);
        let vtop = Expression::VariableReference(Identifier::Bit(k, (bits - 1) as usize));
        let litneg = Expression::NumberLiteral(neg);
        assert(crate::flatten::recomp_partial(k, bits, n) == Expression::Mult(
            Box::new(vtop),
            Box::new(litneg),
        ));
        assert(eval_expr(env, vtop) == Some(top));
        assert(eval_expr(env, litneg) == Some(neg_i));
        assert(eval_expr(env, crate::flatten::recomp_partial(k, bits, n)) == Some((top * neg_i)
            % p));
        assert((top * neg_i) % p == (top * (0 - pw)) % p) by {
            vstd::arithmetic::div_mod::lemma_mul_mod_noop_right(top, 0 - pw, p);
        }
        assert(top * (0 - pw) == (0 - pw) * top) by (nonlinear_arith);
        assert(sum_low_bits(u, 0) == 0);
    } else {
        lemma_recomp_eval(env, k, bits, (n - 1) as usize, d);
        let m = (n - 1) as nat;
        let t_prev = (0 - pw) * top + sum_low_bits(u, m);
        let pw_i = pow_int(2, m);
        lemma_pow2_pos(m);
        lemma_tc_bit_bool(d, bn, m);
        let bit_i = tc_bit(d, bn, m);
        let w = crate::flatten::pow2_lit((n - 1) as usize);
        let w_i = pw_i % p;
        assert(0 <= w_i < p) by {
            vstd::arithmetic::div_mod::lemma_mod_bound(pw_i, p);
        }
        assert(w.v as int == w_i);
        assert(w.wf());
        let bf = env_get(env, Identifier::Bit(k, (n - 1) as usize))->Some_0;
        assert(bf.v as int == bit_i);
        let vb = Expression::VariableReference(Identifier::Bit(k, (n - 1) as usize));
        let litw = Expression::NumberLiteral(w);
        let mexp = Expression::Mult(Box::new(vb), Box::new(litw));
        assert(crate::flatten::recomp_partial(k, bits, n) == Expression::Add(
            Box::new(crate::flatten::recomp_partial(k, bits, (n - 1) as usize)),
            Box::new(mexp),
        ));
        assert(eval_expr(env, vb) == Some(bit_i));
        assert(eval_expr(env, litw) == Some(w_i));
        assert(eval_expr(env, mexp) == Some((bit_i * w_i) % p));
        assert(eval_expr(env, crate::flatten::recomp_partial(k, bits, (n - 1) as usize)) == Some(
            t_prev % p,
        ));
        assert(eval_expr(env, crate::flatten::recomp_partial(k, bits, n)) == Some(((t_prev % p) + (
        (bit_i * w_i) % p)) % p));
        assert((bit_i * w_i) % p == (bit_i * pw_i) % p) by {
            vstd::arithmetic::div_mod::lemma_mul_mod_noop_right(bit_i, pw_i, p);
        }
        assert(((t_prev % p) + ((bit_i * pw_i) % p)) % p == (t_prev + bit_i * pw_i) % p) by {
            vstd::arithmetic::div_mod::lemma_add_mod_noop(t_prev, bit_i * pw_i, p);
        }
        assert(sum_low_bits(u, n as nat) == sum_low_bits(u, m) + ((u / pw_i) % 2) * pw_i);
        assert(bit_i == (u / pw_i) % 2);
    }
}

} // verus!

verus! {

/// Two's complement of a difference representable in `bits` digits:
/// the digits recompose to the difference under the negative weighting
/// of the top digit, and the top digit is set exactly on negative
/// differences.
proof fn lemma_tc_window(d: int, bits: nat)
    requires
        1 <= bits,
        0 - pow_int(2, (bits - 1) as nat) <= d < pow_int(2, (bits - 1) as nat),
    ensures
        tc_bit(d, bits, (bits - 1) as nat) == (if d < 0 {
            1int
        } else {
            0int
        }),
        (0 - pow_int(2, (bits - 1) as nat)) * tc_bit(d, bits, (bits - 1) as nat) + sum_low_bits(
            d % pow_int(2, bits),
            (bits - 1) as nat,
        ) == d,
{
    let m = (bits - 1) as nat;
    let pw = pow_int(2, m);
    let pb = pow_int(2, bits);
    lemma_pow2_pos(m);
    assert(pb == 2 * pw);
    let u = d % pb;
    if d >= 0 {
        lemma_small_mod(d as nat, pb as nat);
        assert(u == d);
        // the quotient by the top weight is zero
        vstd::arithmetic::div_mod::lemma_fundamental_div_mod_converse(u, pw, 0, u);
        assert(u / pw == 0);
        assert(tc_bit(d, bits, m) == 0);
    } else {
        // the residue is the difference shifted up by one width
        vstd::arithmetic::div_mod::lemma_mod_add_multiples_vanish(d, pb);
        lemma_small_mod((d + pb) as nat, pb as nat);
        assert(u == d + pb);
        assert(pw <= u < 2 * pw);
        vstd::arithmetic::div_mod::lemma_fundamental_div_mod_converse(u, pw, 1, u - pw);
        assert(u / pw == 1);
        assert(tc_bit(d, bits, m) == 1int % 2);
    }
    let top = tc_bit(d, bits, m);
    // the full decomposition recomposes to the residue
    lemma_sum_low_bits(u, bits);
    lemma_small_mod(u as nat, pb as nat);
    assert(sum_low_bits(u, bits) == u);
    assert(sum_low_bits(u, bits) == sum_low_bits(u, m) + ((u / pw) % 2) * pw);
    assert((u / pw) % 2 == top);
    assert(sum_low_bits(u, m) == u - top * pw);
}

/// **Less-than-gadget correctness.**  Take the true witness for
/// reduced values `a` and `b` whose difference is representable in
/// `bits` two's-complement digits: both sides bound to their values,
/// the difference symbol carrying the reduced difference, and the
/// digit names carrying the two's-complement digits.  Then every
/// statement of the emitted less-than gadget is satisfied, the true
/// indicator — the top digit — is one exactly when `a < b`, and the
/// false indicator is its complement.
pub proof fn lemma_lt_gadget_correct(
    env: Seq<(Identifier, Fp)>,
    l_expr: Expression,
    r_expr: Expression,
    idx: usize,
    bits: usize,
    a: int,
    b: int,
)
    requires
        idx + 4 <= usize::MAX,
        1 <= bits,
        0 <= a < FIELD_MODULUS,
        0 <= b < FIELD_MODULUS,
        0 - pow_int(2, (bits - 1) as nat) <= a - b < pow_int(2, (bits - 1) as nat),
        eval_expr(env, l_expr) == Some(a),
        eval_expr(env, r_expr) == Some(b),
        env_get(env, Identifier::Sym(idx)) == Some(Fp { v: a as u64 }),
        env_get(env, Identifier::Sym((idx + 1) as usize)) == Some(Fp { v: b as u64 }),
        env_get(env, Identifier::Sym((idx + 2) as usize)) == Some(
            Fp { v: ((a - b) % (FIELD_MODULUS as int)) as u64 },
        ),
        forall|i: nat|
            i < bits ==> #[trigger] env_get(env, Identifier::Bit((idx + 2) as usize, i as usize))
                == Some(Fp { v: tc_bit(a - b, bits as nat, i) as u64 }),
        env_get(env, Identifier::Sym((idx + 3) as usize)) == Some(
            Fp { v: (1 - tc_bit(a - b, bits as nat, (bits - 1) as nat)) as u64 },
        ),
    ensures
        stmts_satisfied(env, crate::flatten::lt_gadget_seq(l_expr, r_expr, idx, bits)),
        env_get(env, Identifier::Bit((idx + 2) as usize, (bits - 1) as usize)) == Some(
            Fp {
                v: (if a < b {
                    1u64
                } else {
                    0u64
                }),
            },
        ),
        env_get(env, Identifier::Sym((idx + 3) as usize)) == Some(
            Fp {
                v: (if a < b {
                    0u64
                } else {
                    1u64
                }),
            },
        ),
{
    let p = FIELD_MODULUS as int;
    let d = a - b;
    let bn = bits as nat;
    let k = (idx + 2) as usize;
    let g = crate::flatten::lt_gadget_seq(l_expr, r_expr, idx, bits);
    lemma_tc_window(d, bn);
    let top = tc_bit(d, bn, (bits - 1) as nat);
    assert(0 <= d % p < p) by {
        vstd::arithmetic::div_mod::lemma_mod_bound(d, p);
    }
    let v0 = Expression::VariableReference(Identifier::Sym(idx));
    let v1 = Expression::VariableReference(Identifier::Sym((idx + 1) as usize));
    assert(eval_expr(env, v0) == Some(a));
    assert(eval_expr(env, v1) == Some(b));
    assert(g.len() == 5 + bits);
    // the two bound sides carry the values of the flattened expressions
    assert(stmt_satisfied(env, g[0]));
    assert(stmt_satisfied(env, g[1]));
    // the difference symbol carries the reduced difference
    assert(stmt_satisfied(env, g[2])) by {
        assert(eval_expr(env, Expression::Sub(Box::new(v0), Box::new(v1))) == Some(d % p));
    }
    // each digit equals its own square
    assert forall|i2: int| 0 <= i2 < bits implies stmt_satisfied(env, #[trigger] g[3 + i2]) by {
        assert(g[3 + i2] == crate::flatten::bit_def(k, i2 as usize));
        lemma_tc_bit_bool(d, bn, i2 as nat);
        let bi = tc_bit(d, bn, i2 as nat);
        let vb = Expression::VariableReference(Identifier::Bit(k, i2 as usize));
        assert(eval_expr(env, vb) == Some(bi));
        assert(eval_expr(env, Expression::Mult(Box::new(vb), Box::new(vb))) == Some((bi * bi)
            % p));
        assert((bi * bi) % p == bi) by {
            assert(bi == 0 || bi == 1);
            if bi == 0 {
                assert(bi * bi == 0);
                assert((0int) % p == 0);
            } else {
                assert(bi * bi == 1) by (nonlinear_arith)
                    requires bi == 1,
                ;
                assert((1int) % p == 1);
            }
        }
    }
    // the recomposition evaluates back to the reduced difference
    assert(stmt_satisfied(env, g[3 + bits])) by {
        lemma_recomp_eval(env, k, bits, (bits - 1) as usize, d);
        let u = d % pow_int(2, bn);
        let t = (0 - pow_int(2, (bits - 1) as nat)) * top + sum_low_bits(u, (bits - 1) as nat);
        assert(t == d);
        assert(g[3 + bits] == Statement::Definition(
            Identifier::Sym(k),
            crate::flatten::recomp_expr(k, bits),
        ));
        assert(eval_expr(env, crate::flatten::recomp_expr(k, bits)) == Some(d % p));
    }
    // the false indicator is one minus the top digit
    assert(stmt_satisfied(env, g[4 + bits])) by {
        let vtop = Expression::VariableReference(Identifier::Bit(k, (bits - 1) as usize));
        let lit1 = Expression::NumberLiteral(Fp { v: 1 });
        assert(eval_expr(env, vtop) == Some(top));
        assert(eval_expr(env, lit1) == Some(1int));
        assert(eval_expr(env, Expression::Sub(Box::new(lit1), Box::new(vtop))) == Some((1 - top)
            % p));
        lemma_small_mod((1 - top) as nat, p as nat);
    }
    assert forall|i2: int| 0 <= i2 < g.len() implies stmt_satisfied(env, #[trigger] g[i2]) by {
        if 3 <= i2 < 3 + bits {
            assert(stmt_satisfied(env, g[3 + (i2 - 3)]));
        }
    }
}

} // verus!

//! End-to-end tests of the flattening pass: affine closure and
//! uniqueness of the output, gadget correctness under concrete
//! witnesses, power unrolling, renaming, and the fatal paths.

use flattener::absy::{Condition, Expression, Identifier, Prog, Statement};
use flattener::field::{Fp, FIELD_MODULUS};
use flattener::flatten::{FlattenError, Flattener};
use flattener::semantics::{check_statements, env_get_exec, eval_expr_exec};

const P: u64 = FIELD_MODULUS;

fn var(t: u64) -> Expression {
    Expression::VariableReference(Identifier::Name(t))
}

fn lit(v: u64) -> Expression {
    Expression::NumberLiteral(Fp { v: v % P })
}

fn add(l: Expression, r: Expression) -> Expression {
    Expression::Add(Box::new(l), Box::new(r))
}

fn sub(l: Expression, r: Expression) -> Expression {
    Expression::Sub(Box::new(l), Box::new(r))
}

fn mult(l: Expression, r: Expression) -> Expression {
    Expression::Mult(Box::new(l), Box::new(r))
}

fn div(l: Expression, r: Expression) -> Expression {
    Expression::Div(Box::new(l), Box::new(r))
}

fn pow(l: Expression, r: Expression) -> Expression {
    Expression::Pow(Box::new(l), Box::new(r))
}

fn ifelse(c: Condition, t: Expression, f: Expression) -> Expression {
    Expression::IfElse(Box::new(c), Box::new(t), Box::new(f))
}

fn prog(args: Vec<u64>, statements: Vec<Statement>) -> Prog {
    Prog {
        id: String::from("main"),
        arguments: args.into_iter().map(Identifier::Name).collect(),
        statements,
    }
}

fn powmod(mut b: u64, mut e: u64) -> u64 {
    let mut r: u64 = 1;
    b %= P;
    while e > 0 {
        if e & 1 == 1 {
            r = r * b % P;
        }
        b = b * b % P;
        e >>= 1;
    }
    r
}

fn inv(a: u64) -> u64 {
    powmod(a, P - 2)
}

fn signed(d: u64) -> i64 {
    if d > P / 2 {
        d as i64 - P as i64
    } else {
        d as i64
    }
}

/// Computes the true witness for a flattened statement sequence:
/// definitions are evaluated in order, boolean digits are taken from
/// the two's complement of the difference they decompose, and the
/// hints are computed as they instruct.
fn solve(stmts: &Vec<Statement>, inputs: Vec<(u64, u64)>, bits: u32) -> Vec<(Identifier, Fp)> {
    let mut env: Vec<(Identifier, Fp)> = inputs
        .into_iter()
        .map(|(t, v)| (Identifier::Name(t), Fp { v: v % P }))
        .collect();
    for s in stmts.iter() {
        match s {
            Statement::Definition(x, e) => {
                if env_get_exec(&env, *x).is_some() {
                    // the less-than gadget redefines its difference
                    // symbol; the first definition fixed the value
                    continue;
                }
                if let Expression::Div(l, r) = e {
                    // a definitional division: assign the quotient via
                    // the multiplicative inverse of the divisor
                    let lv = eval_expr_exec(&env, l).unwrap().v;
                    let rv = eval_expr_exec(&env, r).unwrap().v;
                    env.push((*x, Fp { v: lv * inv(rv) % P }));
                } else if let Some(v) = eval_expr_exec(&env, e) {
                    env.push((*x, v));
                } else if let Identifier::Bit(k, i) = x {
                    let d = env_get_exec(&env, Identifier::Sym(*k)).unwrap().v;
                    let m = 1i64 << bits;
                    let twos = ((signed(d) % m) + m) % m;
                    let bit = (twos >> i) & 1;
                    env.push((*x, Fp { v: bit as u64 }));
                }
            }
            Statement::Compiler(x, e) => match e {
                Expression::IfElse(c, t, f) => {
                    if let Condition::Eq(l, r) = &**c {
                        let lv = eval_expr_exec(&env, l).unwrap().v;
                        let rv = eval_expr_exec(&env, r).unwrap().v;
                        let chosen = if lv == rv { t } else { f };
                        let v = eval_expr_exec(&env, chosen).unwrap();
                        env.push((*x, v));
                    }
                }
                Expression::Div(l, r) => {
                    let lv = eval_expr_exec(&env, l).unwrap().v;
                    let rv = eval_expr_exec(&env, r).unwrap().v;
                    env.push((*x, Fp { v: lv * inv(rv) % P }));
                }
                _ => {}
            },
            Statement::Return(e) => {
                let v = eval_expr_exec(&env, e).unwrap();
                env.push((Identifier::Out, v));
            }
            Statement::Condition(_, _) => {}
        }
    }
    env
}

fn is_flattened_stmt(s: &Statement) -> bool {
    match s {
        Statement::Return(e) => e.is_flattened_exec(),
        Statement::Definition(_, e) => e.is_flattened_exec(),
        Statement::Condition(l, r) => {
            l.is_flattened_exec()
                && r.is_flattened_exec()
                && (l.is_linear_exec() || r.is_linear_exec())
        }
        Statement::Compiler(_, _) => true,
    }
}

fn def_targets(stmts: &Vec<Statement>) -> Vec<Identifier> {
    let mut out = Vec::new();
    for s in stmts.iter() {
        if let Statement::Definition(x, _) = s {
            out.push(*x);
        }
    }
    out
}

#[test]
fn affine_closure_on_nested_arithmetic() {
    let mut f = Flattener::new(8);
    let e = mult(
        add(mult(var(1), var(2)), lit(3)),
        div(var(1), add(var(2), lit(1))),
    );
    let p = prog(
        vec![1, 2],
        vec![
            Statement::Definition(Identifier::Name(10), e),
            Statement::Return(var(10)),
        ],
    );
    let out = f.flatten_program(p).unwrap();
    for s in out.statements.iter() {
        assert!(is_flattened_stmt(s));
    }
}

#[test]
fn affine_closure_on_comparison_program() {
    let mut f = Flattener::new(8);
    let p = prog(
        vec![1],
        vec![Statement::Return(ifelse(
            Condition::Lt(var(1), lit(5)),
            lit(1),
            lit(0),
        ))],
    );
    let out = f.flatten_program(p).unwrap();
    for s in out.statements.iter() {
        assert!(is_flattened_stmt(s));
    }
}

#[test]
fn definition_targets_unique_without_less_than() {
    let mut f = Flattener::new(8);
    let p = prog(
        vec![1],
        vec![
            Statement::Definition(Identifier::Name(2), mult(mult(var(1), var(1)), var(1))),
            Statement::Definition(Identifier::Name(2), add(var(2), lit(1))),
            Statement::Definition(
                Identifier::Name(3),
                ifelse(Condition::Eq(var(2), lit(4)), lit(1), lit(0)),
            ),
            Statement::Return(var(3)),
        ],
    );
    let out = f.flatten_program(p).unwrap();
    let targets = def_targets(&out.statements);
    for i in 0..targets.len() {
        for j in 0..targets.len() {
            if i != j {
                assert_ne!(targets[i], targets[j]);
            }
        }
    }
}

#[test]
fn less_than_gadget_concrete_values() {
    // indicator is 1 exactly when lhs < rhs, for differences
    // representable in eight digits
    for (a, b) in [(3u64, 5u64), (7, 5), (5, 5), (0, 127), (127, 0)] {
        let mut f = Flattener::new(8);
        let p = prog(
            vec![1, 2],
            vec![Statement::Return(ifelse(
                Condition::Lt(var(1), var(2)),
                lit(1),
                lit(0),
            ))],
        );
        let out = f.flatten_program(p).unwrap();
        let env = solve(&out.statements, vec![(1, a), (2, b)], 8);
        assert!(check_statements(&env, &out.statements));
        let ret = env_get_exec(&env, Identifier::Out).unwrap().v;
        assert_eq!(ret, if a < b { 1 } else { 0 });
    }
}

#[test]
fn equality_gadget_concrete_values() {
    for (a, b) in [(5u64, 5u64), (5, 7), (0, 0), (0, 1), (P - 1, P - 1)] {
        let mut f = Flattener::new(8);
        let p = prog(
            vec![1, 2],
            vec![Statement::Return(ifelse(
                Condition::Eq(var(1), var(2)),
                lit(1),
                lit(0),
            ))],
        );
        let out = f.flatten_program(p).unwrap();
        let env = solve(&out.statements, vec![(1, a), (2, b)], 8);
        // the three algebraic constraints and all definitions hold
        assert!(check_statements(&env, &out.statements));
        // the indicator d is the first hint-assigned symbol
        let mut d = None;
        for s in out.statements.iter() {
            if let Statement::Compiler(x, Expression::IfElse(_, _, _)) = s {
                d = Some(env_get_exec(&env, *x).unwrap().v);
                break;
            }
        }
        assert_eq!(d.unwrap(), if a == b { 1 } else { 0 });
        let ret = env_get_exec(&env, Identifier::Out).unwrap().v;
        assert_eq!(ret, if a == b { 1 } else { 0 });
    }
}

#[test]
fn pow_unrolling_counts_and_values() {
    for k in 2u64..=5 {
        let mut f = Flattener::new(8);
        let p = prog(
            vec![1],
            vec![
                Statement::Definition(Identifier::Name(2), pow(var(1), lit(k))),
                Statement::Return(var(2)),
            ],
        );
        let out = f.flatten_program(p).unwrap();
        // exactly k - 1 multiplication-bearing definitions
        let mut mults = 0;
        for s in out.statements.iter() {
            if let Statement::Definition(_, Expression::Mult(_, _)) = s {
                mults += 1;
            }
        }
        assert_eq!(mults, (k - 1) as usize);
        // evaluating the chain with x = 3 yields 3^k
        let env = solve(&out.statements, vec![(1, 3)], 8);
        assert!(check_statements(&env, &out.statements));
        let y = env_get_exec(&env, Identifier::Name(2)).unwrap().v;
        assert_eq!(y, powmod(3, k));
    }
}

#[test]
fn renaming_three_reassignments_resolve_to_last() {
    let mut f = Flattener::new(8);
    let p = prog(
        vec![],
        vec![
            Statement::Definition(Identifier::Name(9), lit(5)),
            Statement::Definition(Identifier::Name(9), lit(6)),
            Statement::Definition(Identifier::Name(9), lit(7)),
            Statement::Return(var(9)),
        ],
    );
    let out = f.flatten_program(p).unwrap();
    let targets = def_targets(&out.statements);
    assert_eq!(targets.len(), 3);
    assert_eq!(targets[0], Identifier::Name(9));
    assert_eq!(targets[1], Identifier::Suffixed(9, 0));
    assert_eq!(targets[2], Identifier::Suffixed(9, 1));
    assert_ne!(targets[0], targets[1]);
    assert_ne!(targets[1], targets[2]);
    assert_ne!(targets[0], targets[2]);
    match &out.statements[3] {
        Statement::Return(e) => match e {
            Expression::VariableReference(v) => assert_eq!(*v, Identifier::Suffixed(9, 1)),
            _ => panic!("return does not reference a variable"),
        },
        _ => panic!("missing return"),
    }
    // the last redefinition carries the returned value
    let env = solve(&out.statements, vec![], 8);
    assert!(check_statements(&env, &out.statements));
    assert_eq!(env_get_exec(&env, Identifier::Out).unwrap().v, 7);
}

#[test]
fn pow_exponent_one_is_unsupported() {
    let mut f = Flattener::new(8);
    let p = prog(
        vec![1],
        vec![Statement::Return(pow(var(1), lit(1)))],
    );
    assert_eq!(
        f.flatten_program(p).unwrap_err(),
        FlattenError::UnsupportedExponent
    );
}

#[test]
fn pow_composite_base_is_unsupported() {
    let mut f = Flattener::new(8);
    let p = prog(
        vec![1, 2],
        vec![Statement::Return(pow(add(var(1), var(2)), lit(2)))],
    );
    assert_eq!(
        f.flatten_program(p).unwrap_err(),
        FlattenError::UnsupportedPowerBase
    );
}

#[test]
fn non_strict_comparison_is_unsupported() {
    let mut f = Flattener::new(8);
    let p = prog(
        vec![1],
        vec![Statement::Return(ifelse(
            Condition::Le(var(1), lit(5)),
            lit(1),
            lit(0),
        ))],
    );
    assert_eq!(
        f.flatten_program(p).unwrap_err(),
        FlattenError::UnsupportedCondition
    );
}

#[test]
fn equality_with_two_nonaffine_sides_is_unresolvable() {
    let mut f = Flattener::new(8);
    let p = prog(
        vec![1, 2],
        vec![Statement::Condition(
            mult(var(1), var(1)),
            mult(var(2), var(2)),
        )],
    );
    assert_eq!(
        f.flatten_program(p).unwrap_err(),
        FlattenError::UnresolvableEquality
    );
}

#[test]
fn end_to_end_less_than_five() {
    // def main(a): return a < 5, with eight digits
    for (a, expected) in [(3u64, 1u64), (7, 0)] {
        let mut f = Flattener::new(8);
        let p = prog(
            vec![1],
            vec![Statement::Return(ifelse(
                Condition::Lt(var(1), lit(5)),
                lit(1),
                lit(0),
            ))],
        );
        let out = f.flatten_program(p).unwrap();
        assert_eq!(out.id, String::from("main"));
        assert_eq!(out.arguments, vec![Identifier::Name(1)]);
        let env = solve(&out.statements, vec![(1, a)], 8);
        assert!(check_statements(&env, &out.statements));
        assert_eq!(env_get_exec(&env, Identifier::Out).unwrap().v, expected);
    }
}

#[test]
fn sub_shaped_operand_materialized_under_mult_but_not_div() {
    // the node is not yet flattened, so the operands are inspected:
    // under Mult the affine subtraction is still bound to a symbol
    let mut f = Flattener::new(8);
    let p = prog(
        vec![1, 2, 3],
        vec![
            Statement::Definition(
                Identifier::Name(4),
                mult(sub(var(1), var(2)), mult(var(3), var(3))),
            ),
            Statement::Return(var(4)),
        ],
    );
    let out = f.flatten_program(p).unwrap();
    match &out.statements[0] {
        Statement::Definition(x, Expression::Sub(_, _)) => {
            assert_eq!(*x, Identifier::Sym(0));
        }
        _ => panic!("expected the subtraction to be materialized"),
    }
    let mut g = Flattener::new(8);
    let q = prog(
        vec![1, 2, 3],
        vec![
            Statement::Definition(
                Identifier::Name(4),
                div(sub(var(1), var(2)), mult(var(3), var(3))),
            ),
            Statement::Return(var(4)),
        ],
    );
    let qout = g.flatten_program(q).unwrap();
    // under Div the affine subtraction stays inline
    assert_eq!(qout.statements.len(), 3);
    match &qout.statements[1] {
        Statement::Definition(x, Expression::Div(l, _)) => {
            assert_eq!(*x, Identifier::Name(4));
            assert!(matches!(**l, Expression::Sub(_, _)));
        }
        _ => panic!("expected an inline division"),
    }
}

#[test]
fn nested_multiplication_introduces_one_symbol() {
    let mut f = Flattener::new(8);
    let p = prog(
        vec![1, 2, 3],
        vec![
            Statement::Definition(Identifier::Name(4), mult(mult(var(1), var(2)), var(3))),
            Statement::Return(var(4)),
        ],
    );
    let out = f.flatten_program(p).unwrap();
    assert_eq!(out.statements.len(), 3);
    match &out.statements[0] {
        Statement::Definition(x, Expression::Mult(_, _)) => assert_eq!(*x, Identifier::Sym(0)),
        _ => panic!("expected the inner product to be bound"),
    }
    match &out.statements[1] {
        Statement::Definition(x, Expression::Mult(l, r)) => {
            assert_eq!(*x, Identifier::Name(4));
            assert!(matches!(
                **l,
                Expression::VariableReference(Identifier::Sym(0))
            ));
            assert!(matches!(
                **r,
                Expression::VariableReference(Identifier::Name(3))
            ));
        }
        _ => panic!("expected the outer product"),
    }
    let env = solve(&out.statements, vec![(1, 3), (2, 4), (3, 5)], 8);
    assert!(check_statements(&env, &out.statements));
    assert_eq!(env_get_exec(&env, Identifier::Name(4)).unwrap().v, 60);
}

#[test]
fn hints_pass_through_verbatim() {
    let mut f = Flattener::new(8);
    let hint = Statement::Compiler(Identifier::Name(7), div(lit(1), var(1)));
    let p = prog(vec![1], vec![hint, Statement::Return(var(1))]);
    let out = f.flatten_program(p).unwrap();
    match &out.statements[0] {
        Statement::Compiler(x, Expression::Div(_, _)) => assert_eq!(*x, Identifier::Name(7)),
        _ => panic!("hint was not passed through"),
    }
}

#[test]
fn field_operations_exact_values() {
    assert_eq!(Fp::one().v, 1);
    assert_eq!(Fp::zero().v, 0);
    let two = Fp { v: 2 };
    assert_eq!(two.pow(7).v, 128);
    assert_eq!(Fp::zero().sub(two.pow(7)).v, P - 128);
    assert_eq!(Fp { v: P - 1 }.add(Fp { v: 3 }).v, 2);
    assert_eq!(Fp { v: 5 }.mul(Fp { v: 7 }).v, 35);
    assert_eq!(Fp::from_u64(P + 4).v, 4);
    assert_eq!(inv(12345) * 12345 % P, 1);
}

#[test]
fn empty_program_flattens_to_itself() {
    let mut f = Flattener::new(8);
    let p = prog(vec![1], vec![]);
    let out = f.flatten_program(p).unwrap();
    assert_eq!(out.id, String::from("main"));
    assert_eq!(out.arguments, vec![Identifier::Name(1)]);
    assert!(out.statements.is_empty());
}

#[test]
fn linear_chains_stay_inline() {
    // a pure affine expression needs no fresh variables
    let mut f = Flattener::new(8);
    let e = add(sub(add(var(1), lit(2)), var(2)), add(var(1), var(2)));
    let p = prog(
        vec![1, 2],
        vec![
            Statement::Definition(Identifier::Name(3), e),
            Statement::Return(var(3)),
        ],
    );
    let out = f.flatten_program(p).unwrap();
    assert_eq!(out.statements.len(), 2);
    let env = solve(&out.statements, vec![(1, 10), (2, 4)], 8);
    assert!(check_statements(&env, &out.statements));
    assert_eq!(env_get_exec(&env, Identifier::Out).unwrap().v, 22);
}

#[test]
fn division_evaluates_through_its_hinted_inverse() {
    // a / b is kept as a division statement; the witness for it is
    // checked via the multiplicative inverse
    let mut f = Flattener::new(8);
    let p = prog(
        vec![1, 2],
        vec![
            Statement::Definition(Identifier::Name(3), div(var(1), var(2))),
            Statement::Return(var(3)),
        ],
    );
    let out = f.flatten_program(p).unwrap();
    match &out.statements[0] {
        Statement::Definition(x, Expression::Div(_, _)) => assert_eq!(*x, Identifier::Name(3)),
        _ => panic!("expected an inline division"),
    }
    // the witness satisfies the division as a multiplicative
    // constraint, and the quotient times the divisor gives back the
    // dividend
    let env = solve(&out.statements, vec![(1, 56), (2, 7)], 8);
    assert!(check_statements(&env, &out.statements));
    assert_eq!(env_get_exec(&env, Identifier::Name(3)).unwrap().v, 8);
    assert_eq!(env_get_exec(&env, Identifier::Out).unwrap().v, 8);
}

#[test]
fn already_flattened_passes_through_unchanged() {
    // an affine expression and an affine-operand product are kept
    // exactly as written, with no statements added
    let mut f = Flattener::new(8);
    let p = prog(
        vec![1, 2],
        vec![Statement::Return(add(
            mult(var(1), var(2)),
            sub(var(1), lit(3)),
        ))],
    );
    let out = f.flatten_program(p).unwrap();
    assert_eq!(out.statements.len(), 1);
    let expected = Statement::Return(add(mult(var(1), var(2)), sub(var(1), lit(3))));
    assert_eq!(
        format!("{:?}", out.statements[0]),
        format!("{:?}", expected)
    );
}

#[test]
fn flattening_is_deterministic_across_runs() {
    let build = || {
        prog(
            vec![1],
            vec![
                Statement::Definition(Identifier::Name(2), pow(var(1), lit(4))),
                Statement::Definition(Identifier::Name(2), add(var(2), lit(1))),
                Statement::Return(ifelse(Condition::Eq(var(2), lit(82)), lit(1), lit(0))),
            ],
        )
    };
    let mut f1 = Flattener::new(8);
    let mut f2 = Flattener::new(8);
    let out1 = f1.flatten_program(build()).unwrap();
    // a prior run leaves no state behind: the second run on the same
    // instance gives the same output as a fresh instance's
    let out2 = f1.flatten_program(build()).unwrap();
    let out3 = f2.flatten_program(build()).unwrap();
    assert_eq!(format!("{:?}", out1), format!("{:?}", out2));
    assert_eq!(format!("{:?}", out1), format!("{:?}", out3));
}

// Tests for the guard-pattern simplifier: collapsing the producer's
// three-statement checked-operation idioms into single fallible operations.

use charon::expressions::{BinOp, ConstantValue, ETy, FieldProjKind, IntegerTy, Operand,
    OperandConstantValue, Place, ProjectionElem, Rvalue, ScalarValue};
use charon::llbc_ast::{Assert, FunDecl, RawStatement, Statement};
use charon::simplify_binops::{binop_can_fail, binop_requires_assert_after,
    binop_requires_assert_before, check_places_similar_but_last_proj_elem, simplify, simplify_def,
    simplify_exp, statement_is_faillible_binop, SimplifyError};

fn p(var_id: usize) -> Place {
    Place { var_id, projection: Vec::new() }
}

fn p_field(var_id: usize, arity: usize, field: usize) -> Place {
    Place {
        var_id,
        projection: vec![ProjectionElem::Field(FieldProjKind::Tuple(arity), field)],
    }
}

fn cp(var_id: usize) -> Operand {
    Operand::Copy(p(var_id))
}

fn mv(place: Place) -> Operand {
    Operand::Move(place)
}

fn zero_u32() -> Operand {
    Operand::Constant(
        ETy::Integer(IntegerTy::U32),
        OperandConstantValue::ConstantValue(ConstantValue::Scalar(ScalarValue::U32(0))),
    )
}

fn st(content: RawStatement) -> Statement {
    Statement { content }
}

fn seq(a: Statement, b: Statement) -> Statement {
    st(RawStatement::Sequence(Box::new(a), Box::new(b)))
}

fn ret_stmt() -> Statement {
    st(RawStatement::Return)
}

/// `t := a + b;` with `t` a pair place.
fn add_into_pair(t: usize, a: usize, b: usize) -> Statement {
    st(RawStatement::Assign(p(t), Rvalue::BinaryOp(BinOp::Add, cp(a), cp(b))))
}

/// `assert(move t.1 == false);`
fn assert_flag(t: usize) -> Statement {
    st(RawStatement::Assert(Assert { cond: mv(p_field(t, 2, 1)), expected: false }))
}

/// `dest := move t.0;`
fn extract_value(dest: usize, t: usize) -> Statement {
    st(RawStatement::Assign(p(dest), Rvalue::Use(mv(p_field(t, 2, 0)))))
}

fn tree_eq(a: &Statement, b: &Statement) {
    assert_eq!(format!("{:?}", a), format!("{:?}", b));
}

#[test]
fn operation_then_check_collapses() {
    // t := a + b; assert(move t.1 == false); dest := move t.0;
    // simplifies to dest := a + b with no assert remaining.
    let tree = seq(add_into_pair(3, 1, 2), seq(assert_flag(3), extract_value(4, 3)));
    let got = simplify_exp(tree).unwrap();
    let expected = st(
        RawStatement::Assign(p(4), Rvalue::FallibleBinaryOp(BinOp::Add, cp(1), cp(2))),
    );
    tree_eq(&got, &expected);
}

#[test]
fn operation_then_check_collapses_with_continuation() {
    let tree = seq(
        add_into_pair(3, 1, 2),
        seq(assert_flag(3), seq(extract_value(4, 3), ret_stmt())),
    );
    let got = simplify_exp(tree).unwrap();
    let expected = seq(
        st(RawStatement::Assign(p(4), Rvalue::FallibleBinaryOp(BinOp::Add, cp(1), cp(2)))),
        ret_stmt(),
    );
    tree_eq(&got, &expected);
}

#[test]
fn check_then_operation_collapses() {
    // t := b == 0; assert(move t == false); dest := a / b;
    // simplifies to dest := a / b.
    let tree = seq(
        st(RawStatement::Assign(p(3), Rvalue::BinaryOp(BinOp::Eq, cp(2), zero_u32()))),
        seq(
            st(RawStatement::Assert(Assert { cond: mv(p(3)), expected: false })),
            st(RawStatement::Assign(
                p(4),
                Rvalue::BinaryOp(BinOp::Div, mv(p(1)), mv(p(2))),
            )),
        ),
    );
    let got = simplify_exp(tree).unwrap();
    let expected = st(
        RawStatement::Assign(p(4), Rvalue::FallibleBinaryOp(BinOp::Div, mv(p(1)), mv(p(2)))),
    );
    tree_eq(&got, &expected);
}

#[test]
fn simplifier_is_idempotent_on_collapsed_output() {
    let tree = seq(
        add_into_pair(3, 1, 2),
        seq(assert_flag(3), seq(extract_value(4, 3), ret_stmt())),
    );
    let once = simplify_exp(tree).unwrap();
    let again = simplify_exp(
        seq(
            st(RawStatement::Assign(p(4), Rvalue::FallibleBinaryOp(BinOp::Add, cp(1), cp(2)))),
            ret_stmt(),
        ),
    )
    .unwrap();
    tree_eq(&once, &again);
}

#[test]
fn unguarded_fallible_operation_is_an_error() {
    let tree = seq(
        st(RawStatement::Assign(p(3), Rvalue::BinaryOp(BinOp::Mul, cp(1), cp(2)))),
        ret_stmt(),
    );
    let r = simplify_exp(tree);
    assert!(matches!(r, Err(SimplifyError::UnguardedBinOp(BinOp::Mul))));
}

#[test]
fn malformed_operation_check_is_an_error() {
    // The checked addition is followed by two statements that are not its
    // assert-and-extract pair.
    let tree = seq(
        add_into_pair(3, 1, 2),
        seq(st(RawStatement::Nop), seq(st(RawStatement::Nop), ret_stmt())),
    );
    let r = simplify_exp(tree);
    assert!(matches!(r, Err(SimplifyError::MalformedOperationCheck(BinOp::Add))));
}

#[test]
fn malformed_check_operation_is_an_error() {
    // A division is not preceded by its compare-and-assert pair.
    let tree = seq(
        st(RawStatement::Nop),
        seq(
            st(RawStatement::Nop),
            seq(
                st(RawStatement::Assign(
                    p(4),
                    Rvalue::BinaryOp(BinOp::Rem, mv(p(1)), mv(p(2))),
                )),
                ret_stmt(),
            ),
        ),
    );
    let r = simplify_exp(tree);
    assert!(matches!(r, Err(SimplifyError::MalformedCheckOperation(BinOp::Rem))));
}

#[test]
fn sliding_window_collapses_after_a_prefix() {
    // A non-matching statement in front: the window slides past it.
    let tree = seq(
        st(RawStatement::Nop),
        seq(
            add_into_pair(3, 1, 2),
            seq(assert_flag(3), seq(extract_value(4, 3), ret_stmt())),
        ),
    );
    let got = simplify_exp(tree).unwrap();
    let expected = seq(
        st(RawStatement::Nop),
        seq(
            st(RawStatement::Assign(p(4), Rvalue::FallibleBinaryOp(BinOp::Add, cp(1), cp(2)))),
            ret_stmt(),
        ),
    );
    tree_eq(&got, &expected);
}

#[test]
fn simplifier_recurses_into_loops_and_switches() {
    let guarded = seq(
        add_into_pair(3, 1, 2),
        seq(assert_flag(3), seq(extract_value(4, 3), st(RawStatement::Break(0)))),
    );
    let tree = st(RawStatement::Loop(Box::new(guarded)));
    let got = simplify_exp(tree).unwrap();
    let expected = st(
        RawStatement::Loop(
            Box::new(
                seq(
                    st(
                        RawStatement::Assign(
                            p(4),
                            Rvalue::FallibleBinaryOp(BinOp::Add, cp(1), cp(2)),
                        ),
                    ),
                    st(RawStatement::Break(0)),
                ),
            ),
        ),
    );
    tree_eq(&got, &expected);
}

#[test]
fn non_matching_shapes_are_left_untouched() {
    // An innocuous comparison does not trigger any idiom.
    let tree = seq(
        st(RawStatement::Assign(p(3), Rvalue::BinaryOp(BinOp::Lt, cp(1), cp(2)))),
        seq(st(RawStatement::FakeRead(p(3))), ret_stmt()),
    );
    let got = simplify_exp(
        seq(
            st(RawStatement::Assign(p(3), Rvalue::BinaryOp(BinOp::Lt, cp(1), cp(2)))),
            seq(st(RawStatement::FakeRead(p(3))), ret_stmt()),
        ),
    )
    .unwrap();
    tree_eq(&got, &tree);
}

#[test]
fn simplify_runs_over_declarations_best_effort() {
    let good = FunDecl {
        def_id: 1,
        body: seq(
            add_into_pair(3, 1, 2),
            seq(assert_flag(3), seq(extract_value(4, 3), ret_stmt())),
        ),
    };
    let bad = FunDecl {
        def_id: 2,
        body: seq(
            st(RawStatement::Assign(p(3), Rvalue::BinaryOp(BinOp::Shl, cp(1), cp(2)))),
            ret_stmt(),
        ),
    };
    let rs = simplify(vec![good, bad]);
    assert_eq!(rs.len(), 2);
    match &rs[0] {
        Ok(d) => assert_eq!(d.def_id, 1),
        Err(_) => panic!("first declaration should simplify"),
    }
    assert!(matches!(rs[1], Err(SimplifyError::UnguardedBinOp(BinOp::Shl))));
}

#[test]
fn simplify_def_keeps_the_identifier() {
    let d = FunDecl { def_id: 42, body: ret_stmt() };
    let r = simplify_def(d).unwrap();
    assert_eq!(r.def_id, 42);
    assert!(matches!(r.body.content, RawStatement::Return));
}

#[test]
fn binop_families_are_exact() {
    let after = [BinOp::Add, BinOp::Sub, BinOp::Mul, BinOp::Shl, BinOp::Shr];
    let before = [BinOp::Div, BinOp::Rem];
    let neither = [
        BinOp::BitXor,
        BinOp::BitAnd,
        BinOp::BitOr,
        BinOp::Eq,
        BinOp::Lt,
        BinOp::Le,
        BinOp::Ne,
        BinOp::Ge,
        BinOp::Gt,
    ];
    for op in after {
        assert!(binop_requires_assert_after(op));
        assert!(!binop_requires_assert_before(op));
        assert!(binop_can_fail(op));
    }
    for op in before {
        assert!(binop_requires_assert_before(op));
        assert!(!binop_requires_assert_after(op));
        assert!(binop_can_fail(op));
    }
    for op in neither {
        assert!(!binop_requires_assert_after(op));
        assert!(!binop_requires_assert_before(op));
        assert!(!binop_can_fail(op));
    }
}

#[test]
fn place_extension_check_is_exact() {
    let base = p(3);
    let flag = ProjectionElem::Field(FieldProjKind::Tuple(2), 1);
    let value = ProjectionElem::Field(FieldProjKind::Tuple(2), 0);
    assert!(check_places_similar_but_last_proj_elem(&base, &flag, &p_field(3, 2, 1)));
    assert!(!check_places_similar_but_last_proj_elem(&base, &flag, &p_field(3, 2, 0)));
    assert!(!check_places_similar_but_last_proj_elem(&base, &value, &p_field(4, 2, 0)));
    assert!(!check_places_similar_but_last_proj_elem(&base, &value, &p(3)));
}

#[test]
fn fallible_assignment_detection() {
    let fallible = st(RawStatement::Assign(p(3), Rvalue::BinaryOp(BinOp::Add, cp(1), cp(2))));
    let collapsed = st(
        RawStatement::Assign(p(3), Rvalue::FallibleBinaryOp(BinOp::Add, cp(1), cp(2))),
    );
    let harmless = st(RawStatement::Assign(p(3), Rvalue::BinaryOp(BinOp::Eq, cp(1), cp(2))));
    assert!(statement_is_faillible_binop(&fallible));
    assert!(!statement_is_faillible_binop(&collapsed));
    assert!(!statement_is_faillible_binop(&harmless));
}

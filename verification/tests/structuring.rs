// Tests for the control-flow structuring engine: reconstruction of
// conditionals, switches and loops from basic-block graphs.

use charon::expressions::{BinOp, ConstantValue, ETy, IntegerTy, Operand, OperandConstantValue,
    Place, Rvalue, ScalarValue};
use charon::llbc_ast as llbc;
use charon::ordered_map::{targets_insert, targets_new};
use charon::ullbc_ast as ullbc;
use charon::ullbc_to_llbc::{translate_body, translate_decls, StructuringError};

fn place(var_id: usize) -> Place {
    Place { var_id, projection: Vec::new() }
}

fn copy_op(var_id: usize) -> Operand {
    Operand::Copy(place(var_id))
}

fn const_bool(b: bool) -> Operand {
    Operand::Constant(
        ETy::Bool,
        OperandConstantValue::ConstantValue(ConstantValue::Bool(b)),
    )
}

fn assign_bool(var_id: usize, b: bool) -> ullbc::Statement {
    ullbc::Statement {
        content: ullbc::RawStatement::Assign(place(var_id), Rvalue::Use(const_bool(b))),
    }
}

fn goto(target: usize) -> ullbc::Terminator {
    ullbc::Terminator { content: ullbc::RawTerminator::Goto { target } }
}

fn ret() -> ullbc::Terminator {
    ullbc::Terminator { content: ullbc::RawTerminator::Return }
}

fn if_term(discr_var: usize, t1: usize, t2: usize) -> ullbc::Terminator {
    ullbc::Terminator {
        content: ullbc::RawTerminator::Switch {
            discr: copy_op(discr_var),
            targets: ullbc::SwitchTargets::If(t1, t2),
        },
    }
}

fn block(statements: Vec<ullbc::Statement>, terminator: ullbc::Terminator) -> ullbc::BlockData {
    ullbc::BlockData { statements, terminator }
}

fn l_assign_bool(var_id: usize, b: bool) -> llbc::Statement {
    llbc::Statement {
        content: llbc::RawStatement::Assign(place(var_id), Rvalue::Use(const_bool(b))),
    }
}

fn l_seq(a: llbc::Statement, b: llbc::Statement) -> llbc::Statement {
    llbc::Statement { content: llbc::RawStatement::Sequence(Box::new(a), Box::new(b)) }
}

fn l_nop() -> llbc::Statement {
    llbc::Statement { content: llbc::RawStatement::Nop }
}

fn l_ret() -> llbc::Statement {
    llbc::Statement { content: llbc::RawStatement::Return }
}

fn l_if(discr_var: usize, a: llbc::Statement, b: llbc::Statement) -> llbc::Statement {
    llbc::Statement {
        content: llbc::RawStatement::Switch(
            llbc::Switch::If(copy_op(discr_var), Box::new(a), Box::new(b)),
        ),
    }
}

fn l_loop(body: llbc::Statement) -> llbc::Statement {
    llbc::Statement { content: llbc::RawStatement::Loop(Box::new(body)) }
}

fn l_break(n: usize) -> llbc::Statement {
    llbc::Statement { content: llbc::RawStatement::Break(n) }
}

fn l_continue(n: usize) -> llbc::Statement {
    llbc::Statement { content: llbc::RawStatement::Continue(n) }
}

fn assert_tree_eq(got: &llbc::Statement, expected: &llbc::Statement) {
    assert_eq!(format!("{:?}", got), format!("{:?}", expected));
}

#[test]
fn diamond_switch_joins_without_duplication() {
    // A two-armed boolean switch whose arms assign to the same place and
    // fall to a common successor: the successor appears once, after the
    // conditional, and each arm ends in Nop.
    let blocks = vec![
        block(vec![], if_term(1, 1, 2)),
        block(vec![assign_bool(2, true)], goto(3)),
        block(vec![assign_bool(2, false)], goto(3)),
        block(vec![], ret()),
    ];
    let got = translate_body(&blocks).unwrap();
    let expected = l_seq(
        l_if(
            1,
            l_seq(l_assign_bool(2, true), l_nop()),
            l_seq(l_assign_bool(2, false), l_nop()),
        ),
        l_ret(),
    );
    assert_tree_eq(&got, &expected);
}

#[test]
fn back_edge_becomes_loop_with_continue_and_break() {
    // A back-edge from block 5 to block 2 (which dominates it) and an exit
    // edge from block 5 to block 7: the loop body continues where the
    // back-edge was and breaks where the exit edge was.
    let filler = || block(vec![], ret());
    let blocks = vec![
        block(vec![], goto(2)),   // 0
        filler(),                 // 1 (unreachable)
        block(vec![], goto(5)),   // 2: loop header
        filler(),                 // 3 (unreachable)
        filler(),                 // 4 (unreachable)
        block(vec![], if_term(1, 2, 7)),  // 5: back edge / exit
        filler(),                 // 6 (unreachable)
        block(vec![], ret()),     // 7
    ];
    let got = translate_body(&blocks).unwrap();
    let expected = l_seq(l_loop(l_if(1, l_continue(0), l_break(0))), l_ret());
    assert_tree_eq(&got, &expected);
}

#[test]
fn while_loop_shape() {
    // 0 -> 1(header): if v then 2 else 3; 2 -> 1; 3: return.
    let blocks = vec![
        block(vec![], goto(1)),
        block(vec![], if_term(1, 2, 3)),
        block(vec![assign_bool(2, true)], goto(1)),
        block(vec![], ret()),
    ];
    let got = translate_body(&blocks).unwrap();
    let expected = l_seq(
        l_loop(l_if(1, l_seq(l_assign_bool(2, true), l_continue(0)), l_break(0))),
        l_ret(),
    );
    assert_tree_eq(&got, &expected);
}

#[test]
fn loop_breaking_to_switch_join() {
    // An arm of a switch holds a loop whose exit is the switch's join
    // block: the loop's break lands at the end of the arm, and the join is
    // emitted once, after the switch.
    let blocks = vec![
        block(vec![], if_term(1, 1, 2)),  // 0
        block(vec![], if_term(3, 3, 2)),  // 1: loop header, exits to 2
        block(vec![], ret()),             // 2: join of block 0
        block(vec![], goto(1)),           // 3: back edge
    ];
    let got = translate_body(&blocks).unwrap();
    let expected = l_seq(
        l_if(
            1,
            l_seq(l_loop(l_if(3, l_continue(0), l_break(0))), l_nop()),
            l_nop(),
        ),
        l_ret(),
    );
    assert_tree_eq(&got, &expected);
}

#[test]
fn nested_loops_use_indexed_breaks_and_continues() {
    // Two nested loops: from the inner body, an edge to the inner header is
    // Continue(0), one to the outer header is Continue(1), and one to the
    // outer loop's exit crosses the inner loop as Break(1).
    let blocks = vec![
        block(vec![], goto(1)),           // 0
        block(vec![], if_term(1, 2, 6)),  // 1: outer header, exits to 6
        block(vec![], if_term(2, 3, 6)),  // 2: inner header
        block(vec![], if_term(3, 2, 1)),  // 3: both back edges
        block(vec![], ret()),             // 4 (unreachable)
        block(vec![], ret()),             // 5 (unreachable)
        block(vec![], ret()),             // 6
    ];
    let got = translate_body(&blocks).unwrap();
    let expected = l_seq(
        l_loop(
            l_if(
                1,
                l_loop(l_if(2, l_if(3, l_continue(0), l_continue(1)), l_break(1))),
                l_break(0),
            ),
        ),
        l_ret(),
    );
    assert_tree_eq(&got, &expected);
}

#[test]
fn switch_int_groups_values_by_target_in_source_order() {
    // Values 0 and 2 share a branch; value 1 has its own; branch order
    // follows the first occurrence in the value-to-target map.
    let targets = ullbc::make_switch_int_targets(IntegerTy::U32, &vec![(0, 1), (1, 2), (2, 1)], 3);
    let blocks = vec![
        block(
            vec![],
            ullbc::Terminator {
                content: ullbc::RawTerminator::Switch { discr: copy_op(1), targets },
            },
        ),
        block(vec![assign_bool(2, true)], goto(4)),
        block(vec![assign_bool(2, false)], goto(4)),
        block(vec![], goto(4)),
        block(vec![], ret()),
    ];
    let got = translate_body(&blocks).unwrap();
    let expected = l_seq(
        llbc::Statement {
            content: llbc::RawStatement::Switch(
                llbc::Switch::SwitchInt(
                    copy_op(1),
                    IntegerTy::U32,
                    vec![
                        (
                            vec![ScalarValue::U32(0), ScalarValue::U32(2)],
                            l_seq(l_assign_bool(2, true), l_nop()),
                        ),
                        (
                            vec![ScalarValue::U32(1)],
                            l_seq(l_assign_bool(2, false), l_nop()),
                        ),
                    ],
                    Box::new(l_nop()),
                ),
            ),
        },
        l_ret(),
    );
    assert_tree_eq(&got, &expected);
}

#[test]
fn empty_body_is_rejected() {
    let blocks: Vec<ullbc::BlockData> = vec![];
    let r = translate_body(&blocks);
    assert!(matches!(r, Err(StructuringError::EmptyBody)));
}

#[test]
fn dangling_block_reference_is_rejected() {
    let blocks = vec![block(vec![], goto(5))];
    let r = translate_body(&blocks);
    assert!(matches!(r, Err(StructuringError::DanglingBlock(5))));
}

#[test]
fn crossing_merges_are_rejected_as_ambiguous() {
    // Both successors of the entry switch are merge points: no single join
    // can be determined.
    let blocks = vec![
        block(vec![], if_term(1, 1, 2)),
        block(vec![], goto(2)),
        block(vec![], goto(1)),
    ];
    let r = translate_body(&blocks);
    assert!(matches!(r, Err(StructuringError::AmbiguousJoin(0))));
}

#[test]
fn loop_with_two_exits_is_rejected() {
    // The loop headed by block 1 exits both to block 3 and to block 4.
    let blocks = vec![
        block(vec![], goto(1)),
        block(vec![], if_term(1, 2, 3)),  // 1: header, exit to 3
        block(vec![], if_term(2, 1, 4)),  // 2: back edge, exit to 4
        block(vec![], ret()),
        block(vec![], ret()),
    ];
    let r = translate_body(&blocks);
    assert!(matches!(r, Err(StructuringError::AmbiguousLoopExit(1))));
}

#[test]
fn unreachable_terminator_becomes_panic() {
    let blocks = vec![
        block(
            vec![],
            ullbc::Terminator { content: ullbc::RawTerminator::Unreachable },
        ),
    ];
    let got = translate_body(&blocks).unwrap();
    let expected = llbc::Statement { content: llbc::RawStatement::Panic };
    assert_tree_eq(&got, &expected);
}

#[test]
fn storage_markers_become_drops() {
    let blocks = vec![
        block(
            vec![
                ullbc::Statement { content: ullbc::RawStatement::StorageDead(7) },
                ullbc::Statement { content: ullbc::RawStatement::Deinit(place(8)) },
            ],
            ret(),
        ),
    ];
    let got = translate_body(&blocks).unwrap();
    let expected = l_seq(
        llbc::Statement { content: llbc::RawStatement::Drop(place(7)) },
        l_seq(
            llbc::Statement { content: llbc::RawStatement::Drop(place(8)) },
            l_ret(),
        ),
    );
    assert_tree_eq(&got, &expected);
}

#[test]
fn translate_expr_body_keeps_locals_and_arguments() {
    let body = ullbc::ExprBody {
        arg_count: 2,
        locals: vec![
            ullbc::Var { index: 0, ty: ETy::Unit },
            ullbc::Var { index: 1, ty: ETy::Bool },
        ],
        blocks: vec![block(vec![], ret())],
    };
    let r = charon::ullbc_to_llbc::translate_expr_body(&body).unwrap();
    assert_eq!(r.arg_count, 2);
    assert_eq!(r.locals.len(), 2);
    assert!(matches!(r.body.content, llbc::RawStatement::Return));
}

#[test]
fn translate_decls_reports_per_function() {
    let good = ullbc::FunDecl {
        def_id: 4,
        body: ullbc::ExprBody {
            arg_count: 0,
            locals: vec![],
            blocks: vec![block(vec![], ret())],
        },
    };
    let bad = ullbc::FunDecl {
        def_id: 9,
        body: ullbc::ExprBody { arg_count: 0, locals: vec![], blocks: vec![block(vec![], goto(3))] },
    };
    let rs = translate_decls(&vec![good, bad]);
    assert_eq!(rs.len(), 2);
    match &rs[0] {
        Ok(d) => {
            assert_eq!(d.def_id, 4);
            assert!(matches!(d.body.content, llbc::RawStatement::Return));
        },
        Err(_) => panic!("first declaration should structure"),
    }
    match &rs[1] {
        Ok(_) => panic!("second declaration should fail"),
        Err(f) => {
            assert_eq!(f.def_id, 9);
            assert!(matches!(f.error, StructuringError::DanglingBlock(3)));
        },
    }
}

#[test]
fn call_and_assert_terminators_become_statements() {
    let call = ullbc::RawTerminator::Call {
        func: 11,
        region_args: vec![],
        type_args: vec![ETy::Unit],
        args: vec![copy_op(1)],
        dest: place(2),
        target: 1,
    };
    let blocks = vec![
        block(vec![], ullbc::Terminator { content: call }),
        block(
            vec![],
            ullbc::Terminator {
                content: ullbc::RawTerminator::Assert {
                    cond: copy_op(2),
                    expected: true,
                    target: 2,
                },
            },
        ),
        block(vec![], ret()),
    ];
    let got = translate_body(&blocks).unwrap();
    let expected = l_seq(
        llbc::Statement {
            content: llbc::RawStatement::Call(
                llbc::Call {
                    func: 11,
                    region_args: vec![],
                    type_args: vec![ETy::Unit],
                    args: vec![copy_op(1)],
                    dest: place(2),
                },
            ),
        },
        l_seq(
            llbc::Statement {
                content: llbc::RawStatement::Assert(
                    llbc::Assert { cond: copy_op(2), expected: true },
                ),
            },
            l_ret(),
        ),
    );
    assert_tree_eq(&got, &expected);
}

#[test]
fn switch_int_entries_keep_insertion_order_after_update() {
    // Re-inserting an existing key moves it to the back of the map, so its
    // branch comes last; this is visible in the branch order of the
    // structured switch.
    let mut m = targets_new();
    let _ = targets_insert(&mut m, 0, 1);
    let _ = targets_insert(&mut m, 1, 2);
    let old = targets_insert(&mut m, 0, 2);
    assert_eq!(old, Some(1));
    let blocks = vec![
        block(
            vec![],
            ullbc::Terminator {
                content: ullbc::RawTerminator::Switch {
                    discr: copy_op(1),
                    targets: ullbc::SwitchTargets::SwitchInt(IntegerTy::U8, m, 3),
                },
            },
        ),
        block(vec![], goto(4)),
        block(vec![], goto(4)),
        block(vec![], goto(4)),
        block(vec![], ret()),
    ];
    let got = translate_body(&blocks).unwrap();
    // After the update both values 1 and 0 target block 2, in the order
    // 1 then 0; block 1 is no longer targeted by any value.
    let expected = l_seq(
        llbc::Statement {
            content: llbc::RawStatement::Switch(
                llbc::Switch::SwitchInt(
                    copy_op(1),
                    IntegerTy::U8,
                    vec![
                        (vec![ScalarValue::U8(1), ScalarValue::U8(0)], l_nop()),
                    ],
                    Box::new(l_nop()),
                ),
            ),
        },
        l_ret(),
    );
    assert_tree_eq(&got, &expected);
}

#[test]
fn binop_guard_survives_structuring_and_collapses_after() {
    // End to end: the producer's three-statement overflow guard, spread
    // over two blocks with an assert terminator, structures into a
    // canonical sequence and then collapses to one fallible operation.
    let t_flag = Place {
        var_id: 3,
        projection: vec![charon::expressions::ProjectionElem::Field(
            charon::expressions::FieldProjKind::Tuple(2),
            1,
        )],
    };
    let t_val = Place {
        var_id: 3,
        projection: vec![charon::expressions::ProjectionElem::Field(
            charon::expressions::FieldProjKind::Tuple(2),
            0,
        )],
    };
    let blocks = vec![
        block(
            vec![
                ullbc::Statement {
                    content: ullbc::RawStatement::Assign(
                        place(3),
                        Rvalue::BinaryOp(BinOp::Add, copy_op(1), copy_op(2)),
                    ),
                },
            ],
            ullbc::Terminator {
                content: ullbc::RawTerminator::Assert {
                    cond: Operand::Move(t_flag),
                    expected: false,
                    target: 1,
                },
            },
        ),
        block(
            vec![
                ullbc::Statement {
                    content: ullbc::RawStatement::Assign(
                        place(4),
                        Rvalue::Use(Operand::Move(t_val)),
                    ),
                },
            ],
            ret(),
        ),
    ];
    let structured = translate_body(&blocks).unwrap();
    let simplified = charon::simplify_binops::simplify_exp(structured).unwrap();
    let expected = l_seq(
        llbc::Statement {
            content: llbc::RawStatement::Assign(
                place(4),
                Rvalue::FallibleBinaryOp(BinOp::Add, copy_op(1), copy_op(2)),
            ),
        },
        l_ret(),
    );
    assert_tree_eq(&simplified, &expected);
}

//! Collapses the upstream producer's explicit guard idioms for fallible
//! binary operations into single implicitly-fallible operations.
//!
//! The producer encodes every fallible binary operation as three consecutive
//! statements:
//! - operation-then-check, for `Add`, `Sub`, `Mul`, `Shl`, `Shr`:
//!   `t := x + y; assert(move t.1 == false); dest := move t.0;`
//!   where `t` is a pair of the result and the overflow flag;
//! - check-then-operation, for `Div` and `Rem`:
//!   `t := copy divisor == 0; assert(move t == false); dest := a / divisor;`.
//!
//! Each matched run of three collapses to a single assignment of an
//! [`RvalueS::FallibleBinaryOp`], which aborts the program at runtime exactly
//! when the removed check would have.  A fallible operation that does not sit
//! in one of the two shapes reflects a broken upstream invariant and is
//! reported as a [`SimplifyError`] instead of being silently kept.

use vstd::prelude::*;

use crate::expressions::{BinOp, ConstantValue, FieldProjKind, Operand, OperandConstantValue,
    OperandS, Place, PlaceS, ProjectionElem, Rvalue, RvalueS};
use crate::llbc_ast::{FunDecl, FunDeclId, RawStatement, Statement, StmtS, Switch, SwitchS};
use crate::llbc_ast::{int_arms_view, match_arms_view};
use crate::llbc_ast::{int_arms_size, match_arms_size, stmt_size, switch_size};

verus! {

/// Why a function body could not be simplified: a fallible binary operation
/// stood outside the exact guard idiom the producer is bound to emit.
#[derive(Debug, Clone, Copy, PartialEq, Eq, Structural)]
pub enum SimplifyError {
    /// A fallible operation appeared with no guard around it at all.
    UnguardedBinOp(BinOp),
    /// An overflow-checked operation was not followed by the exact
    /// assert-and-extract pair.
    MalformedOperationCheck(BinOp),
    /// A division or remainder was not preceded by the exact
    /// compare-and-assert pair.
    MalformedCheckOperation(BinOp),
}

/// Whether the operation can overflow, so that the producer checks its result
/// after computing it.
pub open spec fn requires_assert_after(binop: BinOp) -> bool {
    match binop {
        BinOp::Add | BinOp::Sub | BinOp::Mul | BinOp::Shl | BinOp::Shr => true,
        _ => false,
    }
}

/// Whether the operation has a precondition (a non-zero divisor), so that the
/// producer checks it before performing it.
pub open spec fn requires_assert_before(binop: BinOp) -> bool {
    match binop {
        BinOp::Div | BinOp::Rem => true,
        _ => false,
    }
}

/// Whether the operation can fail at all.
pub open spec fn can_fail(binop: BinOp) -> bool {
    requires_assert_after(binop) || requires_assert_before(binop)
}

/// Returns true iff the binary operation might fail after the fact and thus
/// requires its result to be checked (overflows, for instance).
pub fn binop_requires_assert_after(binop: BinOp) -> (r: bool)
    ensures
        r == requires_assert_after(binop),
{
    match binop {
        BinOp::Add | BinOp::Sub | BinOp::Mul | BinOp::Shl | BinOp::Shr => true,
        _ => false,
    }
}

/// Returns true iff the binary operation has a precondition (divisor is non
/// zero for instance) and must thus be preceded by an assertion.
pub fn binop_requires_assert_before(binop: BinOp) -> (r: bool)
    ensures
        r == requires_assert_before(binop),
{
    match binop {
        BinOp::Div | BinOp::Rem => true,
        _ => false,
    }
}

/// Returns true iff the binary operation can fail.
pub fn binop_can_fail(binop: BinOp) -> (r: bool)
    ensures
        r == can_fail(binop),
{
    binop_requires_assert_after(binop) || binop_requires_assert_before(binop)
}

/// `full` is `place` extended by exactly one more projection element.
pub open spec fn place_extends(place: PlaceS, pelem: ProjectionElem, full: PlaceS) -> bool {
    full.var_id == place.var_id && full.projection == place.projection.push(pelem)
}

/// Returns true iff `place ++ [pelem] == full_place`.
pub fn check_places_similar_but_last_proj_elem(
    place: &Place,
    pelem: &ProjectionElem,
    full_place: &Place,
) -> (r: bool)
    ensures
        r == place_extends(place@, *pelem, full_place@),
{
    if place.var_id == full_place.var_id && full_place.projection.len() >= 1
        && place.projection.len() == full_place.projection.len() - 1 {
        let mut i: usize = 0;
        while i < place.projection.len()
            invariant
                i <= place.projection.len(),
                place.projection.len() + 1 == full_place.projection.len(),
                forall|j: int| 0 <= j < i ==> place.projection@[j] == full_place.projection@[j],
            decreases place.projection.len() - i,
        {
            if place.projection[i] != full_place.projection[i] {
                proof {
                    let ii = i as int;
                    assert(full_place@.projection[ii] != place@.projection.push(*pelem)[ii]);
                }
                return false;
            }
            i = i + 1;
        }
        let r = full_place.projection[place.projection.len()] == *pelem;
        proof {
            if r {
                assert(full_place@.projection =~= place@.projection.push(*pelem));
            } else {
                assert(full_place@.projection[place@.projection.len() as int] != place@
                    .projection.push(*pelem)[place@.projection.len() as int]);
            }
        }
        r
    } else {
        false
    }
}

/// The projection element selecting the overflow flag of a checked-operation
/// pair.
pub open spec fn pair_flag_elem() -> ProjectionElem {
    ProjectionElem::Field(FieldProjKind::Tuple(2), 1)
}

/// The projection element selecting the result of a checked-operation pair.
pub open spec fn pair_value_elem() -> ProjectionElem {
    ProjectionElem::Field(FieldProjKind::Tuple(2), 0)
}

/// The statement assigns a binary operation that requires a check after it.
pub open spec fn starts_checked_binop(s: StmtS) -> bool {
    match s {
        StmtS::Assign(_, RvalueS::BinaryOp(op, _, _)) => requires_assert_after(op),
        _ => false,
    }
}

/// The statement assigns a binary operation that requires a check before it.
pub open spec fn ends_guarded_binop(s: StmtS) -> bool {
    match s {
        StmtS::Assign(_, RvalueS::BinaryOp(op, _, _)) => requires_assert_before(op),
        _ => false,
    }
}

/// The statement assigns a fallible binary operation that still carries no
/// mark of its guard having been discharged.
pub open spec fn is_fallible_assign(s: StmtS) -> bool {
    match s {
        StmtS::Assign(_, RvalueS::BinaryOp(op, _, _)) => can_fail(op),
        _ => false,
    }
}

/// The operation assigned by the statement, where there is one.
pub open spec fn assigned_binop(s: StmtS) -> BinOp {
    match s {
        StmtS::Assign(_, RvalueS::BinaryOp(op, _, _)) => op,
        _ => BinOp::Add,
    }
}

/// The three statements form the exact operation-then-check idiom:
/// ```text
/// t := x + y;                  // or another checked operation
/// assert(move (t.1) == false);
/// dest := move (t.0);
/// ```
pub open spec fn is_binop_then_assert(s1: StmtS, s2: StmtS, s3: StmtS) -> bool {
    match (s1, s2, s3) {
        (
            StmtS::Assign(bp, RvalueS::BinaryOp(op, x, y)),
            StmtS::Assert(OperandS::Move(cond), expected),
            StmtS::Assign(mp, RvalueS::Use(OperandS::Move(mr))),
        ) => requires_assert_after(op) && !expected && place_extends(bp, pair_flag_elem(), cond)
            && place_extends(bp, pair_value_elem(), mr),
        _ => false,
    }
}

/// The collapsed form of a matched operation-then-check idiom: the checked
/// operation of the first statement assigned, implicitly fallible, to the
/// destination of the third.
pub open spec fn collapsed_binop_then_assert(s1: StmtS, s3: StmtS) -> StmtS {
    match (s1, s3) {
        (StmtS::Assign(bp, RvalueS::BinaryOp(op, x, y)), StmtS::Assign(mp, _)) => StmtS::Assign(
            mp,
            RvalueS::FallibleBinaryOp(op, x, y),
        ),
        _ => StmtS::Nop,
    }
}

/// The three statements form the exact check-then-operation idiom:
/// ```text
/// t := (copy divisor) == 0;
/// assert((move t) == false);
/// dest := a / move divisor;    // or a remainder
/// ```
pub open spec fn is_assert_then_binop(s1: StmtS, s2: StmtS, s3: StmtS) -> bool {
    match (s1, s2, s3) {
        (
            StmtS::Assign(
                eq_dest,
                RvalueS::BinaryOp(
                    BinOp::Eq,
                    OperandS::Copy(eq_op1),
                    OperandS::Constant(_, OperandConstantValue::ConstantValue(
                        ConstantValue::Scalar(sv),
                    )),
                ),
            ),
            StmtS::Assert(OperandS::Move(cond), expected),
            StmtS::Assign(mp, RvalueS::BinaryOp(op, dividend, OperandS::Move(divisor))),
        ) => requires_assert_before(op) && !expected && sv.value_spec() == 0 && eq_op1 == divisor
            && eq_dest == cond,
        _ => false,
    }
}

/// The collapsed form of a matched check-then-operation idiom: the operation
/// of the third statement, implicitly fallible, with the two check statements
/// dropped.
pub open spec fn collapsed_assert_then_binop(s3: StmtS) -> StmtS {
    match s3 {
        StmtS::Assign(mp, RvalueS::BinaryOp(op, dividend, divisor)) => StmtS::Assign(
            mp,
            RvalueS::FallibleBinaryOp(op, dividend, divisor),
        ),
        _ => StmtS::Nop,
    }
}

/// Builds a sequence node.
pub open spec fn seq_s(s1: StmtS, s2: StmtS) -> StmtS {
    StmtS::Sequence(Box::new(s1), Box::new(s2))
}

/// What the simplifier returns on a statement tree: the tree with every
/// guard idiom collapsed, or the first broken guard found.
///
/// A run of three statements is matched inside every `Sequence` chain; a
/// longer chain is scanned with a sliding window.  A fallible operation that
/// is not part of a matched idiom, and is not marked as already collapsed,
/// is an error.
pub open spec fn simplify_spec(st: StmtS) -> Result<StmtS, SimplifyError>
    decreases st,
{
    match st {
        StmtS::Sequence(b1, b2) => {
            let s1 = *b1;
            match *b2 {
                StmtS::Sequence(b2a, b2b) => {
                    let s2 = *b2a;
                    match *b2b {
                        StmtS::Sequence(b3, b4) => {
                            let s3 = *b3;
                            if is_binop_then_assert(s1, s2, s3) {
                                match simplify_spec(*b4) {
                                    Ok(r4) => Ok(seq_s(collapsed_binop_then_assert(s1, s3), r4)),
                                    Err(e) => Err(e),
                                }
                            } else if starts_checked_binop(s1) {
                                Err(SimplifyError::MalformedOperationCheck(assigned_binop(s1)))
                            } else if is_assert_then_binop(s1, s2, s3) {
                                match simplify_spec(*b4) {
                                    Ok(r4) => Ok(seq_s(collapsed_assert_then_binop(s3), r4)),
                                    Err(e) => Err(e),
                                }
                            } else if ends_guarded_binop(s3) {
                                Err(SimplifyError::MalformedCheckOperation(assigned_binop(s3)))
                            } else {
                                match (simplify_spec(s1), simplify_spec(*b2)) {
                                    (Ok(r1), Ok(r2)) => Ok(seq_s(r1, r2)),
                                    (Err(e), _) => Err(e),
                                    (_, Err(e)) => Err(e),
                                }
                            }
                        },
                        s3 => {
                            if is_binop_then_assert(s1, s2, s3) {
                                Ok(collapsed_binop_then_assert(s1, s3))
                            } else if starts_checked_binop(s1) {
                                Err(SimplifyError::MalformedOperationCheck(assigned_binop(s1)))
                            } else if is_assert_then_binop(s1, s2, s3) {
                                Ok(collapsed_assert_then_binop(s3))
                            } else if ends_guarded_binop(s3) {
                                Err(SimplifyError::MalformedCheckOperation(assigned_binop(s3)))
                            } else {
                                match (simplify_spec(s1), simplify_spec(*b2)) {
                                    (Ok(r1), Ok(r2)) => Ok(seq_s(r1, r2)),
                                    (Err(e), _) => Err(e),
                                    (_, Err(e)) => Err(e),
                                }
                            }
                        },
                    }
                },
                s2 => {
                    match (simplify_spec(s1), simplify_spec(s2)) {
                        (Ok(r1), Ok(r2)) => Ok(seq_s(r1, r2)),
                        (Err(e), _) => Err(e),
                        (_, Err(e)) => Err(e),
                    }
                },
            }
        },
        StmtS::Loop(b) => match simplify_spec(*b) {
            Ok(r) => Ok(StmtS::Loop(Box::new(r))),
            Err(e) => Err(e),
        },
        StmtS::Switch(sw) => match simplify_switch_spec(sw) {
            Ok(r) => Ok(StmtS::Switch(r)),
            Err(e) => Err(e),
        },
        other => if is_fallible_assign(other) {
            Err(SimplifyError::UnguardedBinOp(assigned_binop(other)))
        } else {
            Ok(other)
        },
    }
}

/// [`simplify_spec`] on every branch of a switch.
pub open spec fn simplify_switch_spec(sw: SwitchS) -> Result<SwitchS, SimplifyError>
    decreases sw,
{
    match sw {
        SwitchS::If(op, b1, b2) => match (simplify_spec(*b1), simplify_spec(*b2)) {
            (Ok(r1), Ok(r2)) => Ok(SwitchS::If(op, Box::new(r1), Box::new(r2))),
            (Err(e), _) => Err(e),
            (_, Err(e)) => Err(e),
        },
        SwitchS::SwitchInt(op, ty, arms, default) => match (
            simplify_int_arms_spec(arms),
            simplify_spec(*default),
        ) {
            (Ok(rs), Ok(rd)) => Ok(SwitchS::SwitchInt(op, ty, rs, Box::new(rd))),
            (Err(e), _) => Err(e),
            (_, Err(e)) => Err(e),
        },
        SwitchS::Match(p, arms, default) => match (
            simplify_match_arms_spec(arms),
            simplify_spec(*default),
        ) {
            (Ok(rs), Ok(rd)) => Ok(SwitchS::Match(p, rs, Box::new(rd))),
            (Err(e), _) => Err(e),
            (_, Err(e)) => Err(e),
        },
    }
}

/// [`simplify_spec`] on every arm of an integer switch.
pub open spec fn simplify_int_arms_spec(arms: Seq<(Seq<crate::expressions::ScalarValue>, StmtS)>)
    -> Result<Seq<(Seq<crate::expressions::ScalarValue>, StmtS)>, SimplifyError>
    decreases arms,
{
    if arms.len() == 0 {
        Ok(Seq::empty())
    } else {
        match (simplify_spec(arms[0].1), simplify_int_arms_spec(arms.skip(1))) {
            (Ok(r0), Ok(rest)) => Ok(seq![(arms[0].0, r0)] + rest),
            (Err(e), _) => Err(e),
            (_, Err(e)) => Err(e),
        }
    }
}

/// Checks whether the three statements match the operation-then-check idiom
/// exactly: the asserted place must be the checked pair's second component
/// and the moved result its first component.
pub fn check_if_simplifiable_binop_then_assert(
    exp1: &Statement,
    exp2: &Statement,
    exp3: &Statement,
) -> (r: bool)
    ensures
        r == is_binop_then_assert(exp1@, exp2@, exp3@),
{
    match (&exp1.content, &exp2.content, &exp3.content) {
        (
            RawStatement::Assign(bp, Rvalue::BinaryOp(binop, _op1, _op2)),
            RawStatement::Assert(a),
            RawStatement::Assign(_mp, Rvalue::Use(Operand::Move(mr))),
        ) => match &a.cond {
            Operand::Move(cond_op) => {
                if !binop_requires_assert_after(*binop) {
                    return false;
                }
                if a.expected {
                    return false;
                }
                let flag_elem = ProjectionElem::Field(FieldProjKind::Tuple(2), 1);
                let value_elem = ProjectionElem::Field(FieldProjKind::Tuple(2), 0);
                let check1 = check_places_similar_but_last_proj_elem(bp, &flag_elem, cond_op);
                let check2 = check_places_similar_but_last_proj_elem(bp, &value_elem, mr);
                check1 && check2
            },
            _ => false,
        },
        _ => false,
    }
}

/// Checks if this is a group of statements of the form "do an operation,
/// then check that it succeeded".  Returns `Ok(false)` where the first
/// statement is no checked operation, `Ok(true)` where the whole idiom is
/// present, and an error where a checked operation is not followed by its
/// exact check.
pub fn check_if_binop_then_assert(exp1: &Statement, exp2: &Statement, exp3: &Statement) -> (r:
    Result<bool, SimplifyError>)
    ensures
        (r matches Ok(b) && b) <==> is_binop_then_assert(exp1@, exp2@, exp3@),
        (r matches Ok(b) && !b) <==> !starts_checked_binop(exp1@),
        r matches Err(e) ==> e == SimplifyError::MalformedOperationCheck(assigned_binop(exp1@))
            && starts_checked_binop(exp1@) && !is_binop_then_assert(exp1@, exp2@, exp3@),
{
    match &exp1.content {
        RawStatement::Assign(_, Rvalue::BinaryOp(binop, _, _)) => {
            if binop_requires_assert_after(*binop) {
                if check_if_simplifiable_binop_then_assert(exp1, exp2, exp3) {
                    Ok(true)
                } else {
                    Err(SimplifyError::MalformedOperationCheck(*binop))
                }
            } else {
                Ok(false)
            }
        },
        _ => Ok(false),
    }
}

/// Collapses a matched operation-then-check idiom: the destination of the
/// third statement receives the operation of the first, marked implicitly
/// fallible; the explicit check disappears.
pub fn simplify_binop_then_assert(exp1: Statement, exp2: Statement, exp3: Statement) -> (r:
    Statement)
    requires
        is_binop_then_assert(exp1@, exp2@, exp3@),
    ensures
        r@ == collapsed_binop_then_assert(exp1@, exp3@),
{
    match (exp1.content, exp3.content) {
        (RawStatement::Assign(_, rv), RawStatement::Assign(mp, _)) => match rv {
            Rvalue::BinaryOp(op, x, y) => Statement {
                content: RawStatement::Assign(mp, Rvalue::FallibleBinaryOp(op, x, y)),
            },
            _ => {
                proof {
                    assert(false);
                }
                Statement { content: RawStatement::Nop }
            },
        },
        _ => {
            proof {
                assert(false);
            }
            Statement { content: RawStatement::Nop }
        },
    }
}

/// Checks whether the three statements match the check-then-operation idiom
/// exactly: the compared operand must be the divisor consumed by the
/// operation, and the asserted place the comparison's destination.
pub fn check_if_simplifiable_assert_then_binop(
    exp1: &Statement,
    exp2: &Statement,
    exp3: &Statement,
) -> (r: bool)
    ensures
        r == is_assert_then_binop(exp1@, exp2@, exp3@),
{
    match (&exp1.content, &exp2.content, &exp3.content) {
        (
            RawStatement::Assign(
                eq_dest,
                Rvalue::BinaryOp(
                    BinOp::Eq,
                    Operand::Copy(eq_op1),
                    Operand::Constant(
                        _,
                        OperandConstantValue::ConstantValue(ConstantValue::Scalar(sv)),
                    ),
                ),
            ),
            RawStatement::Assert(a),
            RawStatement::Assign(_mp, Rvalue::BinaryOp(binop, _dividend, Operand::Move(divisor))),
        ) => match &a.cond {
            Operand::Move(cond_op) => {
                if !binop_requires_assert_before(*binop) {
                    return false;
                }
                if a.expected {
                    return false;
                }
                let zero = if sv.is_int() {
                    match sv.as_int() {
                        Option::Some(v) => v == 0,
                        Option::None => false,
                    }
                } else {
                    match sv.as_uint() {
                        Option::Some(v) => v == 0,
                        Option::None => false,
                    }
                };
                if !zero {
                    return false;
                }
                let c1 = *eq_op1 == *divisor;
                let c2 = *eq_dest == *cond_op;
                c1 && c2
            },
            _ => false,
        },
        _ => false,
    }
}

/// Checks if this is a group of statements of the form "check that the
/// operation is allowed, then do it".  Returns `Ok(false)` where the third
/// statement is no division or remainder, `Ok(true)` where the whole idiom
/// is present, and an error where such an operation is not preceded by its
/// exact check.
pub fn check_if_assert_then_binop(exp1: &Statement, exp2: &Statement, exp3: &Statement) -> (r:
    Result<bool, SimplifyError>)
    ensures
        (r matches Ok(b) && b) <==> is_assert_then_binop(exp1@, exp2@, exp3@),
        (r matches Ok(b) && !b) <==> !ends_guarded_binop(exp3@),
        r matches Err(e) ==> e == SimplifyError::MalformedCheckOperation(assigned_binop(exp3@))
            && ends_guarded_binop(exp3@) && !is_assert_then_binop(exp1@, exp2@, exp3@),
{
    match &exp3.content {
        RawStatement::Assign(_, Rvalue::BinaryOp(binop, _, _)) => {
            if binop_requires_assert_before(*binop) {
                if check_if_simplifiable_assert_then_binop(exp1, exp2, exp3) {
                    Ok(true)
                } else {
                    Err(SimplifyError::MalformedCheckOperation(*binop))
                }
            } else {
                Ok(false)
            }
        },
        _ => Ok(false),
    }
}

/// Collapses a matched check-then-operation idiom: the two check statements
/// disappear and the operation is marked implicitly fallible.
pub fn simplify_assert_then_binop(exp1: Statement, exp2: Statement, exp3: Statement) -> (r:
    Statement)
    requires
        is_assert_then_binop(exp1@, exp2@, exp3@),
    ensures
        r@ == collapsed_assert_then_binop(exp3@),
{
    match exp3.content {
        RawStatement::Assign(mp, rv) => match rv {
            Rvalue::BinaryOp(op, dividend, divisor) => Statement {
                content: RawStatement::Assign(mp, Rvalue::FallibleBinaryOp(op, dividend, divisor)),
            },
            _ => {
                proof {
                    assert(false);
                }
                Statement { content: RawStatement::Nop }
            },
        },
        _ => {
            proof {
                assert(false);
            }
            Statement { content: RawStatement::Nop }
        },
    }
}

/// Returns true iff the statement is an assignment of a binary operation
/// which can fail and is not marked as already collapsed.
pub fn statement_is_faillible_binop(st: &Statement) -> (r: bool)
    ensures
        r == is_fallible_assign(st@),
{
    match &st.content {
        RawStatement::Assign(_, Rvalue::BinaryOp(binop, _, _)) => binop_can_fail(*binop),
        _ => false,
    }
}

/// [`simplify_spec`] on every arm of a match.
pub open spec fn simplify_match_arms_spec(arms: Seq<(Seq<crate::expressions::VariantId>, StmtS)>)
    -> Result<Seq<(Seq<crate::expressions::VariantId>, StmtS)>, SimplifyError>
    decreases arms,
{
    if arms.len() == 0 {
        Ok(Seq::empty())
    } else {
        match (simplify_spec(arms[0].1), simplify_match_arms_spec(arms.skip(1))) {
            (Ok(r0), Ok(rest)) => Ok(seq![(arms[0].0, r0)] + rest),
            (Err(e), _) => Err(e),
            (_, Err(e)) => Err(e),
        }
    }
}

/// Simplifies a statement tree: every guard idiom is collapsed to a single
/// implicitly-fallible operation, and a fallible operation outside the idiom
/// is reported as an error.
///
/// The result is exactly [`simplify_spec`] of the input's view.
pub fn simplify_exp(st: Statement) -> (r: Result<Statement, SimplifyError>)
    ensures
        r matches Ok(out) ==> simplify_spec(st@) == Ok::<StmtS, SimplifyError>(out@),
        r matches Err(e) ==> simplify_spec(st@) == Err::<StmtS, SimplifyError>(e),
    decreases stmt_size(st@),
{
    let ghost st0 = st@;
    match st.content {
        RawStatement::Sequence(b1, b2) => {
            let s1: Statement = *b1;
            let st2: Statement = *b2;
            match st2.content {
                RawStatement::Sequence(b2a, b2b) => {
                    let s2: Statement = *b2a;
                    let st3: Statement = *b2b;
                    match st3.content {
                        RawStatement::Sequence(b3, b4) => {
                            let s3: Statement = *b3;
                            let s4: Statement = *b4;
                            proof {
                                assert(st0 == seq_s(s1@, seq_s(s2@, seq_s(s3@, s4@))));
                                assert(stmt_size(seq_s(s3@, s4@)) == 1 + stmt_size(s3@)
                                    + stmt_size(s4@));
                                assert(stmt_size(seq_s(s2@, seq_s(s3@, s4@))) == 1 + stmt_size(
                                    s2@,
                                ) + stmt_size(seq_s(s3@, s4@)));
                                assert(stmt_size(st0) == 1 + stmt_size(s1@) + stmt_size(
                                    seq_s(s2@, seq_s(s3@, s4@)),
                                ));
                            }
                            match check_if_binop_then_assert(&s1, &s2, &s3) {
                                Err(e) => Err(e),
                                Ok(true) => {
                                    let collapsed = simplify_binop_then_assert(s1, s2, s3);
                                    match simplify_exp(s4) {
                                        Ok(r4) => Ok(
                                            Statement {
                                                content: RawStatement::Sequence(
                                                    Box::new(collapsed),
                                                    Box::new(r4),
                                                ),
                                            },
                                        ),
                                        Err(e) => Err(e),
                                    }
                                },
                                Ok(false) => {
                                    match check_if_assert_then_binop(&s1, &s2, &s3) {
                                        Err(e) => Err(e),
                                        Ok(true) => {
                                            let collapsed = simplify_assert_then_binop(s1, s2, s3);
                                            match simplify_exp(s4) {
                                                Ok(r4) => Ok(
                                                    Statement {
                                                        content: RawStatement::Sequence(
                                                            Box::new(collapsed),
                                                            Box::new(r4),
                                                        ),
                                                    },
                                                ),
                                                Err(e) => Err(e),
                                            }
                                        },
                                        Ok(false) => {
                                            let tail = Statement {
                                                content: RawStatement::Sequence(
                                                    Box::new(s2),
                                                    Box::new(
                                                        Statement {
                                                            content: RawStatement::Sequence(
                                                                Box::new(s3),
                                                                Box::new(s4),
                                                            ),
                                                        },
                                                    ),
                                                ),
                                            };
                                            match simplify_exp(s1) {
                                                Err(e) => Err(e),
                                                Ok(r1) => match simplify_exp(tail) {
                                                    Err(e) => Err(e),
                                                    Ok(r2) => Ok(
                                                        Statement {
                                                            content: RawStatement::Sequence(
                                                                Box::new(r1),
                                                                Box::new(r2),
                                                            ),
                                                        },
                                                    ),
                                                },
                                            }
                                        },
                                    }
                                },
                            }
                        },
                        other3 => {
                            let s3 = Statement { content: other3 };
                            match check_if_binop_then_assert(&s1, &s2, &s3) {
                                Err(e) => Err(e),
                                Ok(true) => Ok(simplify_binop_then_assert(s1, s2, s3)),
                                Ok(false) => {
                                    match check_if_assert_then_binop(&s1, &s2, &s3) {
                                        Err(e) => Err(e),
                                        Ok(true) => Ok(simplify_assert_then_binop(s1, s2, s3)),
                                        Ok(false) => {
                                            let tail = Statement {
                                                content: RawStatement::Sequence(
                                                    Box::new(s2),
                                                    Box::new(s3),
                                                ),
                                            };
                                            match simplify_exp(s1) {
                                                Err(e) => Err(e),
                                                Ok(r1) => match simplify_exp(tail) {
                                                    Err(e) => Err(e),
                                                    Ok(r2) => Ok(
                                                        Statement {
                                                            content: RawStatement::Sequence(
                                                                Box::new(r1),
                                                                Box::new(r2),
                                                            ),
                                                        },
                                                    ),
                                                },
                                            }
                                        },
                                    }
                                },
                            }
                        },
                    }
                },
                other2 => {
                    let s2 = Statement { content: other2 };
                    match simplify_exp(s1) {
                        Err(e) => Err(e),
                        Ok(r1) => match simplify_exp(s2) {
                            Err(e) => Err(e),
                            Ok(r2) => Ok(
                                Statement {
                                    content: RawStatement::Sequence(Box::new(r1), Box::new(r2)),
                                },
                            ),
                        },
                    }
                },
            }
        },
        RawStatement::Loop(b) => {
            let body: Statement = *b;
            match simplify_exp(body) {
                Err(e) => Err(e),
                Ok(r) => Ok(Statement { content: RawStatement::Loop(Box::new(r)) }),
            }
        },
        RawStatement::Switch(sw) => {
            match simplify_switch(sw) {
                Err(e) => Err(e),
                Ok(r) => Ok(Statement { content: RawStatement::Switch(r) }),
            }
        },
        other => {
            let s = Statement { content: other };
            if statement_is_faillible_binop(&s) {
                let op = match &s.content {
                    RawStatement::Assign(_, Rvalue::BinaryOp(binop, _, _)) => *binop,
                    _ => BinOp::Add,
                };
                Err(SimplifyError::UnguardedBinOp(op))
            } else {
                Ok(s)
            }
        },
    }
}

/// [`simplify_exp`] on every branch of a switch.
fn simplify_switch(sw: Switch) -> (r: Result<Switch, SimplifyError>)
    ensures
        r matches Ok(out) ==> simplify_switch_spec(sw@) == Ok::<SwitchS, SimplifyError>(out@),
        r matches Err(e) ==> simplify_switch_spec(sw@) == Err::<SwitchS, SimplifyError>(e),
    decreases switch_size(sw@),
{
    match sw {
        Switch::If(op, b1, b2) => {
            let s1: Statement = *b1;
            let s2: Statement = *b2;
            match simplify_exp(s1) {
                Err(e) => Err(e),
                Ok(r1) => match simplify_exp(s2) {
                    Err(e) => Err(e),
                    Ok(r2) => Ok(Switch::If(op, Box::new(r1), Box::new(r2))),
                },
            }
        },
        Switch::SwitchInt(op, ty, arms, default) => {
            let d: Statement = *default;
            match simplify_int_arms(arms) {
                Err(e) => Err(e),
                Ok(rs) => match simplify_exp(d) {
                    Err(e) => Err(e),
                    Ok(rd) => Ok(Switch::SwitchInt(op, ty, rs, Box::new(rd))),
                },
            }
        },
        Switch::Match(p, arms, default) => {
            let d: Statement = *default;
            match simplify_match_arms(arms) {
                Err(e) => Err(e),
                Ok(rs) => match simplify_exp(d) {
                    Err(e) => Err(e),
                    Ok(rd) => Ok(Switch::Match(p, rs, Box::new(rd))),
                },
            }
        },
    }
}

/// [`simplify_exp`] on every arm of an integer switch.
fn simplify_int_arms(arms: Vec<(Vec<crate::expressions::ScalarValue>, Statement)>) -> (r: Result<
    Vec<(Vec<crate::expressions::ScalarValue>, Statement)>,
    SimplifyError,
>)
    ensures
        r matches Ok(out) ==> simplify_int_arms_spec(int_arms_view(arms@)) == Ok::<
            Seq<(Seq<crate::expressions::ScalarValue>, StmtS)>,
            SimplifyError,
        >(int_arms_view(out@)),
        r matches Err(e) ==> simplify_int_arms_spec(int_arms_view(arms@)) == Err::<
            Seq<(Seq<crate::expressions::ScalarValue>, StmtS)>,
            SimplifyError,
        >(e),
    decreases int_arms_size(int_arms_view(arms@)),
{
    let ghost orig = arms@;
    let mut arms = arms;
    if arms.len() == 0 {
        proof {
            assert(int_arms_view(orig) =~= Seq::<(Seq<crate::expressions::ScalarValue>,
                StmtS)>::empty());
        }
        Ok(arms)
    } else {
        let (vs, s) = arms.remove(0);
        let ghost vsv = vs@;
        let ghost sv = s@;
        let ghost tail = arms@;
        proof {
            assert(orig.skip(1) =~= tail);
            assert(int_arms_view(orig) == seq![(vsv, sv)] + int_arms_view(tail));
            assert(int_arms_view(orig)[0] == (vsv, sv));
            assert((seq![(vsv, sv)] + int_arms_view(tail)).skip(1) =~= int_arms_view(tail));
        }
        match simplify_exp(s) {
            Err(e) => Err(e),
            Ok(r0) => match simplify_int_arms(arms) {
                Err(e) => Err(e),
                Ok(mut rest) => {
                    let ghost restv = rest@;
                    rest.insert(0, (vs, r0));
                    proof {
                        assert(rest@.skip(1) =~= restv);
                        assert(rest@[0] == (vs, r0));
                        assert(int_arms_view(rest@) == seq![(vsv, r0@)] + int_arms_view(restv));
                        assert(seq![(vsv, r0@)] + int_arms_view(restv)
                            =~= Seq::<(Seq<crate::expressions::ScalarValue>, StmtS)>::empty().push(
                            (vsv, r0@),
                        ) + int_arms_view(restv));
                        assert(seq![(vsv, r0@)] =~= seq![(int_arms_view(orig)[0].0, r0@)]);
                    }
                    Ok(rest)
                },
            },
        }
    }
}

/// [`simplify_exp`] on every arm of an match.
fn simplify_match_arms(arms: Vec<(Vec<crate::expressions::VariantId>, Statement)>) -> (r: Result<
    Vec<(Vec<crate::expressions::VariantId>, Statement)>,
    SimplifyError,
>)
    ensures
        r matches Ok(out) ==> simplify_match_arms_spec(match_arms_view(arms@)) == Ok::<
            Seq<(Seq<crate::expressions::VariantId>, StmtS)>,
            SimplifyError,
        >(match_arms_view(out@)),
        r matches Err(e) ==> simplify_match_arms_spec(match_arms_view(arms@)) == Err::<
            Seq<(Seq<crate::expressions::VariantId>, StmtS)>,
            SimplifyError,
        >(e),
    decreases match_arms_size(match_arms_view(arms@)),
{
    let ghost orig = arms@;
    let mut arms = arms;
    if arms.len() == 0 {
        proof {
            assert(match_arms_view(orig) =~= Seq::<(Seq<crate::expressions::VariantId>,
                StmtS)>::empty());
        }
        Ok(arms)
    } else {
        let (vs, s) = arms.remove(0);
        let ghost vsv = vs@;
        let ghost sv = s@;
        let ghost tail = arms@;
        proof {
            assert(orig.skip(1) =~= tail);
            assert(match_arms_view(orig) == seq![(vsv, sv)] + match_arms_view(tail));
            assert(match_arms_view(orig)[0] == (vsv, sv));
            assert((seq![(vsv, sv)] + match_arms_view(tail)).skip(1) =~= match_arms_view(tail));
        }
        match simplify_exp(s) {
            Err(e) => Err(e),
            Ok(r0) => match simplify_match_arms(arms) {
                Err(e) => Err(e),
                Ok(mut rest) => {
                    let ghost restv = rest@;
                    rest.insert(0, (vs, r0));
                    proof {
                        assert(rest@.skip(1) =~= restv);
                        assert(rest@[0] == (vs, r0));
                        assert(match_arms_view(rest@) == seq![(vsv, r0@)] + match_arms_view(restv));
                        assert(seq![(vsv, r0@)] + match_arms_view(restv)
                            =~= Seq::<(Seq<crate::expressions::VariantId>, StmtS)>::empty().push(
                            (vsv, r0@),
                        ) + match_arms_view(restv));
                        assert(seq![(vsv, r0@)] =~= seq![(match_arms_view(orig)[0].0, r0@)]);
                    }
                    Ok(rest)
                },
            },
        }
    }
}
/// The result a simplified declaration owes to the one it came from: same
/// identifier, and a body that is exactly what [`simplify_spec`] gives; or
/// the error that [`simplify_spec`] gives.
pub open spec fn def_simplified(orig: FunDecl, r: Result<FunDecl, SimplifyError>) -> bool {
    match r {
        Ok(d) => d.def_id == orig.def_id && simplify_spec(orig.body@) == Ok::<
            StmtS,
            SimplifyError,
        >(d.body@),
        Err(e) => simplify_spec(orig.body@) == Err::<StmtS, SimplifyError>(e),
    }
}

/// Simplifies the body of one function declaration.
pub fn simplify_def(def: FunDecl) -> (r: Result<FunDecl, SimplifyError>)
    ensures
        def_simplified(def, r),
{
    let FunDecl { def_id, body } = def;
    match simplify_exp(body) {
        Ok(b) => Ok(FunDecl { def_id, body: b }),
        Err(e) => Err(e),
    }
}

/// Simplifies every function declaration, best-effort: one declaration's
/// failure is reported in its slot and does not disturb the others.
pub fn simplify(defs: Vec<FunDecl>) -> (r: Vec<Result<FunDecl, SimplifyError>>)
    ensures
        r@.len() == defs@.len(),
        forall|i: int| 0 <= i < defs@.len() ==> def_simplified(defs@[i], #[trigger] r@[i]),
{
    let ghost orig = defs@;
    let mut defs = defs;
    let mut out: Vec<Result<FunDecl, SimplifyError>> = Vec::new();
    while defs.len() > 0
        invariant
            out@.len() + defs@.len() == orig.len(),
            defs@ =~= orig.skip(out@.len() as int),
            forall|i: int| 0 <= i < out@.len() ==> def_simplified(orig[i], #[trigger] out@[i]),
        decreases defs.len(),
    {
        let d = defs.remove(0);
        proof {
            assert(d == orig[out@.len() as int]);
        }
        let res = simplify_def(d);
        out.push(res);
        proof {
            assert(defs@ =~= orig.skip(out@.len() as int));
        }
    }
    out
}

/// No unmarked fallible operation remains anywhere in the tree.
pub open spec fn fully_simplified(st: StmtS) -> bool
    decreases st,
{
    match st {
        StmtS::Sequence(a, b) => fully_simplified(*a) && fully_simplified(*b),
        StmtS::Loop(b) => fully_simplified(*b),
        StmtS::Switch(sw) => switch_fully_simplified(sw),
        other => !is_fallible_assign(other),
    }
}

/// [`fully_simplified`] on every branch of a switch.
pub open spec fn switch_fully_simplified(sw: SwitchS) -> bool
    decreases sw,
{
    match sw {
        SwitchS::If(_, a, b) => fully_simplified(*a) && fully_simplified(*b),
        SwitchS::SwitchInt(_, _, arms, default) => fully_simplified(*default) && (forall|i: int|
            0 <= i < arms.len() ==> fully_simplified(#[trigger] arms[i].1)),
        SwitchS::Match(_, arms, default) => fully_simplified(*default) && (forall|i: int|
            0 <= i < arms.len() ==> fully_simplified(#[trigger] arms[i].1)),
    }
}

/// What a successful run of the simplifier establishes, by induction over
/// the tree: the output is fully simplified, canonical sequence form is
/// preserved, the break/continue bound is preserved, and a non-sequence
/// statement stays a non-sequence.
proof fn lemma_simplify_spec_props(st: StmtS, depth: int)
    ensures
        simplify_spec(st) matches Ok(r) ==> {
            &&& fully_simplified(r)
            &&& (crate::llbc_ast::seq_canonical(st) ==> crate::llbc_ast::seq_canonical(r))
            &&& (crate::llbc_ast::breaks_bounded(st, depth)
                ==> crate::llbc_ast::breaks_bounded(r, depth))
            &&& (!(st is Sequence) ==> !(r is Sequence))
        },
    decreases stmt_size(st),
{
    match st {
        StmtS::Sequence(b1, b2) => {
            let s1 = *b1;
            match *b2 {
                StmtS::Sequence(b2a, b2b) => {
                    let s2 = *b2a;
                    match *b2b {
                        StmtS::Sequence(b3, b4) => {
                            let s3 = *b3;
                            let s4 = *b4;
                            assert(stmt_size(seq_s(s3, s4)) == 1 + stmt_size(s3) + stmt_size(s4));
                            assert(stmt_size(seq_s(s2, seq_s(s3, s4))) == 1 + stmt_size(s2)
                                + stmt_size(seq_s(s3, s4)));
                            assert(stmt_size(st) == 1 + stmt_size(s1) + stmt_size(
                                seq_s(s2, seq_s(s3, s4)),
                            ));
                            lemma_simplify_spec_props(s4, depth);
                            lemma_simplify_spec_props(s1, depth);
                            lemma_simplify_spec_props(*b2, depth);
                            if crate::llbc_ast::seq_canonical(st) {
                                assert(crate::llbc_ast::seq_canonical(*b2));
                                assert(crate::llbc_ast::seq_canonical(*b2b));
                                assert(crate::llbc_ast::seq_canonical(s4));
                            }
                            if crate::llbc_ast::breaks_bounded(st, depth) {
                                assert(crate::llbc_ast::breaks_bounded(*b2, depth));
                                assert(crate::llbc_ast::breaks_bounded(*b2b, depth));
                                assert(crate::llbc_ast::breaks_bounded(s4, depth));
                            }
                            if is_binop_then_assert(s1, s2, s3) {
                                match simplify_spec(s4) {
                                    Ok(r4) => {
                                        let c = collapsed_binop_then_assert(s1, s3);
                                        assert(simplify_spec(st) == Ok::<StmtS, SimplifyError>(
                                            seq_s(c, r4),
                                        ));
                                        assert(!(c is Sequence));
                                        assert(!is_fallible_assign(c));
                                        assert(fully_simplified(c));
                                        assert(fully_simplified(r4));
                                        assert(fully_simplified(seq_s(c, r4)));
                                        if crate::llbc_ast::seq_canonical(st) {
                                            assert(crate::llbc_ast::seq_canonical(c));
                                            assert(crate::llbc_ast::seq_canonical(r4));
                                            assert(crate::llbc_ast::seq_canonical(seq_s(c, r4)));
                                        }
                                        if crate::llbc_ast::breaks_bounded(st, depth) {
                                            assert(crate::llbc_ast::breaks_bounded(c, depth));
                                            assert(crate::llbc_ast::breaks_bounded(r4, depth));
                                            assert(crate::llbc_ast::breaks_bounded(
                                                seq_s(c, r4),
                                                depth,
                                            ));
                                        }
                                    },
                                    Err(_) => {},
                                }
                            } else if starts_checked_binop(s1) {
                            } else if is_assert_then_binop(s1, s2, s3) {
                                match simplify_spec(s4) {
                                    Ok(r4) => {
                                        let c = collapsed_assert_then_binop(s3);
                                        assert(simplify_spec(st) == Ok::<StmtS, SimplifyError>(
                                            seq_s(c, r4),
                                        ));
                                        assert(!(c is Sequence));
                                        assert(!is_fallible_assign(c));
                                        assert(fully_simplified(c));
                                        assert(fully_simplified(r4));
                                        assert(fully_simplified(seq_s(c, r4)));
                                        if crate::llbc_ast::seq_canonical(st) {
                                            assert(crate::llbc_ast::seq_canonical(c));
                                            assert(crate::llbc_ast::seq_canonical(r4));
                                            assert(crate::llbc_ast::seq_canonical(seq_s(c, r4)));
                                        }
                                        if crate::llbc_ast::breaks_bounded(st, depth) {
                                            assert(crate::llbc_ast::breaks_bounded(c, depth));
                                            assert(crate::llbc_ast::breaks_bounded(r4, depth));
                                            assert(crate::llbc_ast::breaks_bounded(
                                                seq_s(c, r4),
                                                depth,
                                            ));
                                        }
                                    },
                                    Err(_) => {},
                                }
                            } else if ends_guarded_binop(s3) {
                            } else {
                                lemma_simplify_seq_pair(st, s1, *b2, depth);
                            }
                        },
                        s3 => {
                            lemma_simplify_spec_props(s1, depth);
                            lemma_simplify_spec_props(*b2, depth);
                            if is_binop_then_assert(s1, s2, s3) {
                                let c = collapsed_binop_then_assert(s1, s3);
                                assert(simplify_spec(st) == Ok::<StmtS, SimplifyError>(c));
                                assert(!(c is Sequence));
                                assert(!is_fallible_assign(c));
                                assert(fully_simplified(c));
                            } else if starts_checked_binop(s1) {
                            } else if is_assert_then_binop(s1, s2, s3) {
                                let c = collapsed_assert_then_binop(s3);
                                assert(simplify_spec(st) == Ok::<StmtS, SimplifyError>(c));
                                assert(!(c is Sequence));
                                assert(!is_fallible_assign(c));
                                assert(fully_simplified(c));
                            } else if ends_guarded_binop(s3) {
                            } else {
                                lemma_simplify_seq_pair(st, s1, *b2, depth);
                            }
                        },
                    }
                },
                _ => {
                    lemma_simplify_spec_props(s1, depth);
                    lemma_simplify_spec_props(*b2, depth);
                    lemma_simplify_seq_pair(st, s1, *b2, depth);
                },
            }
        },
        StmtS::Loop(b) => {
            lemma_simplify_spec_props(*b, depth + 1);
            match simplify_spec(*b) {
                Ok(rb) => {
                    assert(simplify_spec(st) == Ok::<StmtS, SimplifyError>(
                        StmtS::Loop(Box::new(rb)),
                    ));
                    assert(fully_simplified(StmtS::Loop(Box::new(rb))));
                    if crate::llbc_ast::seq_canonical(st) {
                        assert(crate::llbc_ast::seq_canonical(StmtS::Loop(Box::new(rb))));
                    }
                    if crate::llbc_ast::breaks_bounded(st, depth) {
                        assert(crate::llbc_ast::breaks_bounded(StmtS::Loop(Box::new(rb)), depth));
                    }
                },
                Err(_) => {},
            }
        },
        StmtS::Switch(sw) => {
            lemma_simplify_switch_props(sw, depth);
            match simplify_switch_spec(sw) {
                Ok(rsw) => {
                    assert(simplify_spec(st) == Ok::<StmtS, SimplifyError>(StmtS::Switch(rsw)));
                    assert(fully_simplified(StmtS::Switch(rsw)));
                    if crate::llbc_ast::seq_canonical(st) {
                        assert(crate::llbc_ast::seq_canonical(StmtS::Switch(rsw)));
                    }
                    if crate::llbc_ast::breaks_bounded(st, depth) {
                        assert(crate::llbc_ast::breaks_bounded(StmtS::Switch(rsw), depth));
                    }
                },
                Err(_) => {},
            }
        },
        _ => {},
    }
}

/// The properties of [`lemma_simplify_spec_props`] for a sequence whose
/// window did not match, given that they hold of both components.
proof fn lemma_simplify_seq_pair(st: StmtS, s1: StmtS, s2: StmtS, depth: int)
    requires
        st == seq_s(s1, s2),
        simplify_spec(s1) matches Ok(r1) ==> {
            &&& fully_simplified(r1)
            &&& (crate::llbc_ast::seq_canonical(s1) ==> crate::llbc_ast::seq_canonical(r1))
            &&& (crate::llbc_ast::breaks_bounded(s1, depth)
                ==> crate::llbc_ast::breaks_bounded(r1, depth))
            &&& (!(s1 is Sequence) ==> !(r1 is Sequence))
        },
        simplify_spec(s2) matches Ok(r2) ==> {
            &&& fully_simplified(r2)
            &&& (crate::llbc_ast::seq_canonical(s2) ==> crate::llbc_ast::seq_canonical(r2))
            &&& (crate::llbc_ast::breaks_bounded(s2, depth)
                ==> crate::llbc_ast::breaks_bounded(r2, depth))
        },
    ensures
        match (simplify_spec(s1), simplify_spec(s2)) {
            (Ok(r1), Ok(r2)) => {
                &&& fully_simplified(seq_s(r1, r2))
                &&& (crate::llbc_ast::seq_canonical(st) ==> crate::llbc_ast::seq_canonical(
                    seq_s(r1, r2),
                ))
                &&& (crate::llbc_ast::breaks_bounded(st, depth)
                    ==> crate::llbc_ast::breaks_bounded(seq_s(r1, r2), depth))
            },
            _ => true,
        },
{
    match simplify_spec(s1) {
        Ok(r1) => match simplify_spec(s2) {
            Ok(r2) => {
                assert(fully_simplified(seq_s(r1, r2)));
                if crate::llbc_ast::seq_canonical(st) {
                    assert(crate::llbc_ast::seq_canonical(s1));
                    assert(crate::llbc_ast::seq_canonical(s2));
                    assert(!(s1 is Sequence));
                    assert(crate::llbc_ast::seq_canonical(seq_s(r1, r2)));
                }
                if crate::llbc_ast::breaks_bounded(st, depth) {
                    assert(crate::llbc_ast::breaks_bounded(s1, depth));
                    assert(crate::llbc_ast::breaks_bounded(s2, depth));
                    assert(crate::llbc_ast::breaks_bounded(seq_s(r1, r2), depth));
                }
            },
            Err(_) => {},
        },
        Err(_) => {},
    }
}

/// [`lemma_simplify_spec_props`], for the branches of a switch.
proof fn lemma_simplify_switch_props(sw: SwitchS, depth: int)
    ensures
        simplify_switch_spec(sw) matches Ok(r) ==> {
            &&& switch_fully_simplified(r)
            &&& (crate::llbc_ast::switch_canonical(sw) ==> crate::llbc_ast::switch_canonical(r))
            &&& (crate::llbc_ast::switch_breaks_bounded(sw, depth)
                ==> crate::llbc_ast::switch_breaks_bounded(r, depth))
        },
    decreases switch_size(sw),
{
    match sw {
        SwitchS::If(_, a, b) => {
            lemma_simplify_spec_props(*a, depth);
            lemma_simplify_spec_props(*b, depth);
        },
        SwitchS::SwitchInt(_, _, arms, default) => {
            lemma_simplify_int_arms_props(arms, depth);
            lemma_simplify_spec_props(*default, depth);
        },
        SwitchS::Match(_, arms, default) => {
            lemma_simplify_match_arms_props(arms, depth);
            lemma_simplify_spec_props(*default, depth);
        },
    }
}

/// [`lemma_simplify_spec_props`], for the arms of an integer switch.
proof fn lemma_simplify_int_arms_props(
    arms: Seq<(Seq<crate::expressions::ScalarValue>, StmtS)>,
    depth: int,
)
    ensures
        simplify_int_arms_spec(arms) matches Ok(rs) ==> {
            &&& rs.len() == arms.len()
            &&& (forall|i: int| 0 <= i < rs.len() ==> fully_simplified(#[trigger] rs[i].1))
            &&& ((forall|i: int|
                0 <= i < arms.len() ==> crate::llbc_ast::seq_canonical(#[trigger] arms[i].1))
                ==> (forall|i: int|
                0 <= i < rs.len() ==> crate::llbc_ast::seq_canonical(#[trigger] rs[i].1)))
            &&& ((forall|i: int|
                0 <= i < arms.len() ==> crate::llbc_ast::breaks_bounded(
                    #[trigger] arms[i].1,
                    depth,
                )) ==> (forall|i: int|
                0 <= i < rs.len() ==> crate::llbc_ast::breaks_bounded(#[trigger] rs[i].1, depth)))
        },
    decreases int_arms_size(arms),
{
    if arms.len() == 0 {
    } else {
        lemma_simplify_spec_props(arms[0].1, depth);
        lemma_simplify_int_arms_props(arms.skip(1), depth);
        match simplify_spec(arms[0].1) {
            Err(_) => {},
            Ok(r0) => match simplify_int_arms_spec(arms.skip(1)) {
                Err(_) => {},
                Ok(rest) => {
                let rs = seq![(arms[0].0, r0)] + rest;
                assert forall|i: int| 0 <= i < rs.len() implies fully_simplified(
                    #[trigger] rs[i].1,
                ) by {
                    if i > 0 {
                        assert(rs[i] == rest[i - 1]);
                    }
                }
                if forall|i: int|
                    0 <= i < arms.len() ==> crate::llbc_ast::seq_canonical(#[trigger] arms[i].1) {
                    assert forall|i: int|
                        0 <= i < arms.skip(1).len() implies crate::llbc_ast::seq_canonical(
                        #[trigger] arms.skip(1)[i].1,
                    ) by {
                        assert(arms.skip(1)[i] == arms[i + 1]);
                    }
                    assert forall|i: int| 0 <= i < rs.len() implies crate::llbc_ast::seq_canonical(
                        #[trigger] rs[i].1,
                    ) by {
                        if i > 0 {
                            assert(rs[i] == rest[i - 1]);
                        }
                    }
                }
                if forall|i: int|
                    0 <= i < arms.len() ==> crate::llbc_ast::breaks_bounded(
                        #[trigger] arms[i].1,
                        depth,
                    ) {
                    assert forall|i: int|
                        0 <= i < arms.skip(1).len() implies crate::llbc_ast::breaks_bounded(
                        #[trigger] arms.skip(1)[i].1,
                        depth,
                    ) by {
                        assert(arms.skip(1)[i] == arms[i + 1]);
                    }
                    assert forall|i: int|
                        0 <= i < rs.len() implies crate::llbc_ast::breaks_bounded(
                        #[trigger] rs[i].1,
                        depth,
                    ) by {
                        if i > 0 {
                            assert(rs[i] == rest[i - 1]);
                        }
                    }
                }
                },
            },
        }
    }
}

/// [`lemma_simplify_spec_props`], for the arms of a match.
proof fn lemma_simplify_match_arms_props(
    arms: Seq<(Seq<crate::expressions::VariantId>, StmtS)>,
    depth: int,
)
    ensures
        simplify_match_arms_spec(arms) matches Ok(rs) ==> {
            &&& rs.len() == arms.len()
            &&& (forall|i: int| 0 <= i < rs.len() ==> fully_simplified(#[trigger] rs[i].1))
            &&& ((forall|i: int|
                0 <= i < arms.len() ==> crate::llbc_ast::seq_canonical(#[trigger] arms[i].1))
                ==> (forall|i: int|
                0 <= i < rs.len() ==> crate::llbc_ast::seq_canonical(#[trigger] rs[i].1)))
            &&& ((forall|i: int|
                0 <= i < arms.len() ==> crate::llbc_ast::breaks_bounded(
                    #[trigger] arms[i].1,
                    depth,
                )) ==> (forall|i: int|
                0 <= i < rs.len() ==> crate::llbc_ast::breaks_bounded(#[trigger] rs[i].1, depth)))
        },
    decreases match_arms_size(arms),
{
    if arms.len() == 0 {
    } else {
        lemma_simplify_spec_props(arms[0].1, depth);
        lemma_simplify_match_arms_props(arms.skip(1), depth);
        match simplify_spec(arms[0].1) {
            Err(_) => {},
            Ok(r0) => match simplify_match_arms_spec(arms.skip(1)) {
                Err(_) => {},
                Ok(rest) => {
                let rs = seq![(arms[0].0, r0)] + rest;
                assert forall|i: int| 0 <= i < rs.len() implies fully_simplified(
                    #[trigger] rs[i].1,
                ) by {
                    if i > 0 {
                        assert(rs[i] == rest[i - 1]);
                    }
                }
                if forall|i: int|
                    0 <= i < arms.len() ==> crate::llbc_ast::seq_canonical(#[trigger] arms[i].1) {
                    assert forall|i: int|
                        0 <= i < arms.skip(1).len() implies crate::llbc_ast::seq_canonical(
                        #[trigger] arms.skip(1)[i].1,
                    ) by {
                        assert(arms.skip(1)[i] == arms[i + 1]);
                    }
                    assert forall|i: int| 0 <= i < rs.len() implies crate::llbc_ast::seq_canonical(
                        #[trigger] rs[i].1,
                    ) by {
                        if i > 0 {
                            assert(rs[i] == rest[i - 1]);
                        }
                    }
                }
                if forall|i: int|
                    0 <= i < arms.len() ==> crate::llbc_ast::breaks_bounded(
                        #[trigger] arms[i].1,
                        depth,
                    ) {
                    assert forall|i: int|
                        0 <= i < arms.skip(1).len() implies crate::llbc_ast::breaks_bounded(
                        #[trigger] arms.skip(1)[i].1,
                        depth,
                    ) by {
                        assert(arms.skip(1)[i] == arms[i + 1]);
                    }
                    assert forall|i: int|
                        0 <= i < rs.len() implies crate::llbc_ast::breaks_bounded(
                        #[trigger] rs[i].1,
                        depth,
                    ) by {
                        if i > 0 {
                            assert(rs[i] == rest[i - 1]);
                        }
                    }
                }
                },
            },
        }
    }
}

/// On a fully simplified tree the simplifier is the identity.
proof fn lemma_fully_simplified_fixpoint(st: StmtS)
    requires
        fully_simplified(st),
    ensures
        simplify_spec(st) == Ok::<StmtS, SimplifyError>(st),
    decreases stmt_size(st),
{
    match st {
        StmtS::Sequence(b1, b2) => {
            let s1 = *b1;
            assert(fully_simplified(s1));
            assert(fully_simplified(*b2));
            match *b2 {
                StmtS::Sequence(b2a, b2b) => {
                    let s2 = *b2a;
                    assert(fully_simplified(s2));
                    assert(fully_simplified(*b2b));
                    match *b2b {
                        StmtS::Sequence(b3, b4) => {
                            let s3 = *b3;
                            let s4 = *b4;
                            assert(fully_simplified(s3));
                            assert(stmt_size(seq_s(s3, s4)) == 1 + stmt_size(s3) + stmt_size(s4));
                            assert(stmt_size(seq_s(s2, seq_s(s3, s4))) == 1 + stmt_size(s2)
                                + stmt_size(seq_s(s3, s4)));
                            assert(stmt_size(st) == 1 + stmt_size(s1) + stmt_size(
                                seq_s(s2, seq_s(s3, s4)),
                            ));
                            assert(!starts_checked_binop(s1));
                            assert(!is_binop_then_assert(s1, s2, s3));
                            assert(!ends_guarded_binop(s3));
                            assert(!is_assert_then_binop(s1, s2, s3));
                            lemma_fully_simplified_fixpoint(s1);
                            lemma_fully_simplified_fixpoint(*b2);
                            assert(seq_s(s1, *b2) == st);
                        },
                        s3 => {
                            assert(fully_simplified(s3));
                            assert(!starts_checked_binop(s1));
                            assert(!is_binop_then_assert(s1, s2, s3));
                            assert(!ends_guarded_binop(s3));
                            assert(!is_assert_then_binop(s1, s2, s3));
                            lemma_fully_simplified_fixpoint(s1);
                            lemma_fully_simplified_fixpoint(*b2);
                            assert(seq_s(s1, *b2) == st);
                        },
                    }
                },
                _ => {
                    lemma_fully_simplified_fixpoint(s1);
                    lemma_fully_simplified_fixpoint(*b2);
                    assert(seq_s(s1, *b2) == st);
                },
            }
        },
        StmtS::Loop(b) => {
            lemma_fully_simplified_fixpoint(*b);
        },
        StmtS::Switch(sw) => {
            lemma_switch_fixpoint(sw);
        },
        _ => {},
    }
}

/// [`lemma_fully_simplified_fixpoint`], for the branches of a switch.
proof fn lemma_switch_fixpoint(sw: SwitchS)
    requires
        switch_fully_simplified(sw),
    ensures
        simplify_switch_spec(sw) == Ok::<SwitchS, SimplifyError>(sw),
    decreases switch_size(sw),
{
    match sw {
        SwitchS::If(_, a, b) => {
            lemma_fully_simplified_fixpoint(*a);
            lemma_fully_simplified_fixpoint(*b);
        },
        SwitchS::SwitchInt(_, _, arms, default) => {
            lemma_int_arms_fixpoint(arms);
            lemma_fully_simplified_fixpoint(*default);
        },
        SwitchS::Match(_, arms, default) => {
            lemma_match_arms_fixpoint(arms);
            lemma_fully_simplified_fixpoint(*default);
        },
    }
}

/// [`lemma_fully_simplified_fixpoint`], for the arms of an integer switch.
proof fn lemma_int_arms_fixpoint(arms: Seq<(Seq<crate::expressions::ScalarValue>, StmtS)>)
    requires
        forall|i: int| 0 <= i < arms.len() ==> fully_simplified(#[trigger] arms[i].1),
    ensures
        simplify_int_arms_spec(arms) == Ok::<
            Seq<(Seq<crate::expressions::ScalarValue>, StmtS)>,
            SimplifyError,
        >(arms),
    decreases int_arms_size(arms),
{
    if arms.len() == 0 {
        assert(arms =~= Seq::<(Seq<crate::expressions::ScalarValue>, StmtS)>::empty());
    } else {
        lemma_fully_simplified_fixpoint(arms[0].1);
        assert forall|i: int| 0 <= i < arms.skip(1).len() implies fully_simplified(
            #[trigger] arms.skip(1)[i].1,
        ) by {
            assert(arms.skip(1)[i] == arms[i + 1]);
        }
        lemma_int_arms_fixpoint(arms.skip(1));
        assert(seq![(arms[0].0, arms[0].1)] + arms.skip(1) =~= arms);
    }
}

/// [`lemma_fully_simplified_fixpoint`], for the arms of a match.
proof fn lemma_match_arms_fixpoint(arms: Seq<(Seq<crate::expressions::VariantId>, StmtS)>)
    requires
        forall|i: int| 0 <= i < arms.len() ==> fully_simplified(#[trigger] arms[i].1),
    ensures
        simplify_match_arms_spec(arms) == Ok::<
            Seq<(Seq<crate::expressions::VariantId>, StmtS)>,
            SimplifyError,
        >(arms),
    decreases match_arms_size(arms),
{
    if arms.len() == 0 {
        assert(arms =~= Seq::<(Seq<crate::expressions::VariantId>, StmtS)>::empty());
    } else {
        lemma_fully_simplified_fixpoint(arms[0].1);
        assert forall|i: int| 0 <= i < arms.skip(1).len() implies fully_simplified(
            #[trigger] arms.skip(1)[i].1,
        ) by {
            assert(arms.skip(1)[i] == arms[i + 1]);
        }
        lemma_match_arms_fixpoint(arms.skip(1));
        assert(seq![(arms[0].0, arms[0].1)] + arms.skip(1) =~= arms);
    }
}

/// Law: the simplifier leaves no unmarked fallible operation in a tree it
/// accepts.
pub proof fn lemma_simplify_fully_simplified(st: StmtS, r: StmtS)
    requires
        simplify_spec(st) == Ok::<StmtS, SimplifyError>(r),
    ensures
        fully_simplified(r),
{
    lemma_simplify_spec_props(st, 0);
}

/// Law: the simplifier is idempotent.  Running it a second time on a tree it
/// has successfully simplified returns that tree unchanged.
pub proof fn lemma_simplify_idempotent(st: StmtS, r: StmtS)
    requires
        simplify_spec(st) == Ok::<StmtS, SimplifyError>(r),
    ensures
        simplify_spec(r) == Ok::<StmtS, SimplifyError>(r),
{
    lemma_simplify_spec_props(st, 0);
    lemma_fully_simplified_fixpoint(r);
}

/// Law: the simplifier preserves the canonical sequence form.  If no
/// `Sequence` node of the input has a `Sequence` as its first component, the
/// same holds of the output.
pub proof fn lemma_simplify_preserves_canonical(st: StmtS, r: StmtS)
    requires
        simplify_spec(st) == Ok::<StmtS, SimplifyError>(r),
        crate::llbc_ast::seq_canonical(st),
    ensures
        crate::llbc_ast::seq_canonical(r),
{
    lemma_simplify_spec_props(st, 0);
}

/// Law: the simplifier preserves the break/continue index bound.  If every
/// `Break(n)` and `Continue(n)` of the input references an enclosing loop,
/// the same holds of the output.
pub proof fn lemma_simplify_preserves_breaks_bounded(st: StmtS, r: StmtS, depth: int)
    requires
        simplify_spec(st) == Ok::<StmtS, SimplifyError>(r),
        crate::llbc_ast::breaks_bounded(st, depth),
    ensures
        crate::llbc_ast::breaks_bounded(r, depth),
{
    lemma_simplify_spec_props(st, depth);
}

/// A runtime value of the small fragment of the language the guard idioms
/// touch: an integer, a boolean, or the pair a checked operation produces.
pub enum Val {
    VInt(int),
    VBool(bool),
    VPair(int, bool),
}

/// The memory the idioms read and write: one value per variable.
pub type Mem = Map<crate::expressions::VarId, Val>;

/// Runs the three statements of the operation-then-check idiom, where the
/// checked operation produced the pair `(value, flag)`:
/// ```text
/// t := (value, flag);
/// assert(move (t.1) == false);
/// dest := move (t.0);
/// ```
/// The result is the final memory, or `None` where the assert aborts the
/// program.
pub open spec fn run_binop_then_assert(
    m: Mem,
    t: crate::expressions::VarId,
    dest: crate::expressions::VarId,
    value: int,
    flag: bool,
) -> Option<Mem> {
    let m1 = m.insert(t, Val::VPair(value, flag));
    if flag {
        None
    } else {
        Some(m1.insert(dest, Val::VInt(value)))
    }
}

/// Runs the collapsed form of the operation-then-check idiom, where the
/// operation produced the pair `(value, flag)`: `dest` receives the value,
/// and the implicitly fallible operation aborts exactly where the discarded
/// flag was set.
pub open spec fn run_collapsed_binop(
    m: Mem,
    dest: crate::expressions::VarId,
    value: int,
    flag: bool,
) -> Option<Mem> {
    if flag {
        None
    } else {
        Some(m.insert(dest, Val::VInt(value)))
    }
}

/// Law (soundness of collapsing an operation-then-check idiom): whatever
/// pair the checked operation produces, the three-statement form and the
/// collapsed form abort under the same condition, and on success they leave
/// the identical value in the destination and agree everywhere but on the
/// discarded temporary.
pub proof fn lemma_collapsed_binop_equivalent(
    m: Mem,
    t: crate::expressions::VarId,
    dest: crate::expressions::VarId,
    value: int,
    flag: bool,
)
    requires
        t != dest,
    ensures
        (run_binop_then_assert(m, t, dest, value, flag) is None) == (run_collapsed_binop(
            m,
            dest,
            value,
            flag,
        ) is None),
        match (
            run_binop_then_assert(m, t, dest, value, flag),
            run_collapsed_binop(m, dest, value, flag),
        ) {
            (Some(m1), Some(m2)) => {
                &&& m1[dest] == m2[dest]
                &&& m2[dest] == Val::VInt(value)
                &&& forall|x: crate::expressions::VarId|
                    x != t && m2.dom().contains(x) ==> m1.dom().contains(x) && m1[x] == #[trigger] m2[x]
            },
            (None, None) => true,
            _ => false,
        },
{
}

/// Runs the three statements of the check-then-operation idiom, where the
/// divisor evaluates to `divisor` and the operation to `quotient`:
/// ```text
/// t := (divisor == 0);
/// assert((move t) == false);
/// dest := quotient;
/// ```
pub open spec fn run_assert_then_binop(
    m: Mem,
    t: crate::expressions::VarId,
    dest: crate::expressions::VarId,
    divisor: int,
    quotient: int,
) -> Option<Mem> {
    let m1 = m.insert(t, Val::VBool(divisor == 0));
    if divisor == 0 {
        None
    } else {
        Some(m1.insert(dest, Val::VInt(quotient)))
    }
}

/// Runs the collapsed form of the check-then-operation idiom: the
/// implicitly fallible division aborts exactly on a zero divisor.
pub open spec fn run_collapsed_div(
    m: Mem,
    dest: crate::expressions::VarId,
    divisor: int,
    quotient: int,
) -> Option<Mem> {
    if divisor == 0 {
        None
    } else {
        Some(m.insert(dest, Val::VInt(quotient)))
    }
}

/// Law (soundness of collapsing a check-then-operation idiom): the
/// three-statement form and the collapsed form abort exactly on a zero
/// divisor, and on success they leave the identical value in the
/// destination and agree everywhere but on the discarded temporary.
pub proof fn lemma_collapsed_div_equivalent(
    m: Mem,
    t: crate::expressions::VarId,
    dest: crate::expressions::VarId,
    divisor: int,
    quotient: int,
)
    requires
        t != dest,
    ensures
        (run_assert_then_binop(m, t, dest, divisor, quotient) is None) == (run_collapsed_div(
            m,
            dest,
            divisor,
            quotient,
        ) is None),
        match (
            run_assert_then_binop(m, t, dest, divisor, quotient),
            run_collapsed_div(m, dest, divisor, quotient),
        ) {
            (Some(m1), Some(m2)) => {
                &&& m1[dest] == m2[dest]
                &&& m2[dest] == Val::VInt(quotient)
                &&& forall|x: crate::expressions::VarId|
                    x != t && m2.dom().contains(x) ==> m1.dom().contains(x) && m1[x] == #[trigger] m2[x]
            },
            (None, None) => true,
            _ => false,
        },
{
}

} // verus!

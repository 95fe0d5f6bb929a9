//! The structured representation: function bodies as statement trees.
//!
//! Control flow is expressed by nesting: sequences, conditionals, multi-way
//! switches and loops, with indexed `Break`/`Continue` statements referencing
//! the n-th enclosing loop (0 is the innermost).
//!
//! Two structural invariants matter to the rest of the pipeline and are
//! captured by spec predicates here:
//! - [`seq_canonical`]: the left component of a `Sequence` is never itself a
//!   `Sequence` (right-associated canonical form);
//! - [`breaks_bounded`]: every `Break(n)` and `Continue(n)` lies within more
//!   than `n` enclosing `Loop` nodes.

use vstd::prelude::*;

use crate::expressions::{ETy, IntegerTy, Operand, OperandS, Place, PlaceS, Rvalue, RvalueS,
    ScalarValue, VariantId};
use crate::expressions::{operands_view, ErasedRegion};
pub use crate::ullbc_ast::{FunDeclId, FunId, GlobalDeclId, Var};

verus! {

/// A runtime check on a boolean operand; failing it aborts the program.
#[derive(Debug)]
pub struct Assert {
    pub cond: Operand,
    pub expected: bool,
}

/// A call to a top-level function.
#[derive(Debug)]
pub struct Call {
    pub func: FunId,
    pub region_args: Vec<ErasedRegion>,
    pub type_args: Vec<ETy>,
    pub args: Vec<Operand>,
    pub dest: Place,
}

/// A structured statement.
#[derive(Debug)]
pub enum RawStatement {
    Assign(Place, Rvalue),
    FakeRead(Place),
    SetDiscriminant(Place, VariantId),
    Drop(Place),
    Assert(Assert),
    Call(Call),
    /// Abort; also stands for unreachable code.
    Panic,
    Return,
    /// Break out of the n-th enclosing loop, 0 being the innermost.
    Break(usize),
    /// Continue the n-th enclosing loop, 0 being the innermost.
    Continue(usize),
    Nop,
    /// The left statement must not itself be a `Sequence`; see
    /// [`seq_canonical`].
    Sequence(Box<Statement>, Box<Statement>),
    Switch(Switch),
    Loop(Box<Statement>),
}

/// A structured statement of a function body.
#[derive(Debug)]
pub struct Statement {
    pub content: RawStatement,
}

/// A structured branching construct.
#[derive(Debug)]
pub enum Switch {
    /// A boolean conditional: the "then" branch and the "else" branch.
    If(Operand, Box<Statement>, Box<Statement>),
    /// A multi-way switch over an integer: an ordered list of
    /// (value-set, branch) pairs plus the default branch.  A value set groups
    /// the values that share one branch; branch order follows the source.
    SwitchInt(Operand, IntegerTy, Vec<(Vec<ScalarValue>, Statement)>, Box<Statement>),
    /// A match over the variants of an enumeration, by variant-id sets.
    Match(Place, Vec<(Vec<VariantId>, Statement)>, Box<Statement>),
}

/// Mathematical mirror of [`RawStatement`] and [`Statement`].
#[verifier::ext_equal]
pub enum StmtS {
    Assign(PlaceS, RvalueS),
    FakeRead(PlaceS),
    SetDiscriminant(PlaceS, VariantId),
    Drop(PlaceS),
    Assert(OperandS, bool),
    Call(CallS),
    Panic,
    Return,
    Break(usize),
    Continue(usize),
    Nop,
    Sequence(Box<StmtS>, Box<StmtS>),
    Switch(SwitchS),
    Loop(Box<StmtS>),
}

/// Mathematical mirror of [`Call`].
#[verifier::ext_equal]
pub struct CallS {
    pub func: FunId,
    pub region_args: Seq<ErasedRegion>,
    pub type_args: Seq<ETy>,
    pub args: Seq<OperandS>,
    pub dest: PlaceS,
}

/// Mathematical mirror of [`Switch`].
#[verifier::ext_equal]
pub enum SwitchS {
    If(OperandS, Box<StmtS>, Box<StmtS>),
    SwitchInt(OperandS, IntegerTy, Seq<(Seq<ScalarValue>, StmtS)>, Box<StmtS>),
    Match(PlaceS, Seq<(Seq<VariantId>, StmtS)>, Box<StmtS>),
}

impl View for Call {
    type V = CallS;

    open spec fn view(&self) -> CallS {
        CallS {
            func: self.func,
            region_args: self.region_args@,
            type_args: self.type_args@,
            args: operands_view(self.args@),
            dest: self.dest@,
        }
    }
}

/// The view of a list of integer switch arms.
pub open spec fn int_arms_view(arms: Seq<(Vec<ScalarValue>, Statement)>) -> Seq<
    (Seq<ScalarValue>, StmtS),
>
    decreases arms,
{
    if arms.len() == 0 {
        Seq::empty()
    } else {
        seq![(arms[0].0@, arms[0].1@)] + int_arms_view(arms.skip(1))
    }
}

/// The view of a list of match arms.
pub open spec fn match_arms_view(arms: Seq<(Vec<VariantId>, Statement)>) -> Seq<
    (Seq<VariantId>, StmtS),
>
    decreases arms,
{
    if arms.len() == 0 {
        Seq::empty()
    } else {
        seq![(arms[0].0@, arms[0].1@)] + match_arms_view(arms.skip(1))
    }
}

impl View for RawStatement {
    type V = StmtS;

    open spec fn view(&self) -> StmtS
        decreases self,
    {
        match self {
            RawStatement::Assign(p, rv) => StmtS::Assign(p@, rv@),
            RawStatement::FakeRead(p) => StmtS::FakeRead(p@),
            RawStatement::SetDiscriminant(p, vid) => StmtS::SetDiscriminant(p@, *vid),
            RawStatement::Drop(p) => StmtS::Drop(p@),
            RawStatement::Assert(a) => StmtS::Assert(a.cond@, a.expected),
            RawStatement::Call(c) => StmtS::Call(c@),
            RawStatement::Panic => StmtS::Panic,
            RawStatement::Return => StmtS::Return,
            RawStatement::Break(n) => StmtS::Break(*n),
            RawStatement::Continue(n) => StmtS::Continue(*n),
            RawStatement::Nop => StmtS::Nop,
            RawStatement::Sequence(s1, s2) => StmtS::Sequence(
                Box::new((*s1).content@),
                Box::new((*s2).content@),
            ),
            RawStatement::Switch(sw) => StmtS::Switch(sw@),
            RawStatement::Loop(b) => StmtS::Loop(Box::new((*b).content@)),
        }
    }
}

impl View for Switch {
    type V = SwitchS;

    open spec fn view(&self) -> SwitchS
        decreases self,
    {
        match self {
            Switch::If(op, s1, s2) => SwitchS::If(
                op@,
                Box::new((*s1).content@),
                Box::new((*s2).content@),
            ),
            Switch::SwitchInt(op, ty, arms, default) => SwitchS::SwitchInt(
                op@,
                *ty,
                int_arms_view(arms@),
                Box::new((*default).content@),
            ),
            Switch::Match(p, arms, default) => SwitchS::Match(
                p@,
                match_arms_view(arms@),
                Box::new((*default).content@),
            ),
        }
    }
}

impl View for Statement {
    type V = StmtS;

    open spec fn view(&self) -> StmtS
        decreases self,
    {
        self.content@
    }
}

/// The canonical form of sequences: the left component of a `Sequence` node
/// is never itself a `Sequence`.
pub open spec fn seq_canonical(st: StmtS) -> bool
    decreases st,
{
    match st {
        StmtS::Sequence(s1, s2) => !((*s1) is Sequence) && seq_canonical(*s1) && seq_canonical(
            *s2,
        ),
        StmtS::Loop(b) => seq_canonical(*b),
        StmtS::Switch(sw) => switch_canonical(sw),
        _ => true,
    }
}

/// [`seq_canonical`], on every branch of a switch.
pub open spec fn switch_canonical(sw: SwitchS) -> bool
    decreases sw,
{
    match sw {
        SwitchS::If(_, s1, s2) => seq_canonical(*s1) && seq_canonical(*s2),
        SwitchS::SwitchInt(_, _, arms, default) => seq_canonical(*default) && (forall|i: int|
            0 <= i < arms.len() ==> seq_canonical(#[trigger] arms[i].1)),
        SwitchS::Match(_, arms, default) => seq_canonical(*default) && (forall|i: int|
            0 <= i < arms.len() ==> seq_canonical(#[trigger] arms[i].1)),
    }
}

/// Every `Break(n)` and `Continue(n)` references one of its enclosing loops:
/// `n` is less than the number of `Loop` nodes around it, counting `depth`
/// loops around the whole statement.
pub open spec fn breaks_bounded(st: StmtS, depth: int) -> bool
    decreases st,
{
    match st {
        StmtS::Break(n) => (n as int) < depth,
        StmtS::Continue(n) => (n as int) < depth,
        StmtS::Sequence(s1, s2) => breaks_bounded(*s1, depth) && breaks_bounded(*s2, depth),
        StmtS::Loop(b) => breaks_bounded(*b, depth + 1),
        StmtS::Switch(sw) => switch_breaks_bounded(sw, depth),
        _ => true,
    }
}

/// [`breaks_bounded`], on every branch of a switch.
pub open spec fn switch_breaks_bounded(sw: SwitchS, depth: int) -> bool
    decreases sw,
{
    match sw {
        SwitchS::If(_, s1, s2) => breaks_bounded(*s1, depth) && breaks_bounded(*s2, depth),
        SwitchS::SwitchInt(_, _, arms, default) => breaks_bounded(*default, depth) && (forall|
            i: int,
        |
            0 <= i < arms.len() ==> breaks_bounded(#[trigger] arms[i].1, depth)),
        SwitchS::Match(_, arms, default) => breaks_bounded(*default, depth) && (forall|i: int|
            0 <= i < arms.len() ==> breaks_bounded(#[trigger] arms[i].1, depth)),
    }
}

/// The views of the arms of an integer switch, element by element.
pub proof fn lemma_int_arms_view_index(arms: Seq<(Vec<ScalarValue>, Statement)>)
    ensures
        int_arms_view(arms).len() == arms.len(),
        forall|i: int|
            0 <= i < arms.len() ==> #[trigger] int_arms_view(arms)[i] == (arms[i].0@, arms[i].1@),
    decreases arms,
{
    if arms.len() == 0 {
    } else {
        lemma_int_arms_view_index(arms.skip(1));
        assert(int_arms_view(arms) == seq![(arms[0].0@, arms[0].1@)] + int_arms_view(
            arms.skip(1),
        ));
        assert forall|i: int|
            0 <= i < arms.len() implies #[trigger] int_arms_view(arms)[i] == (
            arms[i].0@,
            arms[i].1@,
        ) by {
            if i > 0 {
                assert(int_arms_view(arms)[i] == int_arms_view(arms.skip(1))[i - 1]);
                assert(arms.skip(1)[i - 1] == arms[i]);
            }
        }
    }
}

/// The views of the arms of an integer switch, one more arm appended.
pub proof fn lemma_int_arms_view_push(
    arms: Seq<(Vec<ScalarValue>, Statement)>,
    x: (Vec<ScalarValue>, Statement),
)
    ensures
        int_arms_view(arms.push(x)) == int_arms_view(arms).push((x.0@, x.1@)),
    decreases arms,
{
    if arms.len() == 0 {
        assert(arms.push(x)[0] == x);
        assert(arms.push(x).skip(1) =~= Seq::<(Vec<ScalarValue>, Statement)>::empty());
        assert(int_arms_view(arms.push(x)) == seq![(x.0@, x.1@)] + int_arms_view(
            arms.push(x).skip(1),
        ));
        assert(int_arms_view(arms.push(x).skip(1)) == Seq::<(Seq<ScalarValue>, StmtS)>::empty());
        assert(int_arms_view(arms) == Seq::<(Seq<ScalarValue>, StmtS)>::empty());
        assert(int_arms_view(arms.push(x)) =~= int_arms_view(arms).push((x.0@, x.1@)));
    } else {
        assert(arms.push(x)[0] == arms[0]);
        assert(arms.push(x).skip(1) =~= arms.skip(1).push(x));
        lemma_int_arms_view_push(arms.skip(1), x);
        assert(int_arms_view(arms.push(x)) == seq![(arms[0].0@, arms[0].1@)] + int_arms_view(
            arms.push(x).skip(1),
        ));
        assert(int_arms_view(arms.push(x).skip(1)) == int_arms_view(arms.skip(1)).push(
            (x.0@, x.1@),
        ));
        assert(int_arms_view(arms) == seq![(arms[0].0@, arms[0].1@)] + int_arms_view(
            arms.skip(1),
        ));
        assert(int_arms_view(arms.push(x)) =~= int_arms_view(arms).push((x.0@, x.1@)));
    }
}

/// The size of a statement tree, used as a termination measure by the
/// passes that walk it.
pub open spec fn stmt_size(st: StmtS) -> nat
    decreases st,
{
    match st {
        StmtS::Sequence(s1, s2) => 1 + stmt_size(*s1) + stmt_size(*s2),
        StmtS::Loop(b) => 1 + stmt_size(*b),
        StmtS::Switch(sw) => 1 + switch_size(sw),
        _ => 1,
    }
}

/// The size of a switch, all branches included.
pub open spec fn switch_size(sw: SwitchS) -> nat
    decreases sw,
{
    match sw {
        SwitchS::If(_, s1, s2) => 1 + stmt_size(*s1) + stmt_size(*s2),
        SwitchS::SwitchInt(_, _, arms, default) => 1 + int_arms_size(arms) + stmt_size(*default),
        SwitchS::Match(_, arms, default) => 1 + match_arms_size(arms) + stmt_size(*default),
    }
}

/// The size of the arms of an integer switch.
pub open spec fn int_arms_size(arms: Seq<(Seq<ScalarValue>, StmtS)>) -> nat
    decreases arms,
{
    if arms.len() == 0 {
        0
    } else {
        1 + stmt_size(arms[0].1) + int_arms_size(arms.skip(1))
    }
}

/// The size of the arms of a match.
pub open spec fn match_arms_size(arms: Seq<(Seq<VariantId>, StmtS)>) -> nat
    decreases arms,
{
    if arms.len() == 0 {
        0
    } else {
        1 + stmt_size(arms[0].1) + match_arms_size(arms.skip(1))
    }
}

/// A structured function body.
pub struct ExprBody {
    pub arg_count: usize,
    pub locals: Vec<Var>,
    pub body: Statement,
}

/// A structured function declaration.
pub struct FunDecl {
    pub def_id: FunDeclId,
    pub body: Statement,
}

} // verus!

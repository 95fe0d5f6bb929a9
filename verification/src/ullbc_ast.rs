//! The unstructured representation: function bodies as graphs of basic
//! blocks.
//!
//! A basic block is a list of non-branching statements followed by exactly
//! one terminator.  Blocks are addressed by integer identifiers; the entry
//! block of a body is always block 0.

use vstd::prelude::*;

use crate::expressions::{ETy, IntegerTy, Operand, OperandS, Place, PlaceS, Rvalue, RvalueS, VarId,
    VariantId};
use crate::expressions::ErasedRegion;
use crate::ordered_map::map_entries;

verus! {

/// Identifier of a basic block.
pub type BlockId = usize;

/// The entry block of a function body is always the block with id 0.
pub const START_BLOCK_ID: BlockId = 0;

/// Identifier of a function declaration.
pub type FunDeclId = usize;

/// Identifier of a global declaration.
pub type GlobalDeclId = usize;

/// Identifier of a callee.
pub type FunId = usize;

/// A typed local variable.
#[derive(Debug, Clone, Copy, PartialEq, Eq, Structural)]
pub struct Var {
    pub index: VarId,
    pub ty: ETy,
}

/// A non-branching instruction of a basic block.
#[derive(Debug)]
pub enum RawStatement {
    Assign(Place, Rvalue),
    /// Liveness marker; keeps a place observable.
    FakeRead(Place),
    SetDiscriminant(Place, VariantId),
    /// Becomes a structured `Drop` of the bare variable.
    StorageDead(VarId),
    /// Becomes a structured `Drop` of the place.
    Deinit(Place),
}

/// A statement of a basic block.
#[derive(Debug)]
pub struct Statement {
    pub content: RawStatement,
}

/// Mathematical mirror of [`RawStatement`].
#[verifier::ext_equal]
pub enum UStmtS {
    Assign(PlaceS, RvalueS),
    FakeRead(PlaceS),
    SetDiscriminant(PlaceS, VariantId),
    StorageDead(VarId),
    Deinit(PlaceS),
}

impl View for RawStatement {
    type V = UStmtS;

    open spec fn view(&self) -> UStmtS {
        match self {
            RawStatement::Assign(p, rv) => UStmtS::Assign(p@, rv@),
            RawStatement::FakeRead(p) => UStmtS::FakeRead(p@),
            RawStatement::SetDiscriminant(p, vid) => UStmtS::SetDiscriminant(p@, *vid),
            RawStatement::StorageDead(vid) => UStmtS::StorageDead(*vid),
            RawStatement::Deinit(p) => UStmtS::Deinit(p@),
        }
    }
}

impl View for Statement {
    type V = UStmtS;

    open spec fn view(&self) -> UStmtS {
        self.content@
    }
}

/// The targets of a branching terminator.
pub enum SwitchTargets {
    /// The "then" block and the "else" block of a boolean switch.
    If(BlockId, BlockId),
    /// A multi-way switch over an integer: the integer type, a map from raw
    /// bit patterns of values to target blocks (in source order), and the
    /// default target.
    SwitchInt(IntegerTy, hashlink::LinkedHashMap<u128, usize>, BlockId),
}

/// The single branching instruction ending a basic block.
pub enum RawTerminator {
    Goto { target: BlockId },
    Switch { discr: Operand, targets: SwitchTargets },
    Panic,
    Return,
    Unreachable,
    Drop { place: Place, target: BlockId },
    /// A call to a top-level function, with a single success continuation.
    Call {
        func: FunId,
        region_args: Vec<ErasedRegion>,
        type_args: Vec<ETy>,
        args: Vec<Operand>,
        dest: Place,
        target: BlockId,
    },
    /// A runtime check: failing it aborts the program.
    Assert { cond: Operand, expected: bool, target: BlockId },
}

/// A terminator of a basic block.
pub struct Terminator {
    pub content: RawTerminator,
}

/// A basic block: an ordered statement list plus exactly one terminator.
pub struct BlockData {
    pub statements: Vec<Statement>,
    pub terminator: Terminator,
}

/// An unstructured function body.
pub struct ExprBody {
    pub arg_count: usize,
    pub locals: Vec<Var>,
    pub blocks: Vec<BlockData>,
}

/// An unstructured function declaration.
pub struct FunDecl {
    pub def_id: FunDeclId,
    pub body: ExprBody,
}

/// Whether the keys of the listed value/target pairs are pairwise distinct.
pub open spec fn distinct_keys(pairs: Seq<(u128, BlockId)>) -> bool {
    forall|i: int, j: int|
        0 <= i < j < pairs.len() ==> (#[trigger] pairs[i]).0 != (#[trigger] pairs[j]).0
}

/// The entries a map holds after inserting the listed pairs in order into
/// an empty map: a repeated key removes its earlier entry and lands at the
/// back with its last target.
pub open spec fn inserted_entries(pairs: Seq<(u128, BlockId)>) -> Seq<(u128, usize)>
    decreases pairs,
{
    if pairs.len() == 0 {
        Seq::empty()
    } else {
        crate::ordered_map::entries_without_key(
            inserted_entries(pairs.drop_last()),
            pairs.last().0,
        ).push(pairs.last())
    }
}

/// With pairwise distinct keys, insertion keeps the pairs as given.
pub proof fn lemma_inserted_entries_distinct(pairs: Seq<(u128, BlockId)>)
    requires
        distinct_keys(pairs),
    ensures
        inserted_entries(pairs) == pairs,
    decreases pairs,
{
    if pairs.len() > 0 {
        lemma_inserted_entries_distinct(pairs.drop_last());
        assert forall|j: int|
            0 <= j < inserted_entries(pairs.drop_last()).len() implies (
        #[trigger] inserted_entries(pairs.drop_last())[j]).0 != pairs.last().0 by {
            assert(inserted_entries(pairs.drop_last())[j] == pairs.drop_last()[j]);
            assert(pairs.drop_last()[j] == pairs[j]);
        }
        crate::ordered_map::lemma_entries_without_absent_key(
            inserted_entries(pairs.drop_last()),
            pairs.last().0,
        );
        assert(inserted_entries(pairs) =~= pairs);
    } else {
        assert(inserted_entries(pairs) =~= pairs);
    }
}

/// Builds the value-to-target table of a multi-way switch by inserting the
/// listed pairs in order.
pub fn make_switch_int_targets(
    ity: IntegerTy,
    pairs: &Vec<(u128, BlockId)>,
    otherwise: BlockId,
) -> (r: SwitchTargets)
    ensures
        r is SwitchInt,
        r matches SwitchTargets::SwitchInt(ity2, m, o) ==> ity2 == ity && o == otherwise
            && map_entries(m) == inserted_entries(pairs@) && (distinct_keys(pairs@)
            ==> map_entries(m) == pairs@),
{
    let mut m = crate::ordered_map::targets_new();
    let mut i: usize = 0;
    while i < pairs.len()
        invariant
            i <= pairs@.len(),
            map_entries(m) == inserted_entries(pairs@.take(i as int)),
        decreases pairs@.len() - i,
    {
        let (k, v) = pairs[i];
        let ghost pre = map_entries(m);
        let _ = crate::ordered_map::targets_insert(&mut m, k, v);
        proof {
            assert(pairs@.take(i + 1).drop_last() =~= pairs@.take(i as int));
            assert(pairs@.take(i + 1).last() == (k, v));
            assert(map_entries(m) == inserted_entries(pairs@.take(i + 1)));
        }
        i = i + 1;
    }
    proof {
        assert(pairs@.take(pairs@.len() as int) =~= pairs@);
        if distinct_keys(pairs@) {
            lemma_inserted_entries_distinct(pairs@);
        }
    }
    SwitchTargets::SwitchInt(ity, m, otherwise)
}

/// The block identifiers a terminator can transfer control to, in syntactic
/// order.
pub open spec fn spec_successors(t: RawTerminator) -> Seq<BlockId> {
    match t {
        RawTerminator::Goto { target } => seq![target],
        RawTerminator::Switch { discr, targets } => match targets {
            SwitchTargets::If(t1, t2) => seq![t1, t2],
            SwitchTargets::SwitchInt(_, m, otherwise) => map_entries(m).map_values(
                |e: (u128, usize)| e.1,
            ).push(otherwise),
        },
        RawTerminator::Panic => Seq::empty(),
        RawTerminator::Return => Seq::empty(),
        RawTerminator::Unreachable => Seq::empty(),
        RawTerminator::Drop { place, target } => seq![target],
        RawTerminator::Call { func, region_args, type_args, args, dest, target } => seq![target],
        RawTerminator::Assert { cond, expected, target } => seq![target],
    }
}

impl Terminator {
    /// Collects the successor blocks of this terminator.
    pub fn successors(&self) -> (r: Vec<BlockId>)
        ensures
            r@ == spec_successors(self.content),
    {
        match &self.content {
            RawTerminator::Goto { target } => {
                let mut v: Vec<BlockId> = Vec::new();
                v.push(*target);
                proof {
                    assert(v@ =~= spec_successors(self.content));
                }
                v
            },
            RawTerminator::Switch { discr, targets } => match targets {
                SwitchTargets::If(t1, t2) => {
                    let mut v: Vec<BlockId> = Vec::new();
                    v.push(*t1);
                    v.push(*t2);
                    proof {
                        assert(v@ =~= spec_successors(self.content));
                    }
                    v
                },
                SwitchTargets::SwitchInt(_, m, otherwise) => {
                    let entries = crate::ordered_map::targets_entries(m);
                    let mut v: Vec<BlockId> = Vec::new();
                    let mut i: usize = 0;
                    while i < entries.len()
                        invariant
                            i <= entries.len(),
                            entries@ == map_entries(*m),
                            v@ =~= map_entries(*m).map_values(|e: (u128, usize)| e.1).take(
                                i as int,
                            ),
                        decreases entries.len() - i,
                    {
                        v.push(entries[i].1);
                        proof {
                            assert(v@ =~= map_entries(*m).map_values(|e: (u128, usize)| e.1).take(
                                i + 1,
                            ));
                        }
                        i = i + 1;
                    }
                    v.push(*otherwise);
                    proof {
                        let f = |e: (u128, usize)| e.1;
                        assert(map_entries(*m).map_values(f).take(map_entries(*m).len() as int)
                            =~= map_entries(*m).map_values(f));
                        assert(v@ =~= spec_successors(self.content));
                    }
                    v
                },
            },
            RawTerminator::Panic => Vec::new(),
            RawTerminator::Return => Vec::new(),
            RawTerminator::Unreachable => Vec::new(),
            RawTerminator::Drop { place, target } => {
                let mut v: Vec<BlockId> = Vec::new();
                v.push(*target);
                proof {
                    assert(v@ =~= spec_successors(self.content));
                }
                v
            },
            RawTerminator::Call { func, region_args, type_args, args, dest, target } => {
                let mut v: Vec<BlockId> = Vec::new();
                v.push(*target);
                proof {
                    assert(v@ =~= spec_successors(self.content));
                }
                v
            },
            RawTerminator::Assert { cond, expected, target } => {
                let mut v: Vec<BlockId> = Vec::new();
                v.push(*target);
                proof {
                    assert(v@ =~= spec_successors(self.content));
                }
                v
            },
        }
    }
}

} // verus!

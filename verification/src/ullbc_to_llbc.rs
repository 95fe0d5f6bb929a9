//! The control-flow structuring engine: turns a basic-block body into one
//! structured statement tree.
//!
//! The engine walks the graph from the entry block, guided by the dominator
//! and natural-loop information of [`crate::graph`].  A loop header becomes a
//! `Loop`; edges back to a header become `Continue(k)` and edges that leave a
//! loop become `Break(k)`, with `k` counting the loop nestings crossed.  A
//! switch's branches are translated independently and re-joined at the
//! block that both branches converge to.  Each block is translated exactly
//! once: a block that would have to be emitted twice, as in an irreducible
//! graph, is reported as a [`StructuringError`] instead of being duplicated.
//!
//! Three properties are proved of every tree the engine returns: every
//! `Break(n)`/`Continue(n)` lies within more than `n` enclosing loops
//! ([`breaks_bounded`]); no `Sequence` has a `Sequence` as its first
//! component ([`seq_canonical`]); and the tree's plain statements are
//! exactly those of a set of emitted blocks containing the entry, each
//! emitted once ([`emission_accounts`]).  Empty bodies and dangling
//! references are rejected as exactly that, and a body of one block with
//! no successors is owed success.

use vstd::prelude::*;

use crate::expressions::scalar_of_bits;
use crate::expressions::{Operand, ScalarValue};
use crate::graph::{build_cfg_info, cfg_wf, count_trues, lemma_count_trues_le_len,
    lemma_count_trues_update, CfgInfo};
use crate::llbc_ast::{breaks_bounded, int_arms_view, seq_canonical, StmtS, SwitchS};
use crate::llbc_ast;
use crate::ullbc_ast::{spec_successors, BlockData, BlockId, FunDeclId, RawStatement,
    RawTerminator, SwitchTargets};
use crate::ullbc_ast;

verus! {

/// Why a body could not be structured.  The failure concerns one function
/// only; independent functions are unaffected.
#[derive(Debug, Clone, Copy, PartialEq, Eq, Structural)]
pub enum StructuringError {
    /// The body has no blocks, so there is no entry block.
    EmptyBody,
    /// A terminator references a block id outside the body.
    DanglingBlock(BlockId),
    /// A block would have to be emitted twice: the graph has a merge point
    /// that no single-entry structure accounts for (an irreducible graph).
    Irreducible(BlockId),
    /// The branches of this block's switch converge to more than one
    /// candidate join block.
    AmbiguousJoin(BlockId),
    /// The loop headed by this block exits to more than one block.
    AmbiguousLoopExit(BlockId),
}

/// One enclosing structure during translation: an open loop (with the block
/// its breaks continue at, if any) or an open switch join.
#[derive(Clone, Copy)]
pub enum Frame {
    LoopFrame { header: BlockId, exit: Option<BlockId> },
    JoinFrame { join: BlockId },
}

/// The number of loop frames in a frame stack.
pub open spec fn loop_depth(frames: Seq<Frame>) -> nat
    decreases frames,
{
    if frames.len() == 0 {
        0
    } else {
        loop_depth(frames.drop_last()) + (if frames.last() is LoopFrame {
            1nat
        } else {
            0nat
        })
    }
}

proof fn lemma_loop_depth_take_unfold(s: Seq<Frame>, i: int)
    requires
        0 <= i < s.len(),
    ensures
        loop_depth(s.take(i + 1)) == loop_depth(s.take(i)) + (if s[i] is LoopFrame {
            1nat
        } else {
            0nat
        }),
{
    assert(s.take(i + 1).drop_last() =~= s.take(i));
    assert(s.take(i + 1).last() == s[i]);
}

proof fn lemma_loop_depth_le_len(s: Seq<Frame>)
    ensures
        loop_depth(s) <= s.len(),
    decreases s,
{
    if s.len() > 0 {
        lemma_loop_depth_le_len(s.drop_last());
    }
}

proof fn lemma_loop_depth_push(s: Seq<Frame>, f: Frame)
    ensures
        loop_depth(s.push(f)) == loop_depth(s) + (if f is LoopFrame {
            1nat
        } else {
            0nat
        }),
{
    assert(s.push(f).drop_last() =~= s);
    assert(s.push(f).last() == f);
}

/// Copies a frame stack, extended by one frame.
fn push_frame(frames: &Vec<Frame>, f: Frame) -> (r: Vec<Frame>)
    ensures
        r@ == frames@.push(f),
{
    let mut out: Vec<Frame> = Vec::new();
    let mut i: usize = 0;
    while i < frames.len()
        invariant
            i <= frames@.len(),
            out@ =~= frames@.take(i as int),
        decreases frames@.len() - i,
    {
        out.push(frames[i]);
        i = i + 1;
    }
    proof {
        assert(out@ =~= frames@);
    }
    out.push(f);
    out
}

/// Copies a vector of plain values.
fn copy_vec<T: Copy>(v: &Vec<T>) -> (r: Vec<T>)
    ensures
        r@ == v@,
{
    let mut out: Vec<T> = Vec::new();
    let mut i: usize = 0;
    while i < v.len()
        invariant
            i <= v@.len(),
            out@ =~= v@.take(i as int),
        decreases v@.len() - i,
    {
        out.push(v[i]);
        i = i + 1;
    }
    proof {
        assert(out@ =~= v@);
    }
    out
}

/// A statement with no control flow of its own: not a sequence, loop,
/// switch, break or continue.  Such a statement is trivially canonical and
/// respects every break bound.
pub open spec fn plain_stmt(s: StmtS) -> bool {
    match s {
        StmtS::Sequence(_, _) => false,
        StmtS::Loop(_) => false,
        StmtS::Switch(_) => false,
        StmtS::Break(_) => false,
        StmtS::Continue(_) => false,
        _ => true,
    }
}

/// The number of plain statements in a tree: the translated block
/// statements, the statements made from terminators, and the `Return` and
/// `Panic` leaves, but no control flow.
pub open spec fn leaf_count(st: StmtS) -> nat
    decreases st,
{
    match st {
        StmtS::Sequence(a, b) => leaf_count(*a) + leaf_count(*b),
        StmtS::Loop(b) => leaf_count(*b),
        StmtS::Switch(sw) => switch_leaf_count(sw),
        StmtS::Nop => 0,
        other => if plain_stmt(other) {
            1nat
        } else {
            0nat
        },
    }
}

/// [`leaf_count`] over the branches of a switch.
pub open spec fn switch_leaf_count(sw: SwitchS) -> nat
    decreases sw,
{
    match sw {
        SwitchS::If(_, a, b) => leaf_count(*a) + leaf_count(*b),
        SwitchS::SwitchInt(_, _, arms, default) => int_arms_leaf_count(arms) + leaf_count(
            *default,
        ),
        SwitchS::Match(_, arms, default) => match_arms_leaf_count(arms) + leaf_count(*default),
    }
}

/// [`leaf_count`] over the arms of an integer switch.
pub open spec fn int_arms_leaf_count(arms: Seq<(Seq<ScalarValue>, StmtS)>) -> nat
    decreases arms,
{
    if arms.len() == 0 {
        0
    } else {
        leaf_count(arms[0].1) + int_arms_leaf_count(arms.skip(1))
    }
}

/// [`leaf_count`] over the arms of a match.
pub open spec fn match_arms_leaf_count(arms: Seq<(Seq<crate::expressions::VariantId>, StmtS)>)
    -> nat
    decreases arms,
{
    if arms.len() == 0 {
        0
    } else {
        leaf_count(arms[0].1) + match_arms_leaf_count(arms.skip(1))
    }
}

/// How many plain statements translating a terminator adds beside the
/// block's own statements.
pub open spec fn term_weight(t: RawTerminator) -> nat {
    match t {
        RawTerminator::Goto { .. } => 0,
        RawTerminator::Switch { .. } => 0,
        RawTerminator::Panic => 1,
        RawTerminator::Return => 1,
        RawTerminator::Unreachable => 1,
        RawTerminator::Drop { .. } => 1,
        RawTerminator::Call { .. } => 1,
        RawTerminator::Assert { .. } => 1,
    }
}

/// The number of plain statements one block contributes to the tree.
pub open spec fn block_weight(bd: BlockData) -> nat {
    bd.statements@.len() + term_weight(bd.terminator.content)
}

/// The total weight of the blocks marked in `v1` but not in `v0`, over the
/// first `n` blocks.
pub open spec fn emitted_weight(blocks: Seq<BlockData>, v0: Seq<bool>, v1: Seq<bool>, n: int)
    -> nat
    decreases n,
{
    if n <= 0 {
        0
    } else {
        emitted_weight(blocks, v0, v1, n - 1) + (if v1[n - 1] && !v0[n - 1] {
            block_weight(blocks[n - 1])
        } else {
            0nat
        })
    }
}

proof fn lemma_emitted_weight_refl(blocks: Seq<BlockData>, v: Seq<bool>, n: int)
    ensures
        emitted_weight(blocks, v, v, n) == 0,
    decreases n,
{
    if n > 0 {
        lemma_emitted_weight_refl(blocks, v, n - 1);
    }
}

proof fn lemma_emitted_weight_update(blocks: Seq<BlockData>, v: Seq<bool>, b: int, n: int)
    requires
        0 <= b < v.len(),
        !v[b],
        n <= v.len(),
    ensures
        emitted_weight(blocks, v, v.update(b, true), n) == if b < n {
            block_weight(blocks[b])
        } else {
            0nat
        },
    decreases n,
{
    if n > 0 {
        lemma_emitted_weight_update(blocks, v, b, n - 1);
    }
}

proof fn lemma_emitted_weight_chain(
    blocks: Seq<BlockData>,
    v0: Seq<bool>,
    v1: Seq<bool>,
    v2: Seq<bool>,
    n: int,
)
    requires
        forall|j: int| 0 <= j < n ==> ((#[trigger] v0[j]) ==> v1[j]),
        forall|j: int| 0 <= j < n ==> ((#[trigger] v1[j]) ==> v2[j]),
    ensures
        emitted_weight(blocks, v0, v2, n) == emitted_weight(blocks, v0, v1, n) + emitted_weight(
            blocks,
            v1,
            v2,
            n,
        ),
    decreases n,
{
    if n > 0 {
        lemma_emitted_weight_chain(blocks, v0, v1, v2, n - 1);
    }
}

proof fn lemma_int_arms_leaf_push(arms: Seq<(Seq<ScalarValue>, StmtS)>, p: (Seq<ScalarValue>, StmtS))
    ensures
        int_arms_leaf_count(arms.push(p)) == int_arms_leaf_count(arms) + leaf_count(p.1),
    decreases arms,
{
    if arms.len() == 0 {
        assert(arms.push(p)[0] == p);
        assert(arms.push(p).skip(1) =~= Seq::<(Seq<ScalarValue>, StmtS)>::empty());
        assert(int_arms_leaf_count(arms.push(p)) == leaf_count(p.1) + int_arms_leaf_count(
            arms.push(p).skip(1),
        ));
        assert(int_arms_leaf_count(arms.push(p).skip(1)) == 0);
    } else {
        assert(arms.push(p)[0] == arms[0]);
        assert(arms.push(p).skip(1) =~= arms.skip(1).push(p));
        lemma_int_arms_leaf_push(arms.skip(1), p);
        assert(int_arms_leaf_count(arms.push(p)) == leaf_count(arms[0].1) + int_arms_leaf_count(
            arms.push(p).skip(1),
        ));
        assert(int_arms_leaf_count(arms.push(p).skip(1)) == int_arms_leaf_count(arms.skip(1))
            + leaf_count(p.1));
    }
}

/// What a basic-block statement becomes in the structured tree: storage
/// markers become drops of the bare variable, everything else is carried
/// over.
pub open spec fn ustmt_to_stmt(u: ullbc_ast::UStmtS) -> StmtS {
    match u {
        ullbc_ast::UStmtS::Assign(p, rv) => StmtS::Assign(p, rv),
        ullbc_ast::UStmtS::FakeRead(p) => StmtS::FakeRead(p),
        ullbc_ast::UStmtS::SetDiscriminant(p, vid) => StmtS::SetDiscriminant(p, vid),
        ullbc_ast::UStmtS::StorageDead(vid) => StmtS::Drop(
            crate::expressions::PlaceS { var_id: vid, projection: Seq::empty() },
        ),
        ullbc_ast::UStmtS::Deinit(p) => StmtS::Drop(p),
    }
}

/// Translates one basic-block statement.
fn convert_statement(st: &ullbc_ast::Statement) -> (r: llbc_ast::Statement)
    ensures
        r@ == ustmt_to_stmt(st@),
        plain_stmt(r@),
{
    match &st.content {
        RawStatement::Assign(p, rv) => llbc_ast::Statement {
            content: llbc_ast::RawStatement::Assign(p.clone(), rv.clone()),
        },
        RawStatement::FakeRead(p) => llbc_ast::Statement {
            content: llbc_ast::RawStatement::FakeRead(p.clone()),
        },
        RawStatement::SetDiscriminant(p, vid) => llbc_ast::Statement {
            content: llbc_ast::RawStatement::SetDiscriminant(p.clone(), *vid),
        },
        RawStatement::StorageDead(vid) => llbc_ast::Statement {
            content: llbc_ast::RawStatement::Drop(
                crate::expressions::Place { var_id: *vid, projection: Vec::new() },
            ),
        },
        RawStatement::Deinit(p) => llbc_ast::Statement {
            content: llbc_ast::RawStatement::Drop(p.clone()),
        },
    }
}

/// Builds a boolean conditional statement.
fn mk_if(discr: Operand, a1: llbc_ast::Statement, a2: llbc_ast::Statement) -> (r:
    llbc_ast::Statement)
    ensures
        r@ == StmtS::Switch(SwitchS::If(discr@, Box::new(a1@), Box::new(a2@))),
{
    llbc_ast::Statement {
        content: llbc_ast::RawStatement::Switch(
            llbc_ast::Switch::If(discr, Box::new(a1), Box::new(a2)),
        ),
    }
}

/// Builds a multi-way switch statement.
fn mk_switch_int(
    discr: Operand,
    ity: crate::expressions::IntegerTy,
    arms: Vec<(Vec<ScalarValue>, llbc_ast::Statement)>,
    dflt: llbc_ast::Statement,
) -> (r: llbc_ast::Statement)
    ensures
        r@ == StmtS::Switch(
            SwitchS::SwitchInt(discr@, ity, int_arms_view(arms@), Box::new(dflt@)),
        ),
{
    llbc_ast::Statement {
        content: llbc_ast::RawStatement::Switch(
            llbc_ast::Switch::SwitchInt(discr, ity, arms, Box::new(dflt)),
        ),
    }
}

/// Chains the plain statements of a block, right-associated, in front of a
/// tail statement.  The canonical form and the break bounds of the tail
/// carry over to the chain.
fn chain_stmts(stmts: Vec<llbc_ast::Statement>, tail: llbc_ast::Statement) -> (r:
    llbc_ast::Statement)
    requires
        forall|i: int|
            0 <= i < stmts@.len() ==> plain_stmt(#[trigger] stmts@[i]@) && !(stmts@[i]@ is Nop),
    ensures
        seq_canonical(tail@) ==> seq_canonical(r@),
        forall|d: int| breaks_bounded(tail@, d) ==> #[trigger] breaks_bounded(r@, d),
        leaf_count(r@) == stmts@.len() + leaf_count(tail@),
{
    let ghost n0 = stmts@.len();
    let mut stmts = stmts;
    let mut acc = tail;
    let ghost tail0 = tail@;
    while stmts.len() > 0
        invariant
            stmts@.len() <= n0,
            forall|i: int|
                0 <= i < stmts@.len() ==> plain_stmt(#[trigger] stmts@[i]@) && !(stmts@[i]@
                    is Nop),
            seq_canonical(tail0) ==> seq_canonical(acc@),
            forall|d: int| breaks_bounded(tail0, d) ==> #[trigger] breaks_bounded(acc@, d),
            leaf_count(acc@) == (n0 - stmts@.len()) + leaf_count(tail0),
        decreases stmts@.len(),
    {
        let s = match stmts.pop() {
            Some(s) => s,
            None => {
                proof {
                    assert(false);
                }
                continue ;
            },
        };
        let ghost acc0 = acc@;
        acc = llbc_ast::Statement {
            content: llbc_ast::RawStatement::Sequence(Box::new(s), Box::new(acc)),
        };
        proof {
            assert(plain_stmt(s@));
            assert(acc@ == StmtS::Sequence(Box::new(s@), Box::new(acc0)));
            if seq_canonical(tail0) {
                assert(seq_canonical(s@));
                assert(seq_canonical(acc@));
            }
            assert forall|d: int| breaks_bounded(tail0, d) implies #[trigger] breaks_bounded(
                acc@,
                d,
            ) by {
                assert(breaks_bounded(s@, d));
                assert(breaks_bounded(acc0, d));
            }
            assert(leaf_count(s@) == 1);
            assert(leaf_count(acc@) == leaf_count(s@) + leaf_count(acc0));
        }
    }
    acc
}

/// Whether any loop frame mentions this block, as its header or its exit:
/// an edge to such a block becomes a deeper continue or break rather than
/// an exit of the loop being opened.
fn loop_frames_mention(frames: &Vec<Frame>, t: BlockId) -> bool {
    let mut i: usize = 0;
    while i < frames.len()
        invariant
            i <= frames@.len(),
        decreases frames@.len() - i,
    {
        match frames[i] {
            Frame::LoopFrame { header, exit } => {
                if header == t {
                    return true;
                }
                match exit {
                    Some(e) => {
                        if e == t {
                            return true;
                        }
                    },
                    None => {},
                }
            },
            Frame::JoinFrame { join: _ } => {},
        }
        i = i + 1;
    }
    false
}

/// Whether any frame accounts for this block, as a loop header, a loop
/// exit or a join: an edge to such a block is already resolved by the
/// frame stack, so a switch must not claim it as its own join.
fn frames_mention(frames: &Vec<Frame>, t: BlockId) -> bool {
    let mut i: usize = 0;
    while i < frames.len()
        invariant
            i <= frames@.len(),
        decreases frames@.len() - i,
    {
        match frames[i] {
            Frame::LoopFrame { header, exit } => {
                if header == t {
                    return true;
                }
                match exit {
                    Some(e) => {
                        if e == t {
                            return true;
                        }
                    },
                    None => {},
                }
            },
            Frame::JoinFrame { join } => {
                if join == t {
                    return true;
                }
            },
        }
        i = i + 1;
    }
    false
}

/// Finds the block the branches of `b`'s switch converge to: the child of
/// `b` in the dominator tree with several forward predecessors.  Back-edge
/// predecessors do not count: a loop header inside one branch is no join.
/// No such child means every branch ends in its own terminal statement;
/// more than one means the join cannot be determined.
fn find_join(b: BlockId, blocks: &Vec<BlockData>, g: &CfgInfo) -> (r: Result<
    Option<BlockId>,
    StructuringError,
>)
    requires
        cfg_wf(*g, blocks@),
        b < g.n,
    ensures
        r matches Ok(j) ==> (j matches Some(x) ==> x < g.n),
        r matches Err(e) ==> e is AmbiguousJoin,
{
    let mut join: Option<BlockId> = None;
    let mut c: usize = 0;
    while c < g.n
        invariant
            c <= g.n,
            cfg_wf(*g, blocks@),
            b < g.n,
            join matches Some(x) ==> x < g.n,
        decreases g.n - c,
    {
        let is_child = match g.idom[c] {
            Some(d) => d == b,
            None => false,
        };
        let mut forward_preds: usize = 0;
        let mut pi: usize = 0;
        while pi < g.preds[c].len()
            invariant
                c < g.n,
                cfg_wf(*g, blocks@),
                pi <= g.preds@[c as int]@.len(),
                forward_preds <= pi,
            decreases g.preds@[c as int]@.len() - pi,
        {
            let p = g.preds[c][pi];
            if !g.dom[p][c] {
                forward_preds = forward_preds + 1;
            }
            pi = pi + 1;
        }
        if is_child && forward_preds >= 2 {
            match join {
                None => {
                    join = Some(c);
                },
                Some(_) => {
                    return Err(StructuringError::AmbiguousJoin(b));
                },
            }
        }
        c = c + 1;
    }
    Ok(join)
}

/// Resolves one control-flow edge to block `t`.  An edge back to an
/// enclosing loop header becomes `Continue(k)`; one to an enclosing loop's
/// exit becomes `Break(k)`, with `k` the number of loop frames crossed; one
/// to the innermost join ends the branch with `Nop`.  Any other edge
/// translates the target block inline, provided the target has a single
/// predecessor or heads a loop: a block reachable on a second path would
/// have to be emitted twice, which is refused.
fn tr_edge(
    t: BlockId,
    designated: bool,
    frames: &Vec<Frame>,
    visited: &mut Vec<bool>,
    blocks: &Vec<BlockData>,
    g: &CfgInfo,
) -> (r: Result<llbc_ast::Statement, StructuringError>)
    requires
        cfg_wf(*g, blocks@),
        old(visited)@.len() == g.n,
        t < g.n,
    ensures
        final(visited)@.len() == g.n,
        count_trues(final(visited)@) >= count_trues(old(visited)@),
        forall|j: int| 0 <= j < g.n && old(visited)@[j] ==> final(visited)@[j],
        r matches Ok(st) ==> breaks_bounded(st@, loop_depth(frames@) as int) && seq_canonical(
            st@,
        ),
        r matches Ok(st) ==> leaf_count(st@) == emitted_weight(
            blocks@,
            old(visited)@,
            final(visited)@,
            g.n as int,
        ),
        r matches Err(e) ==> !(e is EmptyBody) && !(e is DanglingBlock),
    decreases g.n - count_trues(visited@), 2int,
{
    proof {
        lemma_count_trues_le_len(visited@);
        lemma_loop_depth_le_len(frames@);
        assert(frames@.take(frames@.len() as int) =~= frames@);
    }
    let ghost fs = frames@;
    let ghost v0 = visited@;
    proof {
        lemma_emitted_weight_refl(blocks@, v0, g.n as int);
    }
    let mut crossed: usize = 0;
    let mut i: usize = frames.len();
    while i > 0
        invariant
            i <= fs.len(),
            frames@ == fs,
            visited@ == v0,
            crossed + loop_depth(fs.take(i as int)) == loop_depth(fs),
        decreases i,
    {
        i = i - 1;
        proof {
            lemma_loop_depth_take_unfold(fs, i as int);
        }
        match frames[i] {
            Frame::LoopFrame { header, exit } => {
                if header == t {
                    proof {
                        assert(crossed < loop_depth(fs));
                    }
                    let st = llbc_ast::Statement {
                        content: llbc_ast::RawStatement::Continue(crossed),
                    };
                    proof {
                        assert(st@ == StmtS::Continue(crossed));
                        assert(leaf_count(st@) == 0);
                        assert(visited@ == v0);
                    }
                    return Ok(st);
                }
                let is_exit = match exit {
                    Some(e) => e == t,
                    None => false,
                };
                if is_exit {
                    proof {
                        assert(crossed < loop_depth(fs));
                    }
                    let st = llbc_ast::Statement {
                        content: llbc_ast::RawStatement::Break(crossed),
                    };
                    proof {
                        assert(st@ == StmtS::Break(crossed));
                        assert(leaf_count(st@) == 0);
                        assert(visited@ == v0);
                    }
                    return Ok(st);
                }
                proof {
                    lemma_loop_depth_le_len(fs);
                }
                crossed = crossed + 1;
            },
            Frame::JoinFrame { join } => {
                if join == t {
                    if crossed == 0 {
                        let st = llbc_ast::Statement { content: llbc_ast::RawStatement::Nop };
                        proof {
                            assert(st@ == StmtS::Nop);
                            assert(leaf_count(st@) == 0);
                            assert(visited@ == v0);
                        }
                        return Ok(st);
                    } else {
                        return Err(StructuringError::Irreducible(t));
                    }
                }
            },
        }
    }
    if visited[t] {
        return Err(StructuringError::Irreducible(t));
    }
    if g.is_header[t] || designated {
        proof {
            lemma_count_trues_le_len(visited@);
        }
        return tr_block(t, frames, visited, blocks, g);
    }
    if g.preds[t].len() <= 1 {
        proof {
            lemma_count_trues_le_len(visited@);
        }
        tr_block(t, frames, visited, blocks, g)
    } else {
        Err(StructuringError::Irreducible(t))
    }
}

/// Translates the region entered at block `b`.  A loop header becomes a
/// `Loop` whose interior is translated under a new loop frame, followed by
/// the translation of the loop's exit block; any other block is translated
/// directly.
fn tr_block(
    b: BlockId,
    frames: &Vec<Frame>,
    visited: &mut Vec<bool>,
    blocks: &Vec<BlockData>,
    g: &CfgInfo,
) -> (r: Result<llbc_ast::Statement, StructuringError>)
    requires
        cfg_wf(*g, blocks@),
        old(visited)@.len() == g.n,
        b < g.n,
    ensures
        final(visited)@.len() == g.n,
        count_trues(final(visited)@) >= count_trues(old(visited)@),
        forall|j: int| 0 <= j < g.n && old(visited)@[j] ==> final(visited)@[j],
        r matches Ok(st) ==> breaks_bounded(st@, loop_depth(frames@) as int) && seq_canonical(
            st@,
        ),
        r matches Ok(st) ==> leaf_count(st@) == emitted_weight(
            blocks@,
            old(visited)@,
            final(visited)@,
            g.n as int,
        ),
        r is Ok ==> final(visited)@[b as int],
        (!old(visited)@[b as int] && !g.is_header@[b as int] && spec_successors(
            blocks@[b as int].terminator.content,
        ).len() == 0) ==> r is Ok,
        r matches Err(e) ==> !(e is EmptyBody) && !(e is DanglingBlock),
    decreases g.n - count_trues(visited@), 1int,
{
    proof {
        lemma_count_trues_le_len(visited@);
    }
    let ghost vb = visited@;
    if visited[b] {
        return Err(StructuringError::Irreducible(b));
    }
    if g.is_header[b] {
        // Determine the single block the loop exits to.  An edge out of the
        // loop that an enclosing frame accounts for is not an exit of this
        // loop: it becomes a deeper break or continue.
        let mut exit: Option<BlockId> = None;
        let mut x: usize = 0;
        while x < g.n
            invariant
                x <= g.n,
                cfg_wf(*g, blocks@),
                b < g.n,
                visited@ == vb,
                exit matches Some(e) ==> e < g.n,
            decreases g.n - x,
        {
            let in_loop_x = {
                let lb = &g.loop_body[b];
                lb[x]
            };
            if in_loop_x {
                let mut j: usize = 0;
                while j < g.succs[x].len()
                    invariant
                        x < g.n,
                        b < g.n,
                        cfg_wf(*g, blocks@),
                        j <= g.succs@[x as int]@.len(),
                        visited@ == vb,
                        exit matches Some(e) ==> e < g.n,
                    decreases g.succs@[x as int]@.len() - j,
                {
                    let t2 = g.succs[x][j];
                    let t2_in_loop = {
                        let lb = &g.loop_body[b];
                        lb[t2]
                    };
                    if !t2_in_loop && !loop_frames_mention(frames, t2) {
                        match exit {
                            None => {
                                exit = Some(t2);
                            },
                            Some(e) => {
                                if e != t2 {
                                    return Err(StructuringError::AmbiguousLoopExit(b));
                                }
                            },
                        }
                    }
                    j = j + 1;
                }
            }
            x = x + 1;
        }
        let frames2 = push_frame(frames, Frame::LoopFrame { header: b, exit });
        proof {
            lemma_loop_depth_push(frames@, Frame::LoopFrame { header: b, exit });
        }
        proof {
            lemma_count_trues_le_len(visited@);
        }
        let body = match tr_body(b, &frames2, visited, blocks, g) {
            Ok(s) => s,
            Err(e) => {
                return Err(e);
            },
        };
        let ghost v1 = visited@;
        let loop_stmt = llbc_ast::Statement {
            content: llbc_ast::RawStatement::Loop(Box::new(body)),
        };
        proof {
            assert(loop_stmt@ == StmtS::Loop(Box::new(body@)));
            assert(breaks_bounded(loop_stmt@, loop_depth(frames@) as int));
            assert(seq_canonical(loop_stmt@));
            assert(leaf_count(loop_stmt@) == leaf_count(body@));
        }
        match exit {
            None => Ok(loop_stmt),
            Some(e) => {
                proof {
                    lemma_count_trues_le_len(visited@);
                }
                let rest = match tr_edge(e, true, frames, visited, blocks, g) {
                    Ok(s) => s,
                    Err(er) => {
                        return Err(er);
                    },
                };
                let out = llbc_ast::Statement {
                    content: llbc_ast::RawStatement::Sequence(
                        Box::new(loop_stmt),
                        Box::new(rest),
                    ),
                };
                proof {
                    assert(out@ == StmtS::Sequence(Box::new(loop_stmt@), Box::new(rest@)));
                    assert(breaks_bounded(out@, loop_depth(frames@) as int));
                    assert(seq_canonical(out@));
                    assert(leaf_count(out@) == leaf_count(loop_stmt@) + leaf_count(rest@));
                    lemma_emitted_weight_chain(blocks@, vb, v1, visited@, g.n as int);
                }
                Ok(out)
            },
        }
    } else {
        tr_body(b, frames, visited, blocks, g)
    }
}

/// Translates the statements and the terminator of block `b` itself,
/// marking the block as emitted.
fn tr_body(
    b: BlockId,
    frames: &Vec<Frame>,
    visited: &mut Vec<bool>,
    blocks: &Vec<BlockData>,
    g: &CfgInfo,
) -> (r: Result<llbc_ast::Statement, StructuringError>)
    requires
        cfg_wf(*g, blocks@),
        old(visited)@.len() == g.n,
        b < g.n,
        !old(visited)@[b as int],
    ensures
        final(visited)@.len() == g.n,
        count_trues(final(visited)@) >= count_trues(old(visited)@) + 1,
        forall|j: int| 0 <= j < g.n && old(visited)@[j] ==> final(visited)@[j],
        final(visited)@[b as int],
        r matches Ok(st) ==> breaks_bounded(st@, loop_depth(frames@) as int) && seq_canonical(
            st@,
        ),
        r matches Ok(st) ==> leaf_count(st@) == emitted_weight(
            blocks@,
            old(visited)@,
            final(visited)@,
            g.n as int,
        ),
        spec_successors(blocks@[b as int].terminator.content).len() == 0 ==> r is Ok,
        r matches Err(e) ==> !(e is EmptyBody) && !(e is DanglingBlock),
    decreases g.n - count_trues(visited@), 0int,
{
    proof {
        lemma_count_trues_le_len(visited@);
    }
    let ghost v0 = visited@;
    visited.set(b, true);
    proof {
        lemma_count_trues_update(v0, b as int);
        lemma_emitted_weight_update(blocks@, v0, b as int, g.n as int);
    }
    let ghost v1 = visited@;
    let ghost depth = loop_depth(frames@) as int;
    let mut stmts: Vec<llbc_ast::Statement> = Vec::new();
    let nstmts = blocks[b].statements.len();
    let mut si: usize = 0;
    while si < nstmts
        invariant
            cfg_wf(*g, blocks@),
            b < g.n,
            nstmts == blocks@[b as int].statements@.len(),
            si <= nstmts,
            stmts@.len() == si,
            visited@ == v0.update(b as int, true),
            forall|k: int|
                0 <= k < stmts@.len() ==> plain_stmt(#[trigger] stmts@[k]@) && !(stmts@[k]@
                    is Nop),
        decreases nstmts - si,
    {
        stmts.push(convert_statement(&blocks[b].statements[si]));
        si = si + 1;
    }
    match &blocks[b].terminator.content {
        RawTerminator::Goto { target } => {
            proof {
                assert(g.succs@[b as int]@[0] == *target);
            }
            proof {
                lemma_count_trues_le_len(visited@);
            }
            let tail = match tr_edge(*target, false, frames, visited, blocks, g) {
                Ok(s) => s,
                Err(e) => {
                    return Err(e);
                },
            };
            proof {
                lemma_emitted_weight_chain(blocks@, v0, v1, visited@, g.n as int);
            }
            Ok(chain_stmts(stmts, tail))
        },
        RawTerminator::Panic => {
            let tail = llbc_ast::Statement { content: llbc_ast::RawStatement::Panic };
            proof {
                lemma_emitted_weight_refl(blocks@, visited@, g.n as int);
            }
            Ok(chain_stmts(stmts, tail))
        },
        RawTerminator::Unreachable => {
            let tail = llbc_ast::Statement { content: llbc_ast::RawStatement::Panic };
            proof {
                lemma_emitted_weight_refl(blocks@, visited@, g.n as int);
            }
            Ok(chain_stmts(stmts, tail))
        },
        RawTerminator::Return => {
            let tail = llbc_ast::Statement { content: llbc_ast::RawStatement::Return };
            proof {
                lemma_emitted_weight_refl(blocks@, visited@, g.n as int);
            }
            Ok(chain_stmts(stmts, tail))
        },
        RawTerminator::Drop { place, target } => {
            proof {
                assert(g.succs@[b as int]@[0] == *target);
            }
            let d = llbc_ast::Statement { content: llbc_ast::RawStatement::Drop(place.clone()) };
            proof {
                assert(plain_stmt(d@));
            }
            stmts.push(d);
            proof {
                lemma_count_trues_le_len(visited@);
            }
            let tail = match tr_edge(*target, false, frames, visited, blocks, g) {
                Ok(s) => s,
                Err(e) => {
                    return Err(e);
                },
            };
            proof {
                lemma_emitted_weight_chain(blocks@, v0, v1, visited@, g.n as int);
            }
            Ok(chain_stmts(stmts, tail))
        },
        RawTerminator::Call { func, region_args, type_args, args, dest, target } => {
            proof {
                assert(g.succs@[b as int]@[0] == *target);
            }
            let call = llbc_ast::Call {
                func: *func,
                region_args: copy_vec(region_args),
                type_args: copy_vec(type_args),
                args: crate::expressions::clone_operands(args),
                dest: dest.clone(),
            };
            let c = llbc_ast::Statement { content: llbc_ast::RawStatement::Call(call) };
            proof {
                assert(plain_stmt(c@));
            }
            stmts.push(c);
            proof {
                lemma_count_trues_le_len(visited@);
            }
            let tail = match tr_edge(*target, false, frames, visited, blocks, g) {
                Ok(s) => s,
                Err(e) => {
                    return Err(e);
                },
            };
            proof {
                lemma_emitted_weight_chain(blocks@, v0, v1, visited@, g.n as int);
            }
            Ok(chain_stmts(stmts, tail))
        },
        RawTerminator::Assert { cond, expected, target } => {
            proof {
                assert(g.succs@[b as int]@[0] == *target);
            }
            let a = llbc_ast::Statement {
                content: llbc_ast::RawStatement::Assert(
                    llbc_ast::Assert { cond: cond.clone(), expected: *expected },
                ),
            };
            proof {
                assert(plain_stmt(a@));
            }
            stmts.push(a);
            proof {
                lemma_count_trues_le_len(visited@);
            }
            let tail = match tr_edge(*target, false, frames, visited, blocks, g) {
                Ok(s) => s,
                Err(e) => {
                    return Err(e);
                },
            };
            proof {
                lemma_emitted_weight_chain(blocks@, v0, v1, visited@, g.n as int);
            }
            Ok(chain_stmts(stmts, tail))
        },
        RawTerminator::Switch { discr, targets } => match targets {
            SwitchTargets::If(t1, t2) => {
                proof {
                    assert(g.succs@[b as int]@[0] == *t1);
                    assert(g.succs@[b as int]@[1] == *t2);
                }
                proof {
                    lemma_count_trues_le_len(visited@);
                }
                let r_sw = tr_switch_if(b, discr, *t1, *t2, stmts, frames, visited, blocks, g);
                proof {
                    lemma_emitted_weight_chain(blocks@, v0, v1, visited@, g.n as int);
                }
                r_sw
            },
            SwitchTargets::SwitchInt(ity, map, otherwise) => {
                let ghost row = g.succs@[b as int]@;
                proof {
                    assert(row == crate::ullbc_ast::spec_successors(
                        blocks@[b as int].terminator.content,
                    ));
                    let es = crate::ordered_map::map_entries(*map);
                    assert(row.len() == es.len() + 1);
                    assert(row[es.len() as int] == *otherwise);
                    assert forall|k: int| 0 <= k < es.len() implies (#[trigger] es[k]).1
                        < g.n by {
                        assert(row[k] == es.map_values(|e: (u128, usize)| e.1)[k]);
                        assert(row[k] == es[k].1);
                    }
                    assert(*otherwise < g.n);
                }
                proof {
                    lemma_count_trues_le_len(visited@);
                }
                let r_sw = tr_switch_int(
                    b,
                    discr,
                    *ity,
                    map,
                    *otherwise,
                    stmts,
                    frames,
                    visited,
                    blocks,
                    g,
                );
                proof {
                    lemma_emitted_weight_chain(blocks@, v0, v1, visited@, g.n as int);
                }
                r_sw
            },
        },
    }
}

/// Translates a boolean switch ending block `b`: the two branches, their
/// join where one exists, and the block's statements in front.
#[verifier::rlimit(60)]
fn tr_switch_if(
    b: BlockId,
    discr: &Operand,
    t1: BlockId,
    t2: BlockId,
    stmts: Vec<llbc_ast::Statement>,
    frames: &Vec<Frame>,
    visited: &mut Vec<bool>,
    blocks: &Vec<BlockData>,
    g: &CfgInfo,
) -> (r: Result<llbc_ast::Statement, StructuringError>)
    requires
        cfg_wf(*g, blocks@),
        old(visited)@.len() == g.n,
        b < g.n,
        t1 < g.n,
        t2 < g.n,
        forall|k: int|
            0 <= k < stmts@.len() ==> plain_stmt(#[trigger] stmts@[k]@) && !(stmts@[k]@ is Nop),
    ensures
        final(visited)@.len() == g.n,
        count_trues(final(visited)@) >= count_trues(old(visited)@),
        forall|j: int| 0 <= j < g.n && old(visited)@[j] ==> final(visited)@[j],
        r matches Ok(st) ==> breaks_bounded(st@, loop_depth(frames@) as int) && seq_canonical(
            st@,
        ),
        r matches Ok(st) ==> leaf_count(st@) == stmts@.len() + emitted_weight(
            blocks@,
            old(visited)@,
            final(visited)@,
            g.n as int,
        ),
        r matches Err(e) ==> !(e is EmptyBody) && !(e is DanglingBlock),
    decreases g.n - count_trues(visited@), 3int,
{
    proof {
        lemma_count_trues_le_len(visited@);
    }
    let ghost vsi = visited@;
    let ghost depth = loop_depth(frames@) as int;
            if t1 == t2 {
                // Both arms go to the same block: the conditional decides
                // nothing, its arms are empty and control continues at
                // the common target.
                let sw = mk_if(
                    discr.clone(),
                    llbc_ast::Statement { content: llbc_ast::RawStatement::Nop },
                    llbc_ast::Statement { content: llbc_ast::RawStatement::Nop },
                );
                let ghost swv = sw@;
                proof {
                    assert(swv == StmtS::Switch(
                        SwitchS::If(discr@, Box::new(StmtS::Nop), Box::new(StmtS::Nop)),
                    ));
                    assert(breaks_bounded(StmtS::Nop, depth));
                    assert(seq_canonical(StmtS::Nop));
                    assert(crate::llbc_ast::switch_breaks_bounded(
                        SwitchS::If(discr@, Box::new(StmtS::Nop), Box::new(StmtS::Nop)),
                        depth,
                    ));
                    assert(crate::llbc_ast::switch_canonical(
                        SwitchS::If(discr@, Box::new(StmtS::Nop), Box::new(StmtS::Nop)),
                    ));
                    assert(breaks_bounded(swv, depth));
                    assert(seq_canonical(swv));
                    lemma_count_trues_le_len(visited@);
                }
                let rest = match tr_edge(t1, false, frames, visited, blocks, g) {
                    Ok(s) => s,
                    Err(e) => {
                        return Err(e);
                    },
                };
                let ghost restv = rest@;
                let tail = llbc_ast::Statement {
                    content: llbc_ast::RawStatement::Sequence(Box::new(sw), Box::new(rest)),
                };
                proof {
                    assert(tail@ == StmtS::Sequence(Box::new(swv), Box::new(restv)));
                    assert(breaks_bounded(tail@, depth));
                    assert(seq_canonical(tail@));
                    assert(leaf_count(StmtS::Nop) == 0);
                    assert(crate::ullbc_to_llbc::switch_leaf_count(
                        SwitchS::If(discr@, Box::new(StmtS::Nop), Box::new(StmtS::Nop)),
                    ) == 0);
                    assert(leaf_count(swv) == 0);
                    assert(leaf_count(tail@) == leaf_count(restv));
                }
                Ok(chain_stmts(stmts, tail))
            } else {
                let join = match find_join(b, blocks, g) {
                    Ok(j) => j,
                    Err(e) => {
                        return Err(e);
                    },
                };
                // A join that an enclosing frame already accounts for is
                // not this switch's own: edges to it resolve through the
                // frame stack.
                let join = match join {
                    Some(j) => if frames_mention(frames, j) {
                        None
                    } else {
                        Some(j)
                    },
                    None => None,
                };
                let frames2 = match join {
                    Some(j) => push_frame(frames, Frame::JoinFrame { join: j }),
                    None => copy_vec(frames),
                };
                proof {
                    if join is Some {
                        lemma_loop_depth_push(
                            frames@,
                            Frame::JoinFrame { join: join->Some_0 },
                        );
                    }
                    assert(loop_depth(frames2@) == loop_depth(frames@));
                }
                proof {
                    lemma_count_trues_le_len(visited@);
                }
                let a1 = match tr_edge(t1, false, &frames2, visited, blocks, g) {
                    Ok(s) => s,
                    Err(e) => {
                        return Err(e);
                    },
                };
                let ghost va1 = visited@;
                proof {
                    lemma_count_trues_le_len(visited@);
                }
                let a2 = match tr_edge(t2, false, &frames2, visited, blocks, g) {
                    Ok(s) => s,
                    Err(e) => {
                        return Err(e);
                    },
                };
                let ghost va2 = visited@;
                proof {
                    lemma_emitted_weight_chain(blocks@, vsi, va1, va2, g.n as int);
                }
                let ghost a1v = a1@;
                let ghost a2v = a2@;
                let sw = mk_if(discr.clone(), a1, a2);
                let ghost swv = sw@;
                proof {
                    assert(swv == StmtS::Switch(
                        SwitchS::If(discr@, Box::new(a1v), Box::new(a2v)),
                    ));
                    assert(breaks_bounded(a1v, depth));
                    assert(breaks_bounded(a2v, depth));
                    assert(seq_canonical(a1v));
                    assert(seq_canonical(a2v));
                    assert(crate::llbc_ast::switch_breaks_bounded(
                        SwitchS::If(discr@, Box::new(a1v), Box::new(a2v)),
                        depth,
                    ));
                    assert(crate::llbc_ast::switch_canonical(
                        SwitchS::If(discr@, Box::new(a1v), Box::new(a2v)),
                    ));
                    assert(breaks_bounded(swv, depth));
                    assert(seq_canonical(swv));
                    assert(crate::ullbc_to_llbc::switch_leaf_count(
                        SwitchS::If(discr@, Box::new(a1v), Box::new(a2v)),
                    ) == leaf_count(a1v) + leaf_count(a2v));
                    assert(leaf_count(swv) == leaf_count(a1v) + leaf_count(a2v));
                }
                let tail = match join {
                    None => sw,
                    Some(j) => {
                        proof {
                            lemma_count_trues_le_len(visited@);
                        }
                        let rest = match tr_block(j, frames, visited, blocks, g) {
                            Ok(s) => s,
                            Err(e) => {
                                return Err(e);
                            },
                        };
                        let ghost restv = rest@;
                        let t = llbc_ast::Statement {
                            content: llbc_ast::RawStatement::Sequence(
                                Box::new(sw),
                                Box::new(rest),
                            ),
                        };
                        proof {
                            assert(t@ == StmtS::Sequence(Box::new(swv), Box::new(restv)));
                            assert(leaf_count(t@) == leaf_count(swv) + leaf_count(restv));
                            lemma_emitted_weight_chain(blocks@, vsi, va2, visited@, g.n as int);
                        }
                        t
                    },
                };
                proof {
                    assert(breaks_bounded(tail@, depth));
                    assert(seq_canonical(tail@));
                }
                Ok(chain_stmts(stmts, tail))
            }
}

/// Translates a multi-way integer switch ending block `b`: one branch per
/// distinct target (with the values that share it grouped, in source
/// order), the default branch, their join where one exists, and the
/// block's statements in front.
#[verifier::rlimit(60)]
fn tr_switch_int(
    b: BlockId,
    discr: &Operand,
    ity: crate::expressions::IntegerTy,
    map: &hashlink::LinkedHashMap<u128, usize>,
    otherwise: BlockId,
    stmts: Vec<llbc_ast::Statement>,
    frames: &Vec<Frame>,
    visited: &mut Vec<bool>,
    blocks: &Vec<BlockData>,
    g: &CfgInfo,
) -> (r: Result<llbc_ast::Statement, StructuringError>)
    requires
        cfg_wf(*g, blocks@),
        old(visited)@.len() == g.n,
        b < g.n,
        otherwise < g.n,
        forall|k: int|
            0 <= k < crate::ordered_map::map_entries(*map).len() ==> (
            #[trigger] crate::ordered_map::map_entries(*map)[k]).1 < g.n,
        forall|k: int|
            0 <= k < stmts@.len() ==> plain_stmt(#[trigger] stmts@[k]@) && !(stmts@[k]@ is Nop),
    ensures
        final(visited)@.len() == g.n,
        count_trues(final(visited)@) >= count_trues(old(visited)@),
        forall|j: int| 0 <= j < g.n && old(visited)@[j] ==> final(visited)@[j],
        r matches Ok(st) ==> breaks_bounded(st@, loop_depth(frames@) as int) && seq_canonical(
            st@,
        ),
        r matches Ok(st) ==> leaf_count(st@) == stmts@.len() + emitted_weight(
            blocks@,
            old(visited)@,
            final(visited)@,
            g.n as int,
        ),
        r matches Err(e) ==> !(e is EmptyBody) && !(e is DanglingBlock),
    decreases g.n - count_trues(visited@), 3int,
{
    proof {
        lemma_count_trues_le_len(visited@);
    }
    let ghost vs0 = visited@;
    let ghost depth = loop_depth(frames@) as int;
        let entries = crate::ordered_map::targets_entries(map);
        proof {
        assert(entries@ == crate::ordered_map::map_entries(*map));
    }
    // Distinct targets, in first-occurrence order; values that
        // fall to the default target need no arm of their own.
        let mut tvec: Vec<BlockId> = Vec::new();
        let mut j: usize = 0;
        while j < entries.len()
            invariant
                j <= entries@.len(),
                visited@ == vs0,
                forall|k: int| 0 <= k < entries@.len() ==> #[trigger] entries@[k].1 < g.n,
                forall|k: int| 0 <= k < tvec@.len() ==> #[trigger] tvec@[k] < g.n,
            decreases entries@.len() - j,
        {
            let tgt = entries[j].1;
            if tgt != otherwise && !crate::graph::contains_id(&tvec, tgt) {
                tvec.push(tgt);
            }
            j = j + 1;
        }
        let join = match find_join(b, blocks, g) {
            Ok(j2) => j2,
            Err(e) => {
                return Err(e);
            },
        };
        // A join that an enclosing frame already accounts for is not this
        // switch's own: edges to it resolve through the frame stack.
        let join = match join {
            Some(j2) => if frames_mention(frames, j2) {
                None
            } else {
                Some(j2)
            },
            None => None,
        };
        let frames2 = match join {
            Some(j2) => push_frame(frames, Frame::JoinFrame { join: j2 }),
            None => copy_vec(frames),
        };
        proof {
            if join is Some {
                lemma_loop_depth_push(frames@, Frame::JoinFrame { join: join->Some_0 });
            }
            assert(loop_depth(frames2@) == loop_depth(frames@));
        }
        let mut arms: Vec<(Vec<ScalarValue>, llbc_ast::Statement)> = Vec::new();
        proof {
            assert(int_arms_view(arms@) =~= Seq::<(Seq<ScalarValue>, StmtS)>::empty());
            assert(int_arms_leaf_count(int_arms_view(arms@)) == 0);
            lemma_emitted_weight_refl(blocks@, vs0, g.n as int);
        }
        let mut gi: usize = 0;
        while gi < tvec.len()
            invariant
                cfg_wf(*g, blocks@),
                gi <= tvec@.len(),
                visited@.len() == g.n,
                count_trues(visited@) >= count_trues(vs0),
                forall|j2: int| 0 <= j2 < g.n && vs0[j2] ==> visited@[j2],
                int_arms_leaf_count(int_arms_view(arms@)) == emitted_weight(
                    blocks@,
                    vs0,
                    visited@,
                    g.n as int,
                ),
                loop_depth(frames2@) == loop_depth(frames@),
                depth == loop_depth(frames@) as int,
                forall|k: int| 0 <= k < tvec@.len() ==> #[trigger] tvec@[k] < g.n,
                forall|k: int|
                    0 <= k < arms@.len() ==> breaks_bounded(
                        (#[trigger] arms@[k]).1@,
                        depth,
                    ) && seq_canonical(arms@[k].1@),
            decreases tvec@.len() - gi,
        {
            let tgt = tvec[gi];
            let mut vals: Vec<ScalarValue> = Vec::new();
            let mut k: usize = 0;
            let ghost va = visited@;
            let ghost armsprev = arms@;
            while k < entries.len()
                invariant
                    k <= entries@.len(),
                    visited@ == va,
                    arms@ == armsprev,
                decreases entries@.len() - k,
            {
                if entries[k].1 == tgt {
                    vals.push(scalar_of_bits(ity, entries[k].0));
                }
                k = k + 1;
            }
            proof {
                lemma_count_trues_le_len(visited@);
            }
            let arm = match tr_edge(tgt, false, &frames2, visited, blocks, g) {
                Ok(s) => s,
                Err(e) => {
                    return Err(e);
                },
            };
            let ghost armv = arm@;
            arms.push((vals, arm));
            proof {
                assert(arms@ == armsprev.push(arms@.last()));
                assert(arms@.last().1@ == armv);
                llbc_ast::lemma_int_arms_view_push(armsprev, arms@.last());
                lemma_int_arms_leaf_push(
                    int_arms_view(armsprev),
                    (arms@.last().0@, arms@.last().1@),
                );
                lemma_emitted_weight_chain(blocks@, vs0, va, visited@, g.n as int);
                assert(int_arms_leaf_count(int_arms_view(arms@)) == emitted_weight(
                    blocks@,
                    vs0,
                    visited@,
                    g.n as int,
                ));
            }
            gi = gi + 1;
        }
        proof {
            lemma_count_trues_le_len(visited@);
        }
        let ghost vd = visited@;
        let dflt = match tr_edge(otherwise, false, &frames2, visited, blocks, g) {
            Ok(s) => s,
            Err(e) => {
                return Err(e);
            },
        };
        proof {
            lemma_emitted_weight_chain(blocks@, vs0, vd, visited@, g.n as int);
        }
        let ghost armsv = arms@;
        let ghost dfltv = dflt@;
        let sw = mk_switch_int(discr.clone(), ity, arms, dflt);
        let ghost swv = sw@;
        proof {
            llbc_ast::lemma_int_arms_view_index(armsv);
            assert(swv == StmtS::Switch(
                SwitchS::SwitchInt(discr@, ity, int_arms_view(armsv), Box::new(dfltv)),
            ));
            assert(breaks_bounded(dfltv, depth));
            assert(seq_canonical(dfltv));
            assert forall|k: int|
                0 <= k < int_arms_view(armsv).len() implies breaks_bounded(
                (#[trigger] int_arms_view(armsv)[k]).1,
                depth,
            ) && seq_canonical(int_arms_view(armsv)[k].1) by {
                assert(int_arms_view(armsv)[k] == (armsv[k].0@, armsv[k].1@));
            }
            assert(crate::llbc_ast::switch_breaks_bounded(
                SwitchS::SwitchInt(discr@, ity, int_arms_view(armsv), Box::new(dfltv)),
                depth,
            ));
            assert(crate::llbc_ast::switch_canonical(
                SwitchS::SwitchInt(discr@, ity, int_arms_view(armsv), Box::new(dfltv)),
            ));
            assert(breaks_bounded(swv, depth));
            assert(seq_canonical(swv));
            assert(crate::ullbc_to_llbc::switch_leaf_count(
                SwitchS::SwitchInt(discr@, ity, int_arms_view(armsv), Box::new(dfltv)),
            ) == int_arms_leaf_count(int_arms_view(armsv)) + leaf_count(dfltv));
            assert(leaf_count(swv) == int_arms_leaf_count(int_arms_view(armsv)) + leaf_count(
                dfltv,
            ));
        }
        let ghost vsw = visited@;
        let tail = match join {
            None => sw,
            Some(j2) => {
                proof {
                    lemma_count_trues_le_len(visited@);
                }
                let rest = match tr_block(j2, frames, visited, blocks, g) {
                    Ok(s) => s,
                    Err(e) => {
                        return Err(e);
                    },
                };
                let ghost restv = rest@;
                let t = llbc_ast::Statement {
                    content: llbc_ast::RawStatement::Sequence(
                        Box::new(sw),
                        Box::new(rest),
                    ),
                };
                proof {
                    assert(t@ == StmtS::Sequence(Box::new(swv), Box::new(restv)));
                    assert(leaf_count(t@) == leaf_count(swv) + leaf_count(restv));
                    lemma_emitted_weight_chain(blocks@, vs0, vsw, visited@, g.n as int);
                }
                t
            },
        };
        proof {
            assert(breaks_bounded(tail@, depth));
            assert(seq_canonical(tail@));
        }
        Ok(chain_stmts(stmts, tail))
}

/// The tree's plain statements are accounted for by a set of emitted
/// blocks: the entry block is emitted, and the tree holds exactly the
/// statements and terminator statements of the emitted blocks.
pub open spec fn emission_accounts(
    blocks: Seq<BlockData>,
    tree: StmtS,
    emitted: Seq<bool>,
) -> bool {
    &&& emitted.len() == blocks.len()
    &&& blocks.len() > 0 ==> emitted[0]
    &&& leaf_count(tree) == emitted_weight(
        blocks,
        Seq::new(blocks.len(), |i: int| false),
        emitted,
        blocks.len() as int,
    )
}

/// Reconstructs structured control flow for one body: nested conditionals,
/// switches and loops, with breaks and continues in place of the graph's
/// edges, and each block's statements emitted exactly once.
///
/// A body with no blocks or with a dangling block reference is rejected,
/// with those errors exactly; the other failures report a merge the
/// documented traversal cannot express.  In every tree returned, each
/// `Break(n)`/`Continue(n)` references one of its enclosing loops, no
/// `Sequence` has a `Sequence` as its first component, and the tree's
/// statements are exactly those of a set of emitted blocks containing the
/// entry.
pub fn translate_body(blocks: &Vec<BlockData>) -> (r: Result<
    llbc_ast::Statement,
    StructuringError,
>)
    ensures
        (r == Err::<llbc_ast::Statement, StructuringError>(StructuringError::EmptyBody))
            <==> blocks@.len() == 0,
        (r matches Err(e) && e is DanglingBlock) <==> (blocks@.len() >= 1
            && !crate::graph::well_targeted(blocks@)),
        r matches Err(e) ==> (e matches StructuringError::DanglingBlock(t)
            ==> crate::graph::dangling_target(blocks@, t)),
        blocks@.len() == 1 && spec_successors(blocks@[0].terminator.content).len() == 0 ==> r
            is Ok,
        r matches Ok(st) ==> breaks_bounded(st@, 0) && seq_canonical(st@),
        r matches Ok(st) ==> exists|emitted: Seq<bool>|
            #[trigger] emission_accounts(blocks@, st@, emitted),
{
    if blocks.len() == 0 {
        return Err(StructuringError::EmptyBody);
    }
    let g = match build_cfg_info(blocks) {
        Ok(g) => g,
        Err(t) => {
            return Err(StructuringError::DanglingBlock(t));
        },
    };
    let ghost ga = g;
    let mut visited = crate::graph::filled(g.n, false);
    let ghost v0 = visited@;
    let frames: Vec<Frame> = Vec::new();
    proof {
        assert(frames@ =~= Seq::<Frame>::empty());
        assert(loop_depth(frames@) == 0);
        if blocks@.len() == 1 && spec_successors(blocks@[0].terminator.content).len() == 0 {
            assert(!ga.is_header@[0]) by {
                if crate::graph::has_back_edge_to(ga.succs@, ga.dom@, ga.reachable@, 0) {
                    let b2 = choose|b2: int|
                        0 <= b2 < ga.succs@.len() && ga.reachable@[b2] && ga.dom@[b2]@[0]
                            && #[trigger] crate::graph::has_edge(ga.succs@, b2, 0);
                    let j2 = choose|j2: int|
                        0 <= j2 < ga.succs@[b2]@.len() && #[trigger] ga.succs@[b2]@[j2] == 0;
                }
            }
        }
    }
    let r = tr_block(0, &frames, &mut visited, blocks, &g);
    proof {
        if r is Ok {
            assert(v0 =~= Seq::new(blocks@.len(), |i: int| false));
            assert(emission_accounts(blocks@, r->Ok_0@, visited@));
        }
    }
    r
}

/// Reconstructs structured control flow for one function body, keeping its
/// locals and argument count.
pub fn translate_expr_body(body: &ullbc_ast::ExprBody) -> (r: Result<
    llbc_ast::ExprBody,
    StructuringError,
>)
    ensures
        (r matches Err(e) && e is EmptyBody) <==> body.blocks@.len() == 0,
        (r matches Err(e) && e is DanglingBlock) <==> (body.blocks@.len() >= 1
            && !crate::graph::well_targeted(body.blocks@)),
        r matches Err(e) ==> (e matches StructuringError::DanglingBlock(t)
            ==> crate::graph::dangling_target(body.blocks@, t)),
        body.blocks@.len() == 1 && spec_successors(body.blocks@[0].terminator.content).len() == 0
            ==> r is Ok,
        r matches Ok(eb) ==> {
            &&& breaks_bounded(eb.body@, 0)
            &&& seq_canonical(eb.body@)
            &&& eb.arg_count == body.arg_count
            &&& eb.locals@ == body.locals@
            &&& exists|emitted: Seq<bool>|
                #[trigger] emission_accounts(body.blocks@, eb.body@, emitted)
        },
{
    match translate_body(&body.blocks) {
        Ok(st) => Ok(
            llbc_ast::ExprBody {
                arg_count: body.arg_count,
                locals: copy_vec(&body.locals),
                body: st,
            },
        ),
        Err(e) => Err(e),
    }
}

/// A structuring failure, identifying the function it concerns.
#[derive(Debug, Clone, Copy, PartialEq, Eq, Structural)]
pub struct StructuringFailure {
    pub def_id: FunDeclId,
    pub error: StructuringError,
}

/// What the translation of one declaration owes to its source: the same
/// identifier and a tree with bounded breaks, in canonical form, accounted
/// for by an emitted block set — or a failure naming that declaration,
/// empty and dangling bodies reported as exactly that, and success owed to
/// a body of one block without successors.
pub open spec fn decl_structured(
    orig: ullbc_ast::FunDecl,
    r: Result<llbc_ast::FunDecl, StructuringFailure>,
) -> bool {
    &&& match r {
        Ok(d) => {
            &&& d.def_id == orig.def_id
            &&& breaks_bounded(d.body@, 0)
            &&& seq_canonical(d.body@)
            &&& exists|emitted: Seq<bool>|
                #[trigger] emission_accounts(orig.body.blocks@, d.body@, emitted)
        },
        Err(f) => f.def_id == orig.def_id,
    }
    &&& (r matches Err(f) && f.error is EmptyBody) <==> orig.body.blocks@.len() == 0
    &&& (r matches Err(f) && f.error is DanglingBlock) <==> (orig.body.blocks@.len() >= 1
        && !crate::graph::well_targeted(orig.body.blocks@))
    &&& orig.body.blocks@.len() == 1 && spec_successors(
        orig.body.blocks@[0].terminator.content,
    ).len() == 0 ==> r is Ok
}

/// Reconstructs structured control flow for every declaration, best-effort:
/// one declaration's failure is reported in its slot and does not disturb
/// the others.
pub fn translate_decls(defs: &Vec<ullbc_ast::FunDecl>) -> (r: Vec<
    Result<llbc_ast::FunDecl, StructuringFailure>,
>)
    ensures
        r@.len() == defs@.len(),
        forall|i: int| 0 <= i < defs@.len() ==> decl_structured(defs@[i], #[trigger] r@[i]),
{
    let mut out: Vec<Result<llbc_ast::FunDecl, StructuringFailure>> = Vec::new();
    let mut i: usize = 0;
    while i < defs.len()
        invariant
            i <= defs@.len(),
            out@.len() == i,
            forall|k: int| 0 <= k < i ==> decl_structured(defs@[k], #[trigger] out@[k]),
        decreases defs@.len() - i,
    {
        let d = &defs[i];
        match translate_body(&d.body.blocks) {
            Ok(st) => {
                out.push(Ok(llbc_ast::FunDecl { def_id: d.def_id, body: st }));
            },
            Err(e) => {
                out.push(Err(StructuringFailure { def_id: d.def_id, error: e }));
            },
        }
        i = i + 1;
    }
    out
}

} // verus!

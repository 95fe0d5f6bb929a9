//! Control-flow-graph analyses over basic-block bodies: reachability,
//! iterative dominators, back edges and natural loops.
//!
//! The structuring engine steers by this information.  [`cfg_wf`] states
//! the shape of the tables (one entry per block, stored ids in range, the
//! successor rows equal to the terminators' targets) and [`cfg_analyses`]
//! what they mean: the predecessor rows list the edge sources exactly, the
//! headers are exactly the back-edge targets, a natural loop holds its
//! header, its back-edge sources and only blocks the header dominates, and
//! an immediate dominator is a strict dominator with the largest dominator
//! set.  The reachable set is pinned as the least set containing the entry
//! closed under successors, and the dominator sets as the greatest solution
//! of the standard dataflow equations: the dominance relation.

use vstd::prelude::*;

use crate::ullbc_ast::{spec_successors, BlockData, BlockId};

verus! {

/// Per-body graph information: successors, predecessors, reachability,
/// dominators and natural loops.
pub struct CfgInfo {
    /// The number of blocks.
    pub n: usize,
    /// Successor lists, in terminator order (with duplicates kept).
    pub succs: Vec<Vec<BlockId>>,
    /// Distinct predecessors of each block.
    pub preds: Vec<Vec<BlockId>>,
    /// Whether a block is reachable from the entry block.
    pub reachable: Vec<bool>,
    /// `dom[b][d]`: block `d` dominates block `b`.
    pub dom: Vec<Vec<bool>>,
    /// The immediate dominator of each reachable block other than the entry.
    pub idom: Vec<Option<BlockId>>,
    /// Whether a block is the target of a back edge: a natural loop header.
    pub is_header: Vec<bool>,
    /// `loop_body[h][x]`: block `x` belongs to the natural loop headed by `h`.
    pub loop_body: Vec<Vec<bool>>,
}

/// The tables of a [`CfgInfo`] all have one entry per block, every block id
/// stored in them is in range, and the successor rows are exactly the
/// successors of the corresponding terminators.
pub open spec fn cfg_wf(g: CfgInfo, blocks: Seq<BlockData>) -> bool {
    &&& g.n == blocks.len()
    &&& forall|b: int|
        0 <= b < g.n ==> (#[trigger] g.succs@[b])@ == spec_successors(
            blocks[b].terminator.content,
        )
    &&& g.succs@.len() == g.n
    &&& g.preds@.len() == g.n
    &&& g.reachable@.len() == g.n
    &&& g.dom@.len() == g.n
    &&& g.idom@.len() == g.n
    &&& g.is_header@.len() == g.n
    &&& g.loop_body@.len() == g.n
    &&& forall|b: int, j: int|
        0 <= b < g.n && 0 <= j < g.succs@[b]@.len() ==> #[trigger] g.succs@[b]@[j] < g.n
    &&& forall|b: int, j: int|
        0 <= b < g.n && 0 <= j < g.preds@[b]@.len() ==> #[trigger] g.preds@[b]@[j] < g.n
    &&& forall|b: int| 0 <= b < g.n ==> (#[trigger] g.dom@[b])@.len() == g.n
    &&& forall|b: int| 0 <= b < g.n ==> (#[trigger] g.loop_body@[b])@.len() == g.n
    &&& forall|b: int|
        0 <= b < g.n ==> ((#[trigger] g.idom@[b]) matches Some(d) ==> d < g.n)
}

/// Every block id any terminator references is in range.
pub open spec fn well_targeted(blocks: Seq<BlockData>) -> bool {
    forall|b: int, j: int|
        0 <= b < blocks.len() && 0 <= j < spec_successors(blocks[b].terminator.content).len()
            ==> #[trigger] spec_successors(blocks[b].terminator.content)[j] < blocks.len()
}

/// `t` is referenced by some terminator and lies out of range.
pub open spec fn dangling_target(blocks: Seq<BlockData>, t: BlockId) -> bool {
    &&& t >= blocks.len()
    &&& exists|b: int, j: int|
        0 <= b < blocks.len() && 0 <= j < spec_successors(blocks[b].terminator.content).len()
            && #[trigger] spec_successors(blocks[b].terminator.content)[j] == t
}

/// `r` marks a set of blocks closed under successors: every successor of a
/// marked block is marked.
pub open spec fn closed_under_succs(succs: Seq<Vec<BlockId>>, r: Seq<bool>) -> bool {
    forall|b: int, j: int|
        0 <= b < succs.len() && r[b] && 0 <= j < succs[b]@.len() ==> r[
            #[trigger] succs[b]@[j] as int
        ]
}

/// There is an edge from block `b` to block `t`.
pub open spec fn has_edge(succs: Seq<Vec<BlockId>>, b: int, t: int) -> bool {
    exists|j: int| 0 <= j < succs[b]@.len() && #[trigger] succs[b]@[j] == t
}

/// Some reachable block dominated by `t` has an edge to `t`: `t` is the
/// target of a back edge.
pub open spec fn has_back_edge_to(
    succs: Seq<Vec<BlockId>>,
    dom: Seq<Vec<bool>>,
    reach: Seq<bool>,
    t: int,
) -> bool {
    exists|b: int|
        0 <= b < succs.len() && reach[b] && dom[b]@[t] && #[trigger] has_edge(succs, b, t)
}

/// The number of set entries of a boolean row.
pub open spec fn count_trues(s: Seq<bool>) -> nat
    decreases s,
{
    if s.len() == 0 {
        0
    } else {
        count_trues(s.drop_last()) + (if s.last() {
            1nat
        } else {
            0nat
        })
    }
}

pub(crate) proof fn lemma_count_trues_le_len(s: Seq<bool>)
    ensures
        count_trues(s) <= s.len(),
    decreases s,
{
    if s.len() > 0 {
        lemma_count_trues_le_len(s.drop_last());
    }
}

pub(crate) proof fn lemma_count_trues_update(s: Seq<bool>, i: int)
    requires
        0 <= i < s.len(),
        !s[i],
    ensures
        count_trues(s.update(i, true)) == count_trues(s) + 1,
    decreases s.len(),
{
    if i == s.len() - 1 {
        assert(s.update(i, true).drop_last() =~= s.drop_last());
        assert(s.update(i, true).last());
    } else {
        assert(s.update(i, true).drop_last() =~= s.drop_last().update(i, true));
        assert(s.update(i, true).last() == s.last());
        lemma_count_trues_update(s.drop_last(), i);
    }
}

/// Builds a vector of `n` copies of `x`.
pub(crate) fn filled<T: Copy>(n: usize, x: T) -> (r: Vec<T>)
    ensures
        r@.len() == n,
        forall|i: int| 0 <= i < n ==> r@[i] == x,
{
    let mut v: Vec<T> = Vec::new();
    let mut i: usize = 0;
    while i < n
        invariant
            i <= n,
            v@.len() == i,
            forall|j: int| 0 <= j < i ==> v@[j] == x,
        decreases n - i,
    {
        v.push(x);
        i = i + 1;
    }
    v
}

/// Whether `v` contains `x`.
pub(crate) fn contains_id(v: &Vec<BlockId>, x: BlockId) -> (r: bool)
    ensures
        r == v@.contains(x),
{
    let mut i: usize = 0;
    while i < v.len()
        invariant
            i <= v.len(),
            forall|j: int| 0 <= j < i ==> v@[j] != x,
        decreases v.len() - i,
    {
        if v[i] == x {
            return true;
        }
        i = i + 1;
    }
    false
}

/// Computes the successor lists of every block.  Succeeds exactly on
/// well-targeted bodies; otherwise returns a dangling target.
pub fn compute_succs(blocks: &Vec<BlockData>) -> (r: Result<Vec<Vec<BlockId>>, BlockId>)
    ensures
        (r is Ok) <==> well_targeted(blocks@),
        r matches Err(t) ==> dangling_target(blocks@, t),
        r matches Ok(ss) ==> {
            &&& ss@.len() == blocks@.len()
            &&& forall|b: int, j: int|
                0 <= b < ss@.len() && 0 <= j < ss@[b]@.len() ==> #[trigger] ss@[b]@[j] < blocks@.len()
            &&& forall|b: int|
                0 <= b < ss@.len() ==> (#[trigger] ss@[b])@ == spec_successors(
                    blocks@[b].terminator.content,
                )
        },
{
    let n = blocks.len();
    let mut succs: Vec<Vec<BlockId>> = Vec::new();
    let mut b: usize = 0;
    while b < n
        invariant
            b <= n,
            n == blocks@.len(),
            succs@.len() == b,
            forall|x: int, j: int|
                0 <= x < b && 0 <= j < succs@[x]@.len() ==> #[trigger] succs@[x]@[j] < n,
            forall|x: int|
                0 <= x < b ==> (#[trigger] succs@[x])@ == spec_successors(
                    blocks@[x].terminator.content,
                ),
        decreases n - b,
    {
        let ss = blocks[b].terminator.successors();
        let mut j: usize = 0;
        while j < ss.len()
            invariant
                b < n,
                j <= ss.len(),
                n == blocks@.len(),
                ss@ == spec_successors(blocks@[b as int].terminator.content),
                forall|k: int| 0 <= k < j ==> ss@[k] < n,
            decreases ss.len() - j,
        {
            if ss[j] >= n {
                proof {
                    let jj = j as int;
                    assert(spec_successors(blocks@[b as int].terminator.content)[jj] == ss@[jj]);
                    assert(dangling_target(blocks@, ss@[jj]));
                }
                return Err(ss[j]);
            }
            j = j + 1;
        }
        succs.push(ss);
        b = b + 1;
    }
    proof {
        assert forall|b2: int, j2: int|
            0 <= b2 < blocks@.len() && 0 <= j2 < spec_successors(
                blocks@[b2].terminator.content,
            ).len() implies #[trigger] spec_successors(blocks@[b2].terminator.content)[j2]
            < blocks@.len() by {
            assert(succs@[b2]@[j2] < n);
        }
    }
    Ok(succs)
}

/// Computes the distinct predecessors of every block from the successor
/// lists: block `b` stands in `preds[t]` exactly when some edge leads from
/// `b` to `t`, and each predecessor is listed once.
pub fn compute_preds(n: usize, succs: &Vec<Vec<BlockId>>) -> (r: Vec<Vec<BlockId>>)
    requires
        succs@.len() == n,
        forall|b: int, j: int|
            0 <= b < n && 0 <= j < succs@[b]@.len() ==> #[trigger] succs@[b]@[j] < n,
    ensures
        r@.len() == n,
        forall|b: int, j: int|
            0 <= b < n && 0 <= j < r@[b]@.len() ==> #[trigger] r@[b]@[j] < n,
        forall|t: int, b: int|
            0 <= t < n && 0 <= b < n ==> ((#[trigger] r@[t]@.contains(b as BlockId)) <==> has_edge(
                succs@,
                b,
                t,
            )),
        forall|t: int, i: int, j: int|
            0 <= t < n && 0 <= i < j < r@[t]@.len() ==> #[trigger] r@[t]@[i]
                != #[trigger] r@[t]@[j],
{
    let mut preds: Vec<Vec<BlockId>> = Vec::new();
    let mut t: usize = 0;
    while t < n
        invariant
            t <= n,
            n == succs@.len(),
            preds@.len() == t,
            forall|x: int, j: int|
                0 <= x < n && 0 <= j < succs@[x]@.len() ==> #[trigger] succs@[x]@[j] < n,
            forall|x: int, j: int|
                0 <= x < t && 0 <= j < preds@[x]@.len() ==> #[trigger] preds@[x]@[j] < n,
            forall|x: int, b: int|
                0 <= x < t && 0 <= b < n ==> ((#[trigger] preds@[x]@.contains(b as BlockId))
                    <==> has_edge(succs@, b, x)),
            forall|x: int, i: int, j: int|
                0 <= x < t && 0 <= i < j < preds@[x]@.len() ==> #[trigger] preds@[x]@[i]
                    != #[trigger] preds@[x]@[j],
        decreases n - t,
    {
        let mut row: Vec<BlockId> = Vec::new();
        let mut b: usize = 0;
        while b < n
            invariant
                b <= n,
                t < n,
                n == succs@.len(),
                forall|j: int| 0 <= j < row@.len() ==> #[trigger] row@[j] < b,
                forall|i: int, j: int|
                    0 <= i < j < row@.len() ==> #[trigger] row@[i] < #[trigger] row@[j],
                forall|x: int|
                    0 <= x < n ==> ((#[trigger] row@.contains(x as BlockId)) <==> (x < b
                        && has_edge(succs@, x, t as int))),
            decreases n - b,
        {
            broadcast use vstd::seq_lib::lemma_seq_contains_after_push;

            let edge = contains_id(&succs[b], t);
            proof {
                if edge {
                    let jj = choose|j: int|
                        0 <= j < succs@[b as int]@.len() && succs@[b as int]@[j] == t;
                    assert(has_edge(succs@, b as int, t as int));
                } else {
                    assert(!has_edge(succs@, b as int, t as int)) by {
                        if has_edge(succs@, b as int, t as int) {
                            let j = choose|j: int|
                                0 <= j < succs@[b as int]@.len() && #[trigger] succs@[b as int]@[j]
                                    == t;
                            assert(succs@[b as int]@.contains(t as BlockId));
                        }
                    }
                    assert(!row@.contains(b as BlockId));
                }
            }
            if edge {
                row.push(b);
            }
            b = b + 1;
        }
        preds.push(row);
        t = t + 1;
    }
    preds
}

/// Computes the blocks reachable from the entry block: the least set that
/// contains the entry and is closed under successors, by forward dataflow
/// to a fixed point.
fn compute_reachable(n: usize, succs: &Vec<Vec<BlockId>>) -> (r: Vec<bool>)
    requires
        n >= 1,
        succs@.len() == n,
        forall|b: int, j: int|
            0 <= b < n && 0 <= j < succs@[b]@.len() ==> #[trigger] succs@[b]@[j] < n,
    ensures
        r@.len() == n,
        r@[0],
        closed_under_succs(succs@, r@),
        forall|rp: Seq<bool>, x: int|
            #![trigger closed_under_succs(succs@, rp), rp[x]]
            closed_under_succs(succs@, rp) && rp.len() == n && rp[0] && 0 <= x < n && r@[x]
                ==> rp[x],
{
    let mut reach = filled(n, false);
    reach.set(0, true);
    proof {
        lemma_count_trues_le_len(reach@);
    }
    #[verifier::loop_isolation(true)]
    loop
        invariant
            n >= 1,
            n == succs@.len(),
            reach@.len() == n,
            reach@[0],
            forall|b: int, j: int|
                0 <= b < n && 0 <= j < succs@[b]@.len() ==> #[trigger] succs@[b]@[j] < n,
            forall|rp: Seq<bool>, x: int|
                #![trigger closed_under_succs(succs@, rp), rp[x]]
                closed_under_succs(succs@, rp) && rp.len() == n && rp[0] && 0 <= x < n
                    && reach@[x] ==> rp[x],
        ensures
            closed_under_succs(succs@, reach@),
        decreases n - count_trues(reach@),
    {
        let ghost r_start = reach@;
        let mut changed: bool = false;
        let mut b: usize = 0;
        while b < n
            invariant
                b <= n,
                n == succs@.len(),
                reach@.len() == n,
                reach@[0],
                forall|b2: int, j: int|
                    0 <= b2 < n && 0 <= j < succs@[b2]@.len() ==> #[trigger] succs@[b2]@[j] < n,
                forall|x: int| 0 <= x < n && r_start[x] ==> reach@[x],
                !changed ==> reach@ == r_start,
                changed ==> count_trues(reach@) > count_trues(r_start),
                !changed ==> (forall|b2: int, j: int|
                    0 <= b2 < b && reach@[b2] && 0 <= j < succs@[b2]@.len() ==> reach@[
                        #[trigger] succs@[b2]@[j] as int
                    ]),
                forall|rp: Seq<bool>, x: int|
                    #![trigger closed_under_succs(succs@, rp), rp[x]]
                    closed_under_succs(succs@, rp) && rp.len() == n && rp[0] && 0 <= x < n
                        && reach@[x] ==> rp[x],
            decreases n - b,
        {
            if reach[b] {
                let mut j: usize = 0;
                while j < succs[b].len()
                    invariant
                        b < n,
                        n == succs@.len(),
                        reach@.len() == n,
                        reach@[0],
                        reach@[b as int],
                        j <= succs@[b as int]@.len(),
                        forall|b2: int, j2: int|
                            0 <= b2 < n && 0 <= j2 < succs@[b2]@.len() ==> #[trigger] succs@[b2]@[
                                j2
                            ] < n,
                        forall|x: int| 0 <= x < n && r_start[x] ==> reach@[x],
                        !changed ==> reach@ == r_start,
                        changed ==> count_trues(reach@) > count_trues(r_start),
                        !changed ==> (forall|b2: int, j2: int|
                            0 <= b2 < b && reach@[b2] && 0 <= j2 < succs@[b2]@.len() ==> reach@[
                                #[trigger] succs@[b2]@[j2] as int
                            ]),
                        !changed ==> (forall|j2: int|
                            0 <= j2 < j ==> reach@[#[trigger] succs@[b as int]@[j2] as int]),
                        forall|rp: Seq<bool>, x: int|
                            #![trigger closed_under_succs(succs@, rp), rp[x]]
                            closed_under_succs(succs@, rp) && rp.len() == n && rp[0] && 0 <= x < n
                                && reach@[x] ==> rp[x],
                    decreases succs@[b as int]@.len() - j,
                {
                    let t = succs[b][j];
                    if !reach[t] {
                        let ghost rpre = reach@;
                        reach.set(t, true);
                        changed = true;
                        proof {
                            lemma_count_trues_update(rpre, t as int);
                            lemma_count_trues_le_len(rpre);
                            assert forall|rp: Seq<bool>, x: int|
                                #![trigger closed_under_succs(succs@, rp), rp[x]]
                                closed_under_succs(succs@, rp) && rp.len() == n && rp[0] && 0 <= x
                                    < n && reach@[x] implies rp[x] by {
                                if x == t as int {
                                    assert(rp[b as int]);
                                    assert(rp[succs@[b as int]@[j as int] as int]);
                                } else {
                                    assert(rpre[x]);
                                }
                            }
                        }
                    }
                    j = j + 1;
                }
            }
            b = b + 1;
        }
        if !changed {
            break ;
        }
        proof {
            lemma_count_trues_le_len(reach@);
        }
    }
    reach
}

/// Intersects `acc` with `other` in place.
fn intersect_into(acc: &mut Vec<bool>, other: &Vec<bool>)
    requires
        old(acc)@.len() == other@.len(),
    ensures
        final(acc)@.len() == old(acc)@.len(),
        forall|i: int|
            0 <= i < other@.len() ==> (#[trigger] final(acc)@[i]) == (old(acc)@[i] && other@[i]),
{
    let mut i: usize = 0;
    while i < acc.len()
        invariant
            acc@.len() == other@.len(),
            i <= acc@.len(),
            forall|k: int| 0 <= k < i ==> (#[trigger] acc@[k]) == (old(acc)@[k] && other@[k]),
            forall|k: int| i <= k < acc@.len() ==> #[trigger] acc@[k] == old(acc)@[k],
        decreases acc@.len() - i,
    {
        if !other[i] {
            acc.set(i, false);
        }
        i = i + 1;
    }
}

/// Whether the two boolean rows are equal.
fn rows_equal(a: &Vec<bool>, b: &Vec<bool>) -> (r: bool)
    requires
        a@.len() == b@.len(),
    ensures
        r <==> a@ == b@,
{
    let mut i: usize = 0;
    while i < a.len()
        invariant
            a@.len() == b@.len(),
            i <= a@.len(),
            forall|k: int| 0 <= k < i ==> a@[k] == #[trigger] b@[k],
        decreases a@.len() - i,
    {
        if a[i] != b[i] {
            proof {
                assert(a@[i as int] != b@[i as int]);
            }
            return false;
        }
        i = i + 1;
    }
    proof {
        assert(a@ =~= b@);
    }
    true
}

/// What the dataflow equation gives block `b` at position `d`: itself, or
/// a common dominator of its reachable predecessors.
pub open spec fn dom_rhs(
    dom: Seq<Vec<bool>>,
    preds_row: Seq<BlockId>,
    reach: Seq<bool>,
    b: int,
    d: int,
) -> bool {
    d == b || (forall|k: int|
        0 <= k < preds_row.len() && reach[preds_row[k] as int] ==> dom[
            #[trigger] preds_row[k] as int
        ]@[d])
}

/// The dominator rows of the reachable non-entry blocks satisfy the
/// dataflow equations.
pub open spec fn dom_equations(
    dom: Seq<Vec<bool>>,
    preds: Seq<Vec<BlockId>>,
    reach: Seq<bool>,
    n: int,
) -> bool {
    forall|b: int, d: int|
        1 <= b < n && reach[b] && 0 <= d < n ==> ((#[trigger] dom[b]@[d]) <==> dom_rhs(
            dom,
            preds[b]@,
            reach,
            b,
            d,
        ))
}

/// The dominator rows lie above the equations: whatever the equation gives
/// a block is already in its row.
pub open spec fn dom_above_rhs(
    dom: Seq<Vec<bool>>,
    preds: Seq<Vec<BlockId>>,
    reach: Seq<bool>,
    n: int,
) -> bool {
    forall|b: int, d: int|
        1 <= b < n && reach[b] && 0 <= d < n && dom_rhs(dom, preds[b]@, reach, b, d)
            ==> #[trigger] dom[b]@[d]
}

/// Every solution of the equations whose entry row holds at most the entry
/// is pointwise below `dom` on the reachable non-entry blocks.
pub open spec fn dom_greatest(
    dom: Seq<Vec<bool>>,
    preds: Seq<Vec<BlockId>>,
    reach: Seq<bool>,
    n: int,
) -> bool {
    forall|dp: Seq<Vec<bool>>, b: int, d: int|
        #![trigger dom_equations(dp, preds, reach, n), dp[b]@[d]]
        dom_equations(dp, preds, reach, n) && dp.len() == n && (forall|x: int|
            0 <= x < n ==> (#[trigger] dp[x])@.len() == n) && (forall|d2: int|
            0 <= d2 < n && (#[trigger] dp[0]@[d2]) ==> d2 == 0) && 1 <= b < n && reach[b] && 0
            <= d < n && dp[b]@[d] ==> dom[b]@[d]
}

/// The total number of set entries over all rows.
pub open spec fn total_trues(dom: Seq<Vec<bool>>) -> nat
    decreases dom,
{
    if dom.len() == 0 {
        0
    } else {
        total_trues(dom.drop_last()) + count_trues(dom.last()@)
    }
}

proof fn lemma_count_trues_le_mono(a: Seq<bool>, b: Seq<bool>)
    requires
        a.len() == b.len(),
        forall|i: int| 0 <= i < a.len() && #[trigger] a[i] ==> b[i],
    ensures
        count_trues(a) <= count_trues(b),
    decreases a,
{
    if a.len() > 0 {
        lemma_count_trues_le_mono(a.drop_last(), b.drop_last());
    }
}

proof fn lemma_count_trues_lt(a: Seq<bool>, b: Seq<bool>, w: int)
    requires
        a.len() == b.len(),
        forall|i: int| 0 <= i < a.len() && #[trigger] a[i] ==> b[i],
        0 <= w < a.len(),
        b[w] && !a[w],
    ensures
        count_trues(a) < count_trues(b),
    decreases a,
{
    if w == a.len() - 1 {
        lemma_count_trues_le_mono(a.drop_last(), b.drop_last());
    } else {
        lemma_count_trues_lt(a.drop_last(), b.drop_last(), w);
    }
}

proof fn lemma_total_trues_update(dom: Seq<Vec<bool>>, b: int, row: Vec<bool>)
    requires
        0 <= b < dom.len(),
    ensures
        total_trues(dom.update(b, row)) + count_trues(dom[b]@) == total_trues(dom) + count_trues(
            row@,
        ),
    decreases dom,
{
    if b == dom.len() - 1 {
        assert(dom.update(b, row).drop_last() =~= dom.drop_last());
        assert(dom.update(b, row).last() == row);
    } else {
        assert(dom.update(b, row).drop_last() =~= dom.drop_last().update(b, row));
        assert(dom.update(b, row).last() == dom.last());
        lemma_total_trues_update(dom.drop_last(), b, row);
    }
}

/// Computes the dominator sets by the standard iterative dataflow: the
/// entry dominates only itself; every other reachable block is dominated by
/// itself and by the common dominators of its reachable predecessors.  The
/// iteration starts from full rows, only ever removes entries, and stops at
/// a fixed point, so the result satisfies the dataflow equations and lies
/// above every other solution: it is the greatest fixed point, the
/// dominance relation.
#[verifier::rlimit(100)]
fn compute_dom(
    n: usize,
    preds: &Vec<Vec<BlockId>>,
    reach: &Vec<bool>,
) -> (r: Vec<Vec<bool>>)
    requires
        n >= 1,
        preds@.len() == n,
        reach@.len() == n,
        forall|b: int, j: int|
            0 <= b < n && 0 <= j < preds@[b]@.len() ==> #[trigger] preds@[b]@[j] < n,
    ensures
        r@.len() == n,
        forall|b: int| 0 <= b < n ==> (#[trigger] r@[b])@.len() == n,
        forall|d: int| 0 <= d < n ==> ((#[trigger] r@[0]@[d]) <==> d == 0),
        forall|b: int| 0 <= b < n ==> #[trigger] r@[b]@[b],
        dom_equations(r@, preds@, reach@, n as int),
        dom_above_rhs(r@, preds@, reach@, n as int),
        dom_greatest(r@, preds@, reach@, n as int),
{
    let mut dom: Vec<Vec<bool>> = Vec::new();
    let mut b0: usize = 0;
    while b0 < n
        invariant
            b0 <= n,
            n >= 1,
            dom@.len() == b0,
            forall|x: int| 0 <= x < b0 ==> (#[trigger] dom@[x])@.len() == n,
            b0 >= 1 ==> (forall|d: int| 0 <= d < n ==> ((#[trigger] dom@[0]@[d]) <==> d == 0)),
            forall|x: int, d: int| 1 <= x < b0 && 0 <= d < n ==> #[trigger] dom@[x]@[d],
        decreases n - b0,
    {
        if b0 == 0 {
            let mut row = filled(n, false);
            row.set(0, true);
            dom.push(row);
        } else {
            dom.push(filled(n, true));
        }
        b0 = b0 + 1;
    }
    proof {
        assert(dom_above_rhs(dom@, preds@, reach@, n as int));
        assert(dom_greatest(dom@, preds@, reach@, n as int));
    }
    #[verifier::loop_isolation(true)]
    loop
        invariant
            n >= 1,
            n == preds@.len(),
            n == reach@.len(),
            dom@.len() == n,
            forall|x: int| 0 <= x < n ==> (#[trigger] dom@[x])@.len() == n,
            forall|d: int| 0 <= d < n ==> ((#[trigger] dom@[0]@[d]) <==> d == 0),
            forall|x: int| 0 <= x < n ==> #[trigger] dom@[x]@[x],
            forall|x: int, j: int|
                0 <= x < n && 0 <= j < preds@[x]@.len() ==> #[trigger] preds@[x]@[j] < n,
            dom_above_rhs(dom@, preds@, reach@, n as int),
            dom_greatest(dom@, preds@, reach@, n as int),
        ensures
            dom_equations(dom@, preds@, reach@, n as int),
            dom_greatest(dom@, preds@, reach@, n as int),
        decreases total_trues(dom@),
    {
        let ghost dstart = dom@;
        let mut changed: bool = false;
        let mut b: usize = 1;
        while b < n
            invariant
                1 <= b <= n,
                n == preds@.len(),
                n == reach@.len(),
                dom@.len() == n,
                forall|x: int| 0 <= x < n ==> (#[trigger] dom@[x])@.len() == n,
                forall|d: int| 0 <= d < n ==> ((#[trigger] dom@[0]@[d]) <==> d == 0),
                forall|x: int| 0 <= x < n ==> #[trigger] dom@[x]@[x],
                forall|x: int, j: int|
                    0 <= x < n && 0 <= j < preds@[x]@.len() ==> #[trigger] preds@[x]@[j] < n,
                dom_above_rhs(dom@, preds@, reach@, n as int),
                dom_greatest(dom@, preds@, reach@, n as int),
                !changed ==> dom@ == dstart,
                changed ==> total_trues(dom@) < total_trues(dstart),
                !changed ==> (forall|b2: int, d: int|
                    1 <= b2 < b && reach@[b2] && 0 <= d < n ==> ((#[trigger] dom@[b2]@[d])
                        <==> dom_rhs(dom@, preds@[b2]@, reach@, b2, d))),
            decreases n - b,
        {
            if reach[b] {
                let mut acc = filled(n, true);
                let mut j: usize = 0;
                while j < preds[b].len()
                    invariant
                        b < n,
                        n == preds@.len(),
                        n == reach@.len(),
                        dom@.len() == n,
                        acc@.len() == n,
                        j <= preds@[b as int]@.len(),
                        forall|x: int| 0 <= x < n ==> (#[trigger] dom@[x])@.len() == n,
                        forall|x: int, k: int|
                            0 <= x < n && 0 <= k < preds@[x]@.len() ==> #[trigger] preds@[x]@[k]
                                < n,
                        forall|d: int|
                            0 <= d < n ==> ((#[trigger] acc@[d]) == (forall|k: int|
                                0 <= k < j && reach@[preds@[b as int]@[k] as int] ==> dom@[
                                    #[trigger] preds@[b as int]@[k] as int
                                ]@[d])),
                    decreases preds@[b as int]@.len() - j,
                {
                    let p = preds[b][j];
                    let ghost accpre = acc@;
                    if reach[p] {
                        intersect_into(&mut acc, &dom[p]);
                    }
                    proof {
                        let jj = j as int;
                        assert forall|d: int| 0 <= d < n implies ((#[trigger] acc@[d]) == (
                        forall|k: int|
                            0 <= k < jj + 1 && reach@[preds@[b as int]@[k] as int] ==> dom@[
                                #[trigger] preds@[b as int]@[k] as int
                            ]@[d])) by {
                            if acc@[d] {
                                assert forall|k: int|
                                    0 <= k < jj + 1 && reach@[preds@[b as int]@[k] as int]
                                        implies dom@[
                                    #[trigger] preds@[b as int]@[k] as int
                                ]@[d] by {
                                    if k < jj {
                                        assert(accpre[d]);
                                    }
                                }
                            }
                        }
                    }
                    j = j + 1;
                }
                acc.set(b, true);
                proof {
                    assert forall|d: int| 0 <= d < n implies ((#[trigger] acc@[d]) == dom_rhs(
                        dom@,
                        preds@[b as int]@,
                        reach@,
                        b as int,
                        d,
                    )) by {
                    }
                }
                let eq = rows_equal(&acc, &dom[b]);
                if !eq {
                    proof {
                        let dold = dom@;
                        let bb = b as int;
                        assert forall|d: int| 0 <= d < n && #[trigger] acc@[d] implies dold[bb]@[d] by {
                            assert(dom_rhs(dold, preds@[bb]@, reach@, bb, d));
                        }
                        assert(exists|d: int| 0 <= d < n && acc@[d] != #[trigger] dold[bb]@[d])
                            by {
                            if forall|d: int| 0 <= d < n ==> acc@[d] == #[trigger] dold[bb]@[d] {
                                assert(acc@ =~= dold[bb]@);
                            }
                        }
                        let w = choose|d: int| 0 <= d < n && acc@[d] != #[trigger] dold[bb]@[d];
                        lemma_count_trues_lt(acc@, dold[bb]@, w);
                        lemma_total_trues_update(dold, bb, acc);
                    }
                    let ghost dold = dom@;
                    let ghost accv = acc@;
                    dom.set(b, acc);
                    changed = true;
                    proof {
                        let bb = b as int;
                        assert forall|b2: int, d: int|
                            1 <= b2 < n && reach@[b2] && 0 <= d < n && dom_rhs(
                                dom@,
                                preds@[b2]@,
                                reach@,
                                b2,
                                d,
                            ) implies #[trigger] dom@[b2]@[d] by {
                            assert(dom_rhs(dold, preds@[b2]@, reach@, b2, d)) by {
                                if d != b2 {
                                    assert forall|k: int|
                                        0 <= k < preds@[b2]@.len() && reach@[preds@[b2]@[k] as int]
                                        implies dold[#[trigger] preds@[b2]@[k] as int]@[d] by {
                                        let pk = preds@[b2]@[k] as int;
                                        assert(dom@[pk]@[d]);
                                        if pk == bb {
                                            assert(accv[d]);
                                            assert(dom_rhs(dold, preds@[bb]@, reach@, bb, d));
                                        }
                                    }
                                }
                            }
                            if b2 == bb {
                                assert(accv[d] == dom_rhs(dold, preds@[bb]@, reach@, bb, d));
                            }
                        }
                        assert forall|dp: Seq<Vec<bool>>, b2: int, d: int|
                            #![trigger dom_equations(dp, preds@, reach@, n as int), dp[b2]@[d]]
                            dom_equations(dp, preds@, reach@, n as int) && dp.len() == n && (
                            forall|x: int|
                                0 <= x < n ==> (#[trigger] dp[x])@.len() == n) && (forall|d2: int|
                                0 <= d2 < n && (#[trigger] dp[0]@[d2]) ==> d2 == 0) && 1 <= b2 < n
                                && reach@[b2] && 0 <= d < n && dp[b2]@[d] implies dom@[b2]@[d] by {
                            if b2 == bb {
                                assert(dom_rhs(dp, preds@[b2]@, reach@, b2, d));
                                assert(dom_rhs(dold, preds@[bb]@, reach@, bb, d)) by {
                                    if d != bb {
                                        assert forall|k: int|
                                            0 <= k < preds@[bb]@.len() && reach@[preds@[bb]@[k] as int]
                                            implies dold[#[trigger] preds@[bb]@[k] as int]@[d] by {
                                            let pk = preds@[bb]@[k] as int;
                                            assert(dp[pk]@[d]);
                                            if pk == 0 {
                                                assert(d == 0);
                                            } else {
                                                assert(dold[pk]@[d]);
                                            }
                                        }
                                    }
                                }
                                assert(accv[d]);
                            } else {
                                assert(dold[b2]@[d]);
                            }
                        }
                    }
                } else {
                }
            }
            b = b + 1;
        }
        if !changed {
            break ;
        }
    }
    dom
}

/// A back edge into `t` from a block before `bmax`./// A back edge into `t` from a block before `bmax`.
pub open spec fn back_edge_from_prefix(
    succs: Seq<Vec<BlockId>>,
    dom: Seq<Vec<bool>>,
    reach: Seq<bool>,
    t: int,
    bmax: int,
) -> bool {
    exists|b: int|
        0 <= b < bmax && reach[b] && dom[b]@[t] && #[trigger] has_edge(succs, b, t)
}

/// Marks the targets of back edges: exactly the blocks some reachable,
/// dominated block has an edge to — the natural loop headers.
fn compute_headers(
    n: usize,
    succs: &Vec<Vec<BlockId>>,
    dom: &Vec<Vec<bool>>,
    reach: &Vec<bool>,
) -> (r: Vec<bool>)
    requires
        succs@.len() == n,
        dom@.len() == n,
        reach@.len() == n,
        forall|b: int, j: int|
            0 <= b < n && 0 <= j < succs@[b]@.len() ==> #[trigger] succs@[b]@[j] < n,
        forall|b: int| 0 <= b < n ==> (#[trigger] dom@[b])@.len() == n,
    ensures
        r@.len() == n,
        forall|t: int|
            0 <= t < n ==> ((#[trigger] r@[t]) <==> has_back_edge_to(succs@, dom@, reach@, t)),
{
    let mut headers = filled(n, false);
    let mut b: usize = 0;
    while b < n
        invariant
            b <= n,
            n == succs@.len(),
            n == dom@.len(),
            n == reach@.len(),
            headers@.len() == n,
            forall|x: int, j: int|
                0 <= x < n && 0 <= j < succs@[x]@.len() ==> #[trigger] succs@[x]@[j] < n,
            forall|x: int| 0 <= x < n ==> (#[trigger] dom@[x])@.len() == n,
            forall|t: int|
                0 <= t < n ==> ((#[trigger] headers@[t]) <==> back_edge_from_prefix(
                    succs@,
                    dom@,
                    reach@,
                    t,
                    b as int,
                )),
        decreases n - b,
    {
        if reach[b] {
            let row = &succs[b];
            let mut j: usize = 0;
            while j < row.len()
                invariant
                    b < n,
                    n == succs@.len(),
                    n == dom@.len(),
                    n == reach@.len(),
                    reach@[b as int],
                    headers@.len() == n,
                    row@ == succs@[b as int]@,
                    j <= row@.len(),
                    forall|x: int, k: int|
                        0 <= x < n && 0 <= k < succs@[x]@.len() ==> #[trigger] succs@[x]@[k] < n,
                    forall|x: int| 0 <= x < n ==> (#[trigger] dom@[x])@.len() == n,
                    forall|t: int|
                        0 <= t < n ==> ((#[trigger] headers@[t]) <==> (back_edge_from_prefix(
                            succs@,
                            dom@,
                            reach@,
                            t,
                            b as int,
                        ) || (dom@[b as int]@[t] && exists|j2: int|
                            0 <= j2 < j && #[trigger] row@[j2] == t))),
                decreases row@.len() - j,
            {
                let t = row[j];
                if dom[b][t] {
                    headers.set(t, true);
                }
                proof {
                    let jj = j as int;
                    assert forall|t2: int| 0 <= t2 < n implies ((#[trigger] headers@[t2])
                        <==> (back_edge_from_prefix(succs@, dom@, reach@, t2, b as int) || (
                    dom@[b as int]@[t2] && exists|j2: int|
                        0 <= j2 < jj + 1 && #[trigger] row@[j2] == t2))) by {
                        if dom@[b as int]@[t2] && exists|j2: int|
                            0 <= j2 < jj + 1 && #[trigger] row@[j2] == t2 {
                            let j2 = choose|j2: int| 0 <= j2 < jj + 1 && #[trigger] row@[j2] == t2;
                            if j2 == jj {
                                assert(t2 == t as int);
                                assert(headers@[t2]);
                            }
                        }
                    }
                }
                j = j + 1;
            }
            proof {
                assert forall|t2: int| 0 <= t2 < n implies ((#[trigger] headers@[t2])
                    <==> back_edge_from_prefix(succs@, dom@, reach@, t2, b as int + 1)) by {
                    if back_edge_from_prefix(succs@, dom@, reach@, t2, b as int + 1) {
                        let b2 = choose|b2: int|
                            0 <= b2 < b as int + 1 && reach@[b2] && dom@[b2]@[t2]
                                && #[trigger] has_edge(succs@, b2, t2);
                        if b2 == b as int {
                            let j2 = choose|j2: int|
                                0 <= j2 < succs@[b2]@.len() && #[trigger] succs@[b2]@[j2] == t2;
                            assert(headers@[t2]);
                        } else {
                            assert(back_edge_from_prefix(succs@, dom@, reach@, t2, b as int));
                        }
                    }
                    if headers@[t2] {
                        if !back_edge_from_prefix(succs@, dom@, reach@, t2, b as int) {
                            let j2 = choose|j2: int|
                                0 <= j2 < row@.len() && #[trigger] row@[j2] == t2;
                            assert(has_edge(succs@, b as int, t2));
                        }
                    }
                }
            }
        } else {
            proof {
                assert forall|t2: int| 0 <= t2 < n implies ((#[trigger] headers@[t2])
                    <==> back_edge_from_prefix(succs@, dom@, reach@, t2, b as int + 1)) by {
                    if back_edge_from_prefix(succs@, dom@, reach@, t2, b as int + 1) {
                        let b2 = choose|b2: int|
                            0 <= b2 < b as int + 1 && reach@[b2] && dom@[b2]@[t2]
                                && #[trigger] has_edge(succs@, b2, t2);
                        assert(b2 != b as int);
                        assert(back_edge_from_prefix(succs@, dom@, reach@, t2, b as int));
                    }
                }
            }
        }
        b = b + 1;
    }
    proof {
        assert forall|t2: int| 0 <= t2 < n implies ((#[trigger] headers@[t2])
            <==> has_back_edge_to(succs@, dom@, reach@, t2)) by {
            assert(back_edge_from_prefix(succs@, dom@, reach@, t2, n as int) == has_back_edge_to(
                succs@,
                dom@,
                reach@,
                t2,
            ));
        }
    }
    headers
}

/// Computes the natural loop of header `h`: the blocks dominated by `h`
/// from which a back-edge source of `h` can be reached without passing
/// through `h`.  Backward dataflow, monotone over at most `n` bits.
fn compute_loop_of(
    n: usize,
    h: usize,
    succs: &Vec<Vec<BlockId>>,
    dom: &Vec<Vec<bool>>,
    reach: &Vec<bool>,
) -> (r: Vec<bool>)
    requires
        h < n,
        succs@.len() == n,
        dom@.len() == n,
        reach@.len() == n,
        forall|b: int, j: int|
            0 <= b < n && 0 <= j < succs@[b]@.len() ==> #[trigger] succs@[b]@[j] < n,
        forall|b: int| 0 <= b < n ==> (#[trigger] dom@[b])@.len() == n,
    ensures
        r@.len() == n,
        r@[h as int],
        forall|x: int|
            0 <= x < n && #[trigger] r@[x] ==> (x == h || (reach@[x] && dom@[x]@[h as int])),
        forall|b: int|
            0 <= b < n && reach@[b] && dom@[b]@[h as int] && has_edge(succs@, b, h as int)
                ==> #[trigger] r@[b],
{
    let mut in_loop = filled(n, false);
    in_loop.set(h, true);
    // Seed with the back-edge sources.
    let mut b: usize = 0;
    while b < n
        invariant
            b <= n,
            h < n,
            n == succs@.len(),
            n == dom@.len(),
            n == reach@.len(),
            in_loop@.len() == n,
            in_loop@[h as int],
            forall|x: int, j: int|
                0 <= x < n && 0 <= j < succs@[x]@.len() ==> #[trigger] succs@[x]@[j] < n,
            forall|x: int| 0 <= x < n ==> (#[trigger] dom@[x])@.len() == n,
            forall|x: int|
                0 <= x < n && #[trigger] in_loop@[x] ==> (x == h || (reach@[x] && dom@[x]@[h as int])),
            forall|x: int|
                0 <= x < b && reach@[x] && dom@[x]@[h as int] && has_edge(succs@, x, h as int)
                    ==> #[trigger] in_loop@[x],
        decreases n - b,
    {
        let edge = contains_id(&succs[b], h);
        if reach[b] && dom[b][h] && edge {
            in_loop.set(b, true);
        }
        proof {
            if reach@[b as int] && dom@[b as int]@[h as int] && has_edge(
                succs@,
                b as int,
                h as int,
            ) {
                let j = choose|j: int|
                    0 <= j < succs@[b as int]@.len() && #[trigger] succs@[b as int]@[j]
                        == h as int;
                assert(succs@[b as int]@.contains(h));
                assert(in_loop@[b as int]);
            }
        }
        b = b + 1;
    }
    // Close backwards: a dominated block with a successor already in the
    // loop (other than the header) belongs to the loop.
    let budget: usize = if n < usize::MAX { n + 1 } else { n };
    let mut round: usize = 0;
    while round < budget
        invariant
            h < n,
            n == succs@.len(),
            n == dom@.len(),
            n == reach@.len(),
            in_loop@.len() == n,
            in_loop@[h as int],
            forall|x: int, j: int|
                0 <= x < n && 0 <= j < succs@[x]@.len() ==> #[trigger] succs@[x]@[j] < n,
            forall|x: int| 0 <= x < n ==> (#[trigger] dom@[x])@.len() == n,
            forall|x: int|
                0 <= x < n && #[trigger] in_loop@[x] ==> (x == h || (reach@[x] && dom@[x]@[h as int])),
            forall|x: int|
                0 <= x < n && reach@[x] && dom@[x]@[h as int] && has_edge(succs@, x, h as int)
                    ==> #[trigger] in_loop@[x],
        decreases budget - round,
    {
        let mut x: usize = 0;
        while x < n
            invariant
                x <= n,
                h < n,
                n == succs@.len(),
                n == dom@.len(),
                n == reach@.len(),
                in_loop@.len() == n,
                in_loop@[h as int],
                forall|y: int, j: int|
                    0 <= y < n && 0 <= j < succs@[y]@.len() ==> #[trigger] succs@[y]@[j] < n,
                forall|y: int| 0 <= y < n ==> (#[trigger] dom@[y])@.len() == n,
                forall|y: int|
                    0 <= y < n && #[trigger] in_loop@[y] ==> (y == h || (reach@[y] && dom@[y]@[h as int])),
                forall|y: int|
                    0 <= y < n && reach@[y] && dom@[y]@[h as int] && has_edge(succs@, y, h as int)
                        ==> #[trigger] in_loop@[y],
            decreases n - x,
        {
            if !in_loop[x] && reach[x] && dom[x][h] {
                let row = &succs[x];
                let mut j: usize = 0;
                let mut hit: bool = false;
                while j < row.len()
                    invariant
                        x < n,
                        h < n,
                        n == succs@.len(),
                        n == dom@.len(),
                        n == reach@.len(),
                        in_loop@.len() == n,
                        in_loop@[h as int],
                        forall|y: int|
                            0 <= y < n && #[trigger] in_loop@[y] ==> (y == h || (reach@[y]
                                && dom@[y]@[h as int])),
                        forall|y: int|
                            0 <= y < n && reach@[y] && dom@[y]@[h as int] && has_edge(
                                succs@,
                                y,
                                h as int,
                            ) ==> #[trigger] in_loop@[y],
                        row@ == succs@[x as int]@,
                        j <= row@.len(),
                        forall|y: int, k: int|
                            0 <= y < n && 0 <= k < succs@[y]@.len() ==> #[trigger] succs@[y]@[k]
                                < n,
                    decreases row@.len() - j,
                {
                    let t = row[j];
                    if t != h && in_loop[t] {
                        hit = true;
                    }
                    j = j + 1;
                }
                if hit {
                    in_loop.set(x, true);
                }
            }
            x = x + 1;
        }
        round = round + 1;
    }
    in_loop
}

/// Counts the set entries of a row.
fn popcount(row: &Vec<bool>) -> (c: usize)
    ensures
        c == count_trues(row@),
{
    let mut c: usize = 0;
    let mut i: usize = 0;
    while i < row.len()
        invariant
            i <= row@.len(),
            c == count_trues(row@.take(i as int)),
            c <= i,
        decreases row@.len() - i,
    {
        proof {
            assert(row@.take(i + 1).drop_last() =~= row@.take(i as int));
            assert(row@.take(i + 1).last() == row@[i as int]);
        }
        if row[i] {
            c = c + 1;
        }
        i = i + 1;
    }
    proof {
        assert(row@.take(row@.len() as int) =~= row@);
    }
    c
}

/// Computes immediate dominators: among the strict dominators of a
/// reachable non-entry block, the one with the largest dominator set of its
/// own (the dominators of a block form a chain, so this is the closest
/// one).  `None` stands for the entry, an unreachable block, or a block
/// with no strict dominator.
fn compute_idom(
    n: usize,
    dom: &Vec<Vec<bool>>,
    reach: &Vec<bool>,
) -> (r: Vec<Option<BlockId>>)
    requires
        dom@.len() == n,
        reach@.len() == n,
        forall|b: int| 0 <= b < n ==> (#[trigger] dom@[b])@.len() == n,
    ensures
        r@.len() == n,
        forall|b: int| 0 <= b < n ==> ((#[trigger] r@[b]) matches Some(d) ==> d < n),
        forall|b: int|
            0 <= b < n ==> ((#[trigger] r@[b]) matches Some(d) ==> d != b && dom@[b]@[d as int]),
        forall|b: int|
            0 <= b < n ==> (((#[trigger] r@[b]) is Some) <==> (b != 0 && reach@[b] && exists|
                d: int,
            |
                0 <= d < n && d != b && #[trigger] dom@[b]@[d])),
        forall|b: int|
            0 <= b < n ==> ((#[trigger] r@[b]) matches Some(d) ==> forall|dp: int|
                0 <= dp < n && dp != b && #[trigger] dom@[b]@[dp] ==> count_trues(dom@[dp]@)
                    <= count_trues(dom@[d as int]@)),
{
    let mut counts: Vec<usize> = Vec::new();
    let mut b: usize = 0;
    while b < n
        invariant
            b <= n,
            n == dom@.len(),
            counts@.len() == b,
            forall|x: int| 0 <= x < n ==> (#[trigger] dom@[x])@.len() == n,
            forall|x: int| 0 <= x < b ==> #[trigger] counts@[x] == count_trues(dom@[x]@),
        decreases n - b,
    {
        counts.push(popcount(&dom[b]));
        b = b + 1;
    }
    let mut idom: Vec<Option<BlockId>> = Vec::new();
    let mut b: usize = 0;
    while b < n
        invariant
            b <= n,
            n == dom@.len(),
            n == reach@.len(),
            counts@.len() == n,
            idom@.len() == b,
            forall|x: int| 0 <= x < n ==> (#[trigger] dom@[x])@.len() == n,
            forall|x: int| 0 <= x < n ==> #[trigger] counts@[x] == count_trues(dom@[x]@),
            forall|x: int| 0 <= x < b ==> ((#[trigger] idom@[x]) matches Some(d) ==> d < n),
            forall|x: int|
                0 <= x < b ==> ((#[trigger] idom@[x]) matches Some(d) ==> d != x && dom@[x]@[d as int]),
            forall|x: int|
                0 <= x < b ==> (((#[trigger] idom@[x]) is Some) <==> (x != 0 && reach@[x]
                    && exists|d: int| 0 <= d < n && d != x && #[trigger] dom@[x]@[d])),
            forall|x: int|
                0 <= x < b ==> ((#[trigger] idom@[x]) matches Some(d) ==> forall|dp: int|
                    0 <= dp < n && dp != x && #[trigger] dom@[x]@[dp] ==> count_trues(dom@[dp]@)
                        <= count_trues(dom@[d as int]@)),
        decreases n - b,
    {
        if b == 0 || !reach[b] {
            idom.push(None);
        } else {
            let mut best: Option<BlockId> = None;
            let mut best_count: usize = 0;
            let mut d: usize = 0;
            while d < n
                invariant
                    b < n,
                    d <= n,
                    n == dom@.len(),
                    counts@.len() == n,
                    forall|x: int| 0 <= x < n ==> (#[trigger] dom@[x])@.len() == n,
                    forall|x: int| 0 <= x < n ==> #[trigger] counts@[x] == count_trues(dom@[x]@),
                    best matches Some(x) ==> x < n && x != b && dom@[b as int]@[x as int]
                        && best_count == count_trues(dom@[x as int]@),
                    (best is Some) <==> (exists|d2: int|
                        0 <= d2 < d && d2 != b && #[trigger] dom@[b as int]@[d2]),
                    best matches Some(x) ==> forall|dp: int|
                        0 <= dp < d && dp != b && #[trigger] dom@[b as int]@[dp] ==> count_trues(
                            dom@[dp]@,
                        ) <= best_count,
                decreases n - d,
            {
                if d != b && dom[b][d] {
                    let c = counts[d];
                    if best.is_none() || c > best_count {
                        best = Some(d);
                        best_count = c;
                    }
                }
                d = d + 1;
            }
            idom.push(best);
        }
        b = b + 1;
    }
    idom
}

/// What the analysis tables of a [`CfgInfo`] mean, beyond their shape:
/// the reachable set is the least set that contains the entry and is
/// closed under successors; the dominator rows are the greatest solution
/// of the standard dataflow equations with the entry dominated exactly by
/// itself; the predecessor rows list exactly the edge sources without
/// repetition; a block is marked a header exactly when a reachable block
/// it dominates has an edge to it; the loop of a header contains the
/// header and its back-edge sources and only blocks the header dominates;
/// and the immediate dominator of a block is a strict dominator with the
/// largest dominator set, present exactly when one exists.
pub open spec fn cfg_analyses(g: CfgInfo) -> bool {
    &&& g.n >= 1 ==> g.reachable@[0]
    &&& closed_under_succs(g.succs@, g.reachable@)
    &&& forall|rp: Seq<bool>, x: int|
        #![trigger closed_under_succs(g.succs@, rp), rp[x]]
        closed_under_succs(g.succs@, rp) && rp.len() == g.n && rp[0] && 0 <= x < g.n
            && g.reachable@[x] ==> rp[x]
    &&& forall|d: int| 0 <= d < g.n ==> ((#[trigger] g.dom@[0]@[d]) <==> d == 0)
    &&& forall|b: int| 0 <= b < g.n ==> #[trigger] g.dom@[b]@[b]
    &&& dom_equations(g.dom@, g.preds@, g.reachable@, g.n as int)
    &&& dom_greatest(g.dom@, g.preds@, g.reachable@, g.n as int)
    &&& forall|t: int, b: int|
        0 <= t < g.n && 0 <= b < g.n ==> ((#[trigger] g.preds@[t]@.contains(b as BlockId))
            <==> has_edge(g.succs@, b, t))
    &&& forall|t: int, i: int, j: int|
        0 <= t < g.n && 0 <= i < j < g.preds@[t]@.len() ==> #[trigger] g.preds@[t]@[i]
            != #[trigger] g.preds@[t]@[j]
    &&& forall|t: int|
        0 <= t < g.n ==> ((#[trigger] g.is_header@[t]) <==> has_back_edge_to(
            g.succs@,
            g.dom@,
            g.reachable@,
            t,
        ))
    &&& forall|h: int| 0 <= h < g.n && g.is_header@[h] ==> #[trigger] g.loop_body@[h]@[h]
    &&& forall|h: int, x: int|
        0 <= h < g.n && 0 <= x < g.n && g.is_header@[h] && (#[trigger] g.loop_body@[h]@[x]) ==> (x
            == h || (g.reachable@[x] && g.dom@[x]@[h]))
    &&& forall|h: int, x: int|
        0 <= h < g.n && 0 <= x < g.n && !g.is_header@[h] ==> !(#[trigger] g.loop_body@[h]@[x])
    &&& forall|h: int, b: int|
        0 <= h < g.n && 0 <= b < g.n && g.is_header@[h] && g.reachable@[b] && g.dom@[b]@[h] && (
        #[trigger] has_edge(g.succs@, b, h)) ==> g.loop_body@[h]@[b]
    &&& forall|b: int|
        0 <= b < g.n ==> ((#[trigger] g.idom@[b]) matches Some(d) ==> d != b && g.dom@[b]@[d as int])
    &&& forall|b: int|
        0 <= b < g.n ==> (((#[trigger] g.idom@[b]) is Some) <==> (b != 0 && g.reachable@[b]
            && exists|d: int| 0 <= d < g.n && d != b && #[trigger] g.dom@[b]@[d]))
    &&& forall|b: int|
        0 <= b < g.n ==> ((#[trigger] g.idom@[b]) matches Some(d) ==> forall|dp: int|
            0 <= dp < g.n && dp != b && #[trigger] g.dom@[b]@[dp] ==> count_trues(g.dom@[dp]@)
                <= count_trues(g.dom@[d as int]@))
}

/// Builds the full graph information for a body.  Succeeds exactly on
/// well-targeted bodies; otherwise reports a dangling block reference.
pub fn build_cfg_info(blocks: &Vec<BlockData>) -> (r: Result<CfgInfo, BlockId>)
    requires
        blocks@.len() >= 1,
    ensures
        (r is Ok) <==> well_targeted(blocks@),
        r matches Err(t) ==> dangling_target(blocks@, t),
        r matches Ok(g) ==> cfg_wf(g, blocks@) && cfg_analyses(g),
{
    let n = blocks.len();
    let succs = match compute_succs(blocks) {
        Ok(s) => s,
        Err(t) => {
            return Err(t);
        },
    };
    let preds = compute_preds(n, &succs);
    let reach = compute_reachable(n, &succs);
    let dom = compute_dom(n, &preds, &reach);
    let headers = compute_headers(n, &succs, &dom, &reach);
    let mut loop_body: Vec<Vec<bool>> = Vec::new();
    let mut b: usize = 0;
    while b < n
        invariant
            b <= n,
            n >= 1,
            n == succs@.len(),
            n == dom@.len(),
            n == reach@.len(),
            headers@.len() == n,
            loop_body@.len() == b,
            forall|x: int, j: int|
                0 <= x < n && 0 <= j < succs@[x]@.len() ==> #[trigger] succs@[x]@[j] < n,
            forall|x: int| 0 <= x < n ==> (#[trigger] dom@[x])@.len() == n,
            forall|x: int| 0 <= x < b ==> (#[trigger] loop_body@[x])@.len() == n,
            forall|h: int| 0 <= h < b && headers@[h] ==> #[trigger] loop_body@[h]@[h],
            forall|h: int, x: int|
                0 <= h < b && 0 <= x < n && headers@[h] && (#[trigger] loop_body@[h]@[x]) ==> (x
                    == h || (reach@[x] && dom@[x]@[h])),
            forall|h: int, x: int|
                0 <= h < b && 0 <= x < n && !headers@[h] ==> !(#[trigger] loop_body@[h]@[x]),
            forall|h: int, x: int|
                0 <= h < b && 0 <= x < n && headers@[h] && reach@[x] && dom@[x]@[h] && (
                #[trigger] has_edge(succs@, x, h)) ==> loop_body@[h]@[x],
        decreases n - b,
    {
        if headers[b] {
            loop_body.push(compute_loop_of(n, b, &succs, &dom, &reach));
        } else {
            loop_body.push(filled(n, false));
        }
        b = b + 1;
    }
    let idom = compute_idom(n, &dom, &reach);
    Ok(
        CfgInfo {
            n,
            succs,
            preds,
            reachable: reach,
            dom,
            idom,
            is_header: headers,
            loop_body,
        },
    )
}

} // verus!

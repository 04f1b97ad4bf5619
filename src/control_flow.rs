//! The control-flow graph of a function: successors, incoming edges, a
//! deterministic topological order, and the path predicate of each block.
use vstd::prelude::*;
use crate::error::{ErrorView, TranslateError};
use crate::instructions::{operand_spelling, CircomCodeGenerator, CircomOperand, OperandView};
use crate::ir::{convert_operand, operand_spec, operand_unsupported, IrBlock, IrTerminator};

verus! {

// ---------------------------------------------------------------- successors

/// The successors of a block, by block index.
#[derive(Debug)]
pub enum ChildrenInfo {
    Return,
    One(usize),
    Condition(CircomOperand, usize, usize),
}

pub enum ChildrenView {
    Return,
    One(int),
    Condition(OperandView, int, int),
}

impl View for ChildrenInfo {
    type V = ChildrenView;

    open spec fn view(&self) -> ChildrenView {
        match self {
            ChildrenInfo::Return => ChildrenView::Return,
            ChildrenInfo::One(t) => ChildrenView::One(*t as int),
            ChildrenInfo::Condition(o, t, f) => ChildrenView::Condition(o@, *t as int, *f as int),
        }
    }
}

pub open spec fn children_views(cs: Seq<ChildrenInfo>) -> Seq<ChildrenView> {
    cs.map_values(|c: ChildrenInfo| c@)
}

/// The index of the first block named `name`.
pub open spec fn block_index(blocks: Seq<IrBlock>, name: Seq<char>) -> Option<int>
    decreases blocks.len(),
{
    if blocks.len() == 0 {
        None
    } else {
        match block_index(blocks.drop_last(), name) {
            Some(i) => Some(i),
            None => if blocks.last().name@ == name {
                Some(blocks.len() - 1)
            } else {
                None
            },
        }
    }
}

/// The successors of one block, or the error its terminator gives.
pub open spec fn children_of(blocks: Seq<IrBlock>, t: IrTerminator) -> Result<ChildrenView, ErrorView> {
    match t {
        IrTerminator::Ret(_) => Ok(ChildrenView::Return),
        IrTerminator::Br(d) => match block_index(blocks, d@) {
            Some(i) => Ok(ChildrenView::One(i)),
            None => Err(ErrorView::UnknownBlock(d@)),
        },
        IrTerminator::CondBr { condition, true_dest, false_dest } => match operand_spec(condition) {
            None => Err(operand_unsupported(condition)),
            Some(o) => match block_index(blocks, true_dest@) {
                None => Err(ErrorView::UnknownBlock(true_dest@)),
                Some(ti) => match block_index(blocks, false_dest@) {
                    None => Err(ErrorView::UnknownBlock(false_dest@)),
                    Some(fi) => Ok(ChildrenView::Condition(o, ti, fi)),
                },
            },
        },
        IrTerminator::Other(s) => Err(ErrorView::Unsupported(s@)),
    }
}

/// The successors of the first `k` blocks, or the first error.
pub open spec fn children_prefix(blocks: Seq<IrBlock>, k: int) -> Result<Seq<ChildrenView>, ErrorView>
    decreases k,
{
    if k <= 0 {
        Ok(Seq::empty())
    } else {
        match children_prefix(blocks, k - 1) {
            Err(e) => Err(e),
            Ok(cs) => match children_of(blocks, blocks[k - 1].term) {
                Err(e) => Err(e),
                Ok(c) => Ok(cs.push(c)),
            },
        }
    }
}

fn find_block(blocks: &Vec<IrBlock>, name: &String) -> (r: Option<usize>)
    ensures
        r matches Some(i) ==> block_index(blocks@, name@) == Some(i as int) && i < blocks@.len(),
        r is None ==> block_index(blocks@, name@) is None,
{
    let mut i: usize = 0;
    while i < blocks.len()
        invariant
            i <= blocks.len(),
            block_index(blocks@.subrange(0, i as int), name@) is None,
        decreases blocks.len() - i,
    {
        let ghost pre = blocks@.subrange(0, i + 1);
        assert(pre.drop_last() == blocks@.subrange(0, i as int));
        if blocks[i].name == *name {
            proof {
                lemma_block_index_prefix(blocks@, i + 1, name@);
            }
            return Some(i);
        }
        i = i + 1;
    }
    assert(blocks@.subrange(0, blocks.len() as int) == blocks@);
    None
}

proof fn lemma_block_index_prefix(blocks: Seq<IrBlock>, n: int, name: Seq<char>)
    requires
        0 <= n <= blocks.len(),
        block_index(blocks.subrange(0, n), name) is Some,
    ensures
        block_index(blocks, name) == block_index(blocks.subrange(0, n), name),
    decreases blocks.len() - n,
{
    if n < blocks.len() {
        let p = blocks.subrange(0, n + 1);
        assert(p.drop_last() == blocks.subrange(0, n));
        lemma_block_index_prefix(blocks, n + 1, name);
    } else {
        assert(blocks.subrange(0, n) == blocks);
    }
}

fn resolve(blocks: &Vec<IrBlock>, name: &String) -> (r: Result<usize, TranslateError>)
    ensures
        r matches Ok(i) ==> i < blocks@.len(),
        r matches Ok(i) ==> block_index(blocks@, name@) == Some(i as int),
        r is Err ==> block_index(blocks@, name@) is None,
        r matches Err(e) ==> e@ == ErrorView::UnknownBlock(name@),
{
    match find_block(blocks, name) {
        Some(i) => Ok(i),
        None => Err(TranslateError::UnknownBlock(name.clone())),
    }
}

/// The successors of every block, by index; fails on an unsupported terminator
/// or condition and on a branch to a block that does not exist.
pub fn children(blocks: &Vec<IrBlock>) -> (r: Result<Vec<ChildrenInfo>, TranslateError>)
    ensures
        r is Ok <==> children_prefix(blocks@, blocks@.len() as int) is Ok,
        r matches Ok(cs) ==> children_prefix(blocks@, blocks@.len() as int) == Ok::<Seq<ChildrenView>, ErrorView>(children_views(cs@)),
        r matches Ok(cs) ==> valid_children(children_views(cs@)) && cs@.len() == blocks@.len(),
        r matches Err(e) ==> children_prefix(blocks@, blocks@.len() as int) == Err::<Seq<ChildrenView>, ErrorView>(e@),
{
    let mut out: Vec<ChildrenInfo> = Vec::new();
    let mut i: usize = 0;
    assert(children_views(out@) =~= Seq::<ChildrenView>::empty());
    while i < blocks.len()
        invariant
            i <= blocks.len(),
            out@.len() == i,
            forall|u: int| 0 <= u < i ==> match #[trigger] children_views(out@)[u] {
                ChildrenView::Return => true,
                ChildrenView::One(t) => 0 <= t < blocks@.len(),
                ChildrenView::Condition(_, t, f) => 0 <= t < blocks@.len() && 0 <= f < blocks@.len(),
            },
            children_prefix(blocks@, i as int) == Ok::<Seq<ChildrenView>, ErrorView>(children_views(out@)),
        decreases blocks.len() - i,
    {
        let c = match &blocks[i].term {
            IrTerminator::Ret(_) => ChildrenInfo::Return,
            IrTerminator::Br(d) => match resolve(blocks, d) {
                Ok(t) => ChildrenInfo::One(t),
                Err(e) => {
                    proof { lemma_children_stuck(blocks@, i as int + 1); }
                    return Err(e);
                },
            },
            IrTerminator::CondBr { condition, true_dest, false_dest } => {
                let o = match convert_operand(condition) {
                    Ok(o) => o,
                    Err(e) => {
                        proof { lemma_children_stuck(blocks@, i as int + 1); }
                        return Err(e);
                    },
                };
                let t = match resolve(blocks, true_dest) {
                    Ok(t) => t,
                    Err(e) => {
                        proof { lemma_children_stuck(blocks@, i as int + 1); }
                        return Err(e);
                    },
                };
                let f = match resolve(blocks, false_dest) {
                    Ok(f) => f,
                    Err(e) => {
                        proof { lemma_children_stuck(blocks@, i as int + 1); }
                        return Err(e);
                    },
                };
                ChildrenInfo::Condition(o, t, f)
            },
            IrTerminator::Other(s) => {
                let e = TranslateError::Unsupported(s.clone());
                proof { lemma_children_stuck(blocks@, i as int + 1); }
                return Err(e);
            },
        };
        let ghost before = out@;
        out.push(c);
        assert(children_views(out@) =~= children_views(before).push(out@[i as int]@));
        assert(forall|u: int| 0 <= u < i ==> children_views(out@)[u] == children_views(before)[u]);
        i = i + 1;
    }
    out_ok(blocks, out)
}

fn out_ok(blocks: &Vec<IrBlock>, out: Vec<ChildrenInfo>) -> (r: Result<Vec<ChildrenInfo>, TranslateError>)
    requires
        out@.len() == blocks@.len(),
        forall|u: int| 0 <= u < out@.len() ==> match #[trigger] children_views(out@)[u] {
            ChildrenView::Return => true,
            ChildrenView::One(t) => 0 <= t < blocks@.len(),
            ChildrenView::Condition(_, t, f) => 0 <= t < blocks@.len() && 0 <= f < blocks@.len(),
        },
        children_prefix(blocks@, blocks@.len() as int) == Ok::<Seq<ChildrenView>, ErrorView>(children_views(out@)),
    ensures
        r == Ok::<Vec<ChildrenInfo>, TranslateError>(out),
        valid_children(children_views(out@)),
{
    Ok(out)
}

/// The successors of the first `k` blocks, when there is no error, are `k`.
pub proof fn lemma_children_len(blocks: Seq<IrBlock>, k: int)
    requires
        k >= 0,
    ensures
        children_prefix(blocks, k) matches Ok(cs) ==> cs.len() == k,
    decreases k,
{
    if k > 0 {
        lemma_children_len(blocks, k - 1);
    }
}

proof fn lemma_children_stuck(blocks: Seq<IrBlock>, n: int)
    requires
        0 < n <= blocks.len(),
        children_prefix(blocks, n - 1) is Ok,
        children_of(blocks, blocks[n - 1].term) is Err,
    ensures
        children_prefix(blocks, n) == Err::<Seq<ChildrenView>, ErrorView>(children_of(blocks, blocks[n - 1].term)->Err_0),
        children_prefix(blocks, blocks.len() as int) == children_prefix(blocks, n),
    decreases blocks.len() - n,
{
    lemma_children_err_stays(blocks, n, blocks.len() as int);
}

proof fn lemma_children_err_stays(blocks: Seq<IrBlock>, n: int, m: int)
    requires
        0 < n <= m,
        children_prefix(blocks, n) is Err,
    ensures
        children_prefix(blocks, m) == children_prefix(blocks, n),
    decreases m - n,
{
    if m > n {
        lemma_children_err_stays(blocks, n, m - 1);
    }
}


// ---------------------------------------------------------------- incoming edges

/// An incoming edge of a block: from the true or false side of a conditional
/// branch on an operand, or from an unconditional branch.
#[derive(Debug)]
pub enum ParentInfo {
    TrueBranch(usize, CircomOperand),
    FalseBranch(usize, CircomOperand),
    Merge(usize),
}

pub enum ParentView {
    TrueBranch(int, OperandView),
    FalseBranch(int, OperandView),
    Merge(int),
}

impl View for ParentInfo {
    type V = ParentView;

    open spec fn view(&self) -> ParentView {
        match self {
            ParentInfo::TrueBranch(n, o) => ParentView::TrueBranch(*n as int, o@),
            ParentInfo::FalseBranch(n, o) => ParentView::FalseBranch(*n as int, o@),
            ParentInfo::Merge(n) => ParentView::Merge(*n as int),
        }
    }
}

impl Clone for ParentInfo {
    fn clone(&self) -> (r: Self)
        ensures
            r == *self,
    {
        match self {
            ParentInfo::TrueBranch(n, o) => ParentInfo::TrueBranch(*n, o.clone()),
            ParentInfo::FalseBranch(n, o) => ParentInfo::FalseBranch(*n, o.clone()),
            ParentInfo::Merge(n) => ParentInfo::Merge(*n),
        }
    }
}

pub open spec fn parent_source(p: ParentView) -> int {
    match p {
        ParentView::TrueBranch(n, _) => n,
        ParentView::FalseBranch(n, _) => n,
        ParentView::Merge(n) => n,
    }
}

/// The edges from block `u` (with successors `c`) into block `v`.
pub open spec fn parent_entries(c: ChildrenView, u: int, v: int) -> Seq<ParentView> {
    match c {
        ChildrenView::Return => Seq::empty(),
        ChildrenView::One(t) => if t == v {
            seq![ParentView::Merge(u)]
        } else {
            Seq::empty()
        },
        ChildrenView::Condition(o, t, f) => (if t == v {
            seq![ParentView::TrueBranch(u, o)]
        } else {
            Seq::empty()
        }) + (if f == v {
            seq![ParentView::FalseBranch(u, o)]
        } else {
            Seq::empty()
        }),
    }
}

/// The edges into `v` from the first `m` blocks, by source block, the true
/// side before the false side.
pub open spec fn parents_upto(cs: Seq<ChildrenView>, v: int, m: int) -> Seq<ParentView>
    decreases m,
{
    if m <= 0 {
        Seq::empty()
    } else {
        parents_upto(cs, v, m - 1) + parent_entries(cs[m - 1], m - 1, v)
    }
}

/// The incoming edges of block `v`.
pub open spec fn parents_of(cs: Seq<ChildrenView>, v: int) -> Seq<ParentView> {
    parents_upto(cs, v, cs.len() as int)
}

pub open spec fn parent_views(ps: Seq<ParentInfo>) -> Seq<ParentView> {
    ps.map_values(|p: ParentInfo| p@)
}

/// Every successor is the index of a block.
pub open spec fn valid_children(cs: Seq<ChildrenView>) -> bool {
    forall|u: int| 0 <= u < cs.len() ==> match #[trigger] cs[u] {
        ChildrenView::Return => true,
        ChildrenView::One(t) => 0 <= t < cs.len(),
        ChildrenView::Condition(_, t, f) => 0 <= t < cs.len() && 0 <= f < cs.len(),
    }
}

fn entries(c: &ChildrenInfo, u: usize, v: usize, out: &mut Vec<ParentInfo>)
    ensures
        parent_views(final(out)@) == parent_views(old(out)@) + parent_entries(c@, u as int, v as int),
{
    let ghost start = parent_views(out@);
    match c {
        ChildrenInfo::Return => {},
        ChildrenInfo::One(t) => {
            if *t == v {
                out.push(ParentInfo::Merge(u));
            }
        },
        ChildrenInfo::Condition(o, t, f) => {
            if *t == v {
                out.push(ParentInfo::TrueBranch(u, o.clone()));
            }
            let ghost mid = parent_views(out@);
            if *f == v {
                out.push(ParentInfo::FalseBranch(u, o.clone()));
            }
            assert(parent_views(out@) =~= mid + (if *f == v {
                seq![ParentView::FalseBranch(u as int, o@)]
            } else {
                Seq::empty()
            }));
        },
    }
    assert(parent_views(out@) =~= start + parent_entries(c@, u as int, v as int));
}

/// The incoming edges of every block, in order of source block.
pub fn parents(children: &Vec<ChildrenInfo>) -> (r: Vec<Vec<ParentInfo>>)
    ensures
        r@.len() == children@.len(),
        forall|v: int| 0 <= v < r@.len() ==> parent_views(#[trigger] r@[v]@) == parents_of(children_views(children@), v),
{
    let ghost cs = children_views(children@);
    let n = children.len();
    let mut r: Vec<Vec<ParentInfo>> = Vec::new();
    let mut v: usize = 0;
    while v < n
        invariant
            n == children@.len(),
            cs == children_views(children@),
            v <= n,
            r@.len() == v,
            forall|w: int| 0 <= w < v ==> parent_views(#[trigger] r@[w]@) == parents_of(cs, w),
        decreases n - v,
    {
        let mut ps: Vec<ParentInfo> = Vec::new();
        let mut u: usize = 0;
        assert(parent_views(ps@) =~= Seq::<ParentView>::empty());
        while u < n
            invariant
                n == children@.len(),
                cs == children_views(children@),
                u <= n,
                parent_views(ps@) == parents_upto(cs, v as int, u as int),
            decreases n - u,
        {
            entries(&children[u], u, v, &mut ps);
            assert(cs[u as int] == children@[u as int]@);
            u = u + 1;
        }
        r.push(ps);
        v = v + 1;
    }
    r
}

// ---------------------------------------------------------------- topological order

/// How many edges go from `c` to `v`.
pub open spec fn occ(c: ChildrenView, v: int) -> nat {
    match c {
        ChildrenView::Return => 0,
        ChildrenView::One(t) => if t == v { 1 } else { 0 },
        ChildrenView::Condition(_, t, f) => (if t == v { 1nat } else { 0nat }) + (if f == v { 1nat } else { 0nat }),
    }
}

/// How many edges go to `v` from the first `m` blocks outside `done`.
pub open spec fn pending(cs: Seq<ChildrenView>, done: Set<int>, v: int, m: int) -> nat
    decreases m,
{
    if m <= 0 {
        0
    } else {
        pending(cs, done, v, m - 1) + if done.contains(m - 1) { 0 } else { occ(cs[m - 1], v) }
    }
}

/// `v` occurs in `order`.
pub open spec fn listed(order: Seq<int>, v: int) -> bool {
    exists|i: int| 0 <= i < order.len() && order[i] == v
}

/// `order` lists every block exactly once, and every edge goes forward in it.
pub open spec fn is_topo_order(cs: Seq<ChildrenView>, order: Seq<int>) -> bool {
    &&& forall|i: int| 0 <= i < order.len() ==> 0 <= #[trigger] order[i] < cs.len()
    &&& forall|i: int, j: int| 0 <= i < j < order.len() ==> #[trigger] order[i] != #[trigger] order[j]
    &&& forall|v: int| 0 <= v < cs.len() ==> #[trigger] listed(order, v)
    &&& forall|i: int, j: int|
        0 <= i < order.len() && 0 <= j < order.len() && occ(cs[#[trigger] order[i]], #[trigger] order[j]) > 0 ==> i < j
}

/// The graph has no cycle: some order puts every edge forward.
pub open spec fn is_acyclic(cs: Seq<ChildrenView>) -> bool {
    exists|order: Seq<int>| is_topo_order(cs, order)
}

pub open spec fn usize_ints(s: Seq<usize>) -> Seq<int> {
    s.map_values(|x: usize| x as int)
}

proof fn lemma_pending_insert(cs: Seq<ChildrenView>, done: Set<int>, u: int, v: int, m: int)
    requires
        !done.contains(u),
        0 <= u,
    ensures
        pending(cs, done.insert(u), v, m) + (if u < m { occ(cs[u], v) } else { 0 }) == pending(cs, done, v, m),
    decreases m,
{
    if m > 0 {
        lemma_pending_insert(cs, done, u, v, m - 1);
    }
}

proof fn lemma_pending_ge(cs: Seq<ChildrenView>, done: Set<int>, u: int, v: int, m: int)
    requires
        !done.contains(u),
        0 <= u < m,
    ensures
        pending(cs, done, v, m) >= occ(cs[u], v),
    decreases m,
{
    if m - 1 > u {
        lemma_pending_ge(cs, done, u, v, m - 1);
    }
}

proof fn lemma_pending_zero(cs: Seq<ChildrenView>, done: Set<int>, v: int, m: int)
    ensures
        pending(cs, done, v, m) == 0 <==> forall|u: int| 0 <= u < m && !done.contains(u) ==> occ(#[trigger] cs[u], v) == 0,
    decreases m,
{
    if m > 0 {
        lemma_pending_zero(cs, done, v, m - 1);
    }
}

proof fn lemma_prefix_outside(cs: Seq<ChildrenView>, bad: Set<int>, order: Seq<int>, k: int)
    requires
        is_topo_order(cs, order),
        0 <= k <= order.len(),
        forall|v: int| #[trigger] bad.contains(v) ==> exists|u: int| 0 <= u < cs.len() && bad.contains(u) && occ(cs[u], v) > 0,
    ensures
        forall|i: int| 0 <= i < k ==> !bad.contains(#[trigger] order[i]),
    decreases k,
{
    if k > 0 {
        lemma_prefix_outside(cs, bad, order, k - 1);
        if bad.contains(order[k - 1]) {
            let v = order[k - 1];
            let u = choose|u: int| 0 <= u < cs.len() && bad.contains(u) && occ(cs[u], v) > 0;
            assert(listed(order, u));
            let i = choose|i: int| 0 <= i < order.len() && order[i] == u;
            assert(occ(cs[order[i]], order[k - 1]) > 0);
            assert(i < k - 1);
        }
    }
}

/// Where every block of a non-empty set has an edge into it from the set, no
/// order puts every edge forward.
proof fn lemma_closed_set_blocks_order(cs: Seq<ChildrenView>, bad: Set<int>, w: int, order: Seq<int>)
    requires
        bad.contains(w),
        0 <= w < cs.len(),
        forall|v: int| #[trigger] bad.contains(v) ==> exists|u: int| 0 <= u < cs.len() && bad.contains(u) && occ(cs[u], v) > 0,
    ensures
        !is_topo_order(cs, order),
{
    if is_topo_order(cs, order) {
        lemma_prefix_outside(cs, bad, order, order.len() as int);
        assert(listed(order, w));
        let i = choose|i: int| 0 <= i < order.len() && order[i] == w;
        assert(!bad.contains(order[i]));
    }
}

/// The blocks that sit in `q` before position `head`.
pub open spec fn done_set(q: Seq<usize>, head: int) -> Set<int> {
    Set::new(|x: int| exists|i: int| 0 <= i < head && q[i] as int == x)
}

pub open spec fn queued(q: Seq<usize>, v: int) -> bool {
    exists|i: int| 0 <= i < q.len() && q[i] as int == v
}

/// Kahn's in-degrees: the number of edges into each block.
pub open spec fn initial_indeg(cs: Seq<ChildrenView>) -> Seq<int> {
    Seq::new(cs.len(), |w: int| pending(cs, Set::empty(), w, cs.len() as int) as int)
}

/// The blocks among the first `v` without incoming edges, in index order.
pub open spec fn initial_queue(indeg: Seq<int>, v: int) -> Seq<int>
    decreases v,
{
    if v <= 0 {
        Seq::empty()
    } else {
        initial_queue(indeg, v - 1) + if indeg[v - 1] == 0 {
            seq![v - 1]
        } else {
            Seq::<int>::empty()
        }
    }
}

/// One edge into `c` consumed: its count drops, and it is queued at zero.
pub open spec fn release_spec(st: (Seq<int>, Seq<int>), c: int) -> (Seq<int>, Seq<int>) {
    (st.0.update(c, st.0[c] - 1), if st.0[c] == 1 {
        st.1.push(c)
    } else {
        st.1
    })
}

/// The edges out of `u` consumed, the true side before the false side.
pub open spec fn pop_spec(cs: Seq<ChildrenView>, st: (Seq<int>, Seq<int>), u: int) -> (Seq<int>, Seq<int>) {
    match cs[u] {
        ChildrenView::Return => st,
        ChildrenView::One(t) => release_spec(st, t),
        ChildrenView::Condition(_, t, f) => release_spec(release_spec(st, t), f),
    }
}

/// The queue once every queued block from position `head` on is taken off
/// (at most `fuel` of them).
pub open spec fn kahn_loop(cs: Seq<ChildrenView>, st: (Seq<int>, Seq<int>), head: int, fuel: nat) -> Seq<int>
    decreases fuel,
{
    if fuel == 0 || head < 0 || head >= st.1.len() {
        st.1
    } else {
        kahn_loop(cs, pop_spec(cs, st, st.1[head]), head + 1, (fuel - 1) as nat)
    }
}

/// The order in which Kahn's algorithm, first in first out, takes the blocks
/// off its queue.
pub open spec fn kahn_order(cs: Seq<ChildrenView>) -> Seq<int> {
    let d = initial_indeg(cs);
    kahn_loop(cs, (d, initial_queue(d, cs.len() as int)), 0, cs.len())
}

/// A topological order of the blocks by Kahn's algorithm: the blocks without
/// incoming edges first, in index order, then each block as soon as its last
/// incoming edge is consumed (first in, first out). Fails exactly when the
/// graph has a cycle.
pub fn topological_sort(children: &Vec<ChildrenInfo>, parents: &Vec<Vec<ParentInfo>>) -> (r: Result<Vec<usize>, TranslateError>)
    requires
        valid_children(children_views(children@)),
        parents@.len() == children@.len(),
        forall|v: int| 0 <= v < parents@.len() ==> parent_views(#[trigger] parents@[v]@) == parents_of(children_views(children@), v),
    ensures
        r is Ok <==> is_acyclic(children_views(children@)),
        r matches Ok(order) ==> is_topo_order(children_views(children@), usize_ints(order@)),
        r matches Ok(order) ==> usize_ints(order@) == kahn_order(children_views(children@)),
        r matches Err(e) ==> e@ == ErrorView::Cycle,
{
    let ghost cs = children_views(children@);
    let n = children.len();
    let mut indeg: Vec<usize> = Vec::new();
    let mut v: usize = 0;
    while v < n
        invariant
            n == cs.len(),
            cs == children_views(children@),
            parents@.len() == n,
            forall|w: int| 0 <= w < n ==> parent_views(#[trigger] parents@[w]@) == parents_of(cs, w),
            v <= n,
            indeg@.len() == v,
            forall|w: int| 0 <= w < v ==> #[trigger] indeg@[w] == pending(cs, Set::empty(), w, n as int),
        decreases n - v,
    {
        proof {
            lemma_parents_count(cs, v as int, n as int);
            assert(parent_views(parents@[v as int]@).len() == parents@[v as int]@.len());
        }
        indeg.push(parents[v].len());
        v = v + 1;
    }
    let mut queue: Vec<usize> = Vec::new();
    let mut v: usize = 0;
    proof {
        assert(done_set(queue@, 0) =~= Set::<int>::empty());
        assert(usize_ints(queue@) =~= Seq::<int>::empty());
    }
    while v < n
        invariant
            n == cs.len(),
            cs == children_views(children@),
            valid_children(cs),
            v <= n,
            indeg@.len() == n,
            forall|w: int| 0 <= w < n ==> #[trigger] indeg@[w] == pending(cs, Set::empty(), w, n as int),
            forall|i: int| 0 <= i < queue@.len() ==> #[trigger] queue@[i] < v,
            forall|i: int, j: int| 0 <= i < j < queue@.len() ==> #[trigger] queue@[i] < #[trigger] queue@[j],
            forall|w: int| 0 <= w < v ==> (indeg@[w] == 0 <==> #[trigger] queued(queue@, w)),
            forall|j: int, u: int| 0 <= j < queue@.len() && 0 <= u < n ==> #[trigger] occ(cs[u], queue@[j] as int) == 0,
            usize_ints(queue@) == initial_queue(usize_ints(indeg@), v as int),
        decreases n - v,
    {
        let ghost qb = usize_ints(queue@);
        if indeg[v] == 0 {
            proof {
                lemma_pending_zero(cs, Set::empty(), v as int, n as int);
            }
            let ghost q0 = queue@;
            queue.push(v);
            proof {
                assert(queue@[q0.len() as int] == v);
                assert(queued(queue@, v as int));
                assert forall|w: int| 0 <= w < v + 1 implies (indeg@[w] == 0 <==> #[trigger] queued(queue@, w)) by {
                    if w < v {
                        if queued(queue@, w) {
                            let i = choose|i: int| 0 <= i < queue@.len() && queue@[i] as int == w;
                            assert(i < q0.len());
                            assert(q0[i] == queue@[i]);
                            assert(queued(q0, w));
                        }
                        if indeg@[w] == 0 {
                            assert(queued(q0, w));
                            let i = choose|i: int| 0 <= i < q0.len() && q0[i] as int == w;
                            assert(q0[i] == queue@[i]);
                        }
                    }
                }
            }
        } else {
            proof {
                assert forall|w: int| 0 <= w < v + 1 implies (indeg@[w] == 0 <==> #[trigger] queued(queue@, w)) by {
                    if w == v && queued(queue@, w) {
                        let i = choose|i: int| 0 <= i < queue@.len() && queue@[i] as int == w;
                    }
                }
            }
        }
        proof {
            if indeg@[v as int] == 0 {
                assert(usize_ints(queue@) =~= qb + seq![v as int]);
            } else {
                assert(usize_ints(queue@) =~= qb + Seq::<int>::empty());
            }
        }
        v = v + 1;
    }
    proof {
        assert forall|i: int, j: int| 0 <= i < j < queue@.len() implies queue@[i] != queue@[j] by {}
        assert(usize_ints(indeg@) =~= initial_indeg(cs));
    }
    let ghost zeros = Seq::new(n as nat, |w: int| 0nat);
    proof {
        assert forall|w: int| 0 <= w < n implies #[trigger] indeg@[w] == pending(cs, done_set(queue@, 0), w, n as int) + zeros[w] by {
            assert(done_set(queue@, 0) =~= Set::<int>::empty());
        }
        assert forall|j: int, u: int|
            0 <= j < queue@.len() && 0 <= u < n && #[trigger] occ(cs[u], queue@[j] as int) > 0 implies exists|i: int|
                0 <= i < j && i < 0 && queue@[i] as int == u by {}
        assert(kahn_state(cs, indeg@, queue@, 0, zeros));
    }
    let mut head: usize = 0;
    while head < queue.len()
        invariant
            n == cs.len(),
            cs == children_views(children@),
            zeros == Seq::new(n as nat, |w: int| 0nat),
            kahn_state(cs, indeg@, queue@, head as int, zeros),
            kahn_loop(cs, (usize_ints(indeg@), usize_ints(queue@)), head as int, (n - head) as nat) == kahn_order(cs),
            head <= n,
        decreases n - head,
    {
        proof {
            let qi = usize_ints(queue@);
            assert forall|i: int, j: int| 0 <= i < j < qi.len() implies #[trigger] qi[i] != #[trigger] qi[j] by {
                assert(queue@[i] != queue@[j]);
            }
            lemma_distinct_bounded(qi, n as int);
        }
        let u = queue[head];
        let ghost done0 = done_set(queue@, head as int);
        let ghost extra = Seq::new(n as nat, |w: int| occ(cs[u as int], w));
        proof {
            assert(!done0.contains(u as int)) by {
                if done0.contains(u as int) {
                    let i = choose|i: int| 0 <= i < head && queue@[i] as int == u as int;
                }
            }
            assert(done_set(queue@, head + 1) =~= done0.insert(u as int));
            assert forall|w: int| 0 <= w < n implies #[trigger] indeg@[w] == pending(cs, done_set(queue@, head + 1), w, n as int) + extra[w] by {
                lemma_pending_insert(cs, done0, u as int, w, n as int);
            }
            assert forall|j: int, x: int|
                0 <= j < queue@.len() && 0 <= x < n && #[trigger] occ(cs[x], queue@[j] as int) > 0 implies exists|i: int|
                    0 <= i < j && i < head + 1 && queue@[i] as int == x by {
                let i = choose|i: int| 0 <= i < j && i < head && queue@[i] as int == x;
            }
            assert(kahn_state(cs, indeg@, queue@, head + 1, extra));
        }
        let ghost st_before = (usize_ints(indeg@), usize_ints(queue@));
        proof {
            assert(queue@.len() <= n);
            assert(st_before.1[head as int] == u as int);
        }
        head = head + 1;
        assert(cs[u as int] == children@[u as int]@);
        match &children[u] {
            ChildrenInfo::Return => {
                assert(extra =~= zeros);
            },
            ChildrenInfo::One(t) => {
                let t = *t;
                release(&mut indeg, &mut queue, t, Ghost(cs), Ghost(head as int), Ghost(extra));
                assert(extra.update(t as int, (extra[t as int] - 1) as nat) =~= zeros);
                assert((usize_ints(indeg@), usize_ints(queue@)) == release_spec(st_before, t as int)) by {
                    assert(usize_ints(indeg@) =~= release_spec(st_before, t as int).0);
                    assert(usize_ints(queue@) =~= release_spec(st_before, t as int).1);
                }
            },
            ChildrenInfo::Condition(_, t, f) => {
                let t = *t;
                let f = *f;
                release(&mut indeg, &mut queue, t, Ghost(cs), Ghost(head as int), Ghost(extra));
                let ghost st_mid = (usize_ints(indeg@), usize_ints(queue@));
                assert(st_mid == release_spec(st_before, t as int)) by {
                    assert(usize_ints(indeg@) =~= release_spec(st_before, t as int).0);
                    assert(usize_ints(queue@) =~= release_spec(st_before, t as int).1);
                }
                let ghost extra1 = extra.update(t as int, (extra[t as int] - 1) as nat);
                release(&mut indeg, &mut queue, f, Ghost(cs), Ghost(head as int), Ghost(extra1));
                assert(extra1.update(f as int, (extra1[f as int] - 1) as nat) =~= zeros);
                assert((usize_ints(indeg@), usize_ints(queue@)) == release_spec(st_mid, f as int)) by {
                    assert(usize_ints(indeg@) =~= release_spec(st_mid, f as int).0);
                    assert(usize_ints(queue@) =~= release_spec(st_mid, f as int).1);
                }
            },
        }
    }
    assert(done_set(queue@, queue@.len() as int) =~= Set::new(|x: int| queued(queue@, x)));
    assert(usize_ints(queue@) == kahn_order(cs));
    let mut w: usize = 0;
    while w < n
        invariant
            n == cs.len(),
            cs == children_views(children@),
            zeros == Seq::new(n as nat, |w: int| 0nat),
            kahn_state(cs, indeg@, queue@, queue@.len() as int, zeros),
            done_set(queue@, queue@.len() as int) =~= Set::new(|x: int| queued(queue@, x)),
            usize_ints(queue@) == kahn_order(cs),
            indeg@.len() == n,
            w <= n,
            forall|x: int| 0 <= x < w ==> #[trigger] indeg@[x] == 0,
        decreases n - w,
    {
        if indeg[w] != 0 {
            proof {
                let bad = Set::new(|x: int| 0 <= x < n && !queued(queue@, x));
                assert forall|v: int| #[trigger] bad.contains(v) implies exists|u: int|
                    0 <= u < cs.len() && bad.contains(u) && occ(cs[u], v) > 0 by {
                    assert(!queued(queue@, v));
                    assert(indeg@[v] != 0);
                    assert(zeros[v] == 0);
                    lemma_pending_zero(cs, done_set(queue@, queue@.len() as int), v, n as int);
                    let u = choose|u: int| 0 <= u < n && !done_set(queue@, queue@.len() as int).contains(u) && occ(#[trigger] cs[u], v) != 0;
                    assert(bad.contains(u));
                }
                assert(bad.contains(w as int));
                assert forall|order: Seq<int>| !is_topo_order(cs, order) by {
                    lemma_closed_set_blocks_order(cs, bad, w as int, order);
                }
            }
            return Err(TranslateError::Cycle);
        }
        w = w + 1;
    }
    proof {
        let order = usize_ints(queue@);
        assert forall|v: int| 0 <= v < cs.len() implies #[trigger] listed(order, v) by {
            assert(indeg@[v] == 0);
            assert(queued(queue@, v));
            let i = choose|i: int| 0 <= i < queue@.len() && queue@[i] as int == v;
            assert(order[i] == v);
        }
        assert forall|i: int, j: int|
            0 <= i < order.len() && 0 <= j < order.len() && occ(cs[#[trigger] order[i]], #[trigger] order[j]) > 0 implies i < j by {
            assert(occ(cs[queue@[i] as int], queue@[j] as int) > 0);
            let k = choose|k: int| 0 <= k < j && k < queue@.len() && queue@[k] as int == queue@[i] as int;
            if k != i {
                if k < i {
                    assert(queue@[k] != queue@[i]);
                } else {
                    assert(queue@[i] != queue@[k]);
                }
            }
        }
        assert forall|i: int, j: int| 0 <= i < j < order.len() implies #[trigger] order[i] != #[trigger] order[j] by {
            assert(queue@[i] != queue@[j]);
        }
        assert(is_topo_order(cs, order));
    }
    Ok(queue)
}

proof fn lemma_parents_count(cs: Seq<ChildrenView>, v: int, m: int)
    ensures
        parents_upto(cs, v, m).len() == pending(cs, Set::empty(), v, m),
    decreases m,
{
    if m > 0 {
        lemma_parents_count(cs, v, m - 1);
    }
}

/// The invariant of Kahn's algorithm: `indeg` counts, for each block, the edges
/// from blocks not yet taken off the queue plus `extra` still to be released;
/// a block is queued exactly when its count is zero; and every queued block
/// has all its predecessors taken off the queue before it.
pub open spec fn kahn_state(cs: Seq<ChildrenView>, indeg: Seq<usize>, q: Seq<usize>, head: int, extra: Seq<nat>) -> bool {
    let n = cs.len();
    &&& valid_children(cs)
    &&& indeg.len() == n
    &&& extra.len() == n
    &&& 0 <= head <= q.len()
    &&& forall|i: int| 0 <= i < q.len() ==> #[trigger] q[i] < n
    &&& forall|i: int, j: int| 0 <= i < j < q.len() ==> #[trigger] q[i] != #[trigger] q[j]
    &&& forall|w: int| 0 <= w < n ==> #[trigger] indeg[w] == pending(cs, done_set(q, head), w, n as int) + extra[w]
    &&& forall|w: int| 0 <= w < n ==> (indeg[w] == 0 <==> #[trigger] queued(q, w))
    &&& forall|j: int, u: int|
        0 <= j < q.len() && 0 <= u < n && #[trigger] occ(cs[u], q[j] as int) > 0 ==> exists|i: int|
            0 <= i < j && i < head && q[i] as int == u
}

proof fn lemma_distinct_bounded(q: Seq<int>, n: int)
    requires
        n >= 0,
        forall|i: int| 0 <= i < q.len() ==> 0 <= #[trigger] q[i] < n,
        forall|i: int, j: int| 0 <= i < j < q.len() ==> #[trigger] q[i] != #[trigger] q[j],
    ensures
        q.len() <= n,
    decreases n,
{
    if q.len() > 0 {
        assert(0 <= q[0] < n);
        if exists|k: int| 0 <= k < q.len() && q[k] == n - 1 {
            let k = choose|k: int| 0 <= k < q.len() && q[k] == n - 1;
            let r = q.remove(k);
            assert(r.len() == q.len() - 1);
            assert forall|i: int| 0 <= i < r.len() implies 0 <= #[trigger] r[i] < n - 1 by {
                if i < k {
                    assert(r[i] == q[i]);
                } else {
                    assert(r[i] == q[i + 1]);
                }
            }
            assert forall|i: int, j: int| 0 <= i < j < r.len() implies #[trigger] r[i] != #[trigger] r[j] by {
                if j < k {
                } else if i < k {
                    assert(r[j] == q[j + 1]);
                } else {
                    assert(r[i] == q[i + 1]);
                    assert(r[j] == q[j + 1]);
                }
            }
            lemma_distinct_bounded(r, n - 1);
        } else {
            assert forall|i: int| 0 <= i < q.len() implies 0 <= #[trigger] q[i] < n - 1 by {}
            lemma_distinct_bounded(q, n - 1);
        }
    }
}

/// Consumes one edge into `c`: its count drops by one, and it joins the queue
/// when the count reaches zero.
fn release(
    indeg: &mut Vec<usize>,
    queue: &mut Vec<usize>,
    c: usize,
    Ghost(cs): Ghost<Seq<ChildrenView>>,
    Ghost(head): Ghost<int>,
    Ghost(extra): Ghost<Seq<nat>>,
)
    requires
        kahn_state(cs, old(indeg)@, old(queue)@, head, extra),
        c < cs.len(),
        extra[c as int] > 0,
    ensures
        kahn_state(cs, final(indeg)@, final(queue)@, head, extra.update(c as int, (extra[c as int] - 1) as nat)),
        final(queue)@.len() >= old(queue)@.len(),
        final(queue)@.subrange(0, old(queue)@.len() as int) == old(queue)@,
        final(indeg)@ == old(indeg)@.update(c as int, (old(indeg)@[c as int] - 1) as usize),
        final(queue)@ == if old(indeg)@[c as int] == 1 {
            old(queue)@.push(c)
        } else {
            old(queue)@
        },
{
    let ghost n = cs.len();
    let ghost q0 = queue@;
    let ghost extra1 = extra.update(c as int, (extra[c as int] - 1) as nat);
    let d = indeg[c] - 1;
    indeg.set(c, d);
    if d == 0 {
        proof {
            assert(!queued(q0, c as int));
            lemma_pending_zero(cs, done_set(q0, head), c as int, n as int);
        }
        queue.push(c);
        proof {
            assert(done_set(queue@, head) =~= done_set(q0, head)) by {
                assert forall|x: int| done_set(queue@, head).contains(x) <==> done_set(q0, head).contains(x) by {
                    if done_set(queue@, head).contains(x) {
                        let i = choose|i: int| 0 <= i < head && queue@[i] as int == x;
                        assert(q0[i] == queue@[i]);
                    }
                    if done_set(q0, head).contains(x) {
                        let i = choose|i: int| 0 <= i < head && q0[i] as int == x;
                        assert(q0[i] == queue@[i]);
                    }
                }
            }
            assert forall|w: int| 0 <= w < n implies (indeg@[w] == 0 <==> #[trigger] queued(queue@, w)) by {
                if queued(q0, w) {
                    let i = choose|i: int| 0 <= i < q0.len() && q0[i] as int == w;
                    assert(queue@[i] == q0[i]);
                }
                if queued(queue@, w) && w != c {
                    let i = choose|i: int| 0 <= i < queue@.len() && queue@[i] as int == w;
                    assert(i < q0.len());
                    assert(queue@[i] == q0[i]);
                }
                if w == c {
                    assert(queue@[q0.len() as int] == c);
                }
            }
            assert forall|i: int, j: int| 0 <= i < j < queue@.len() implies #[trigger] queue@[i] != #[trigger] queue@[j] by {
                if j == q0.len() {
                    assert(queue@[i] == q0[i]);
                    if q0[i] == c {
                        assert(queued(q0, c as int));
                    }
                } else {
                    assert(queue@[i] == q0[i]);
                    assert(queue@[j] == q0[j]);
                }
            }
            assert forall|j: int, u: int|
                0 <= j < queue@.len() && 0 <= u < n && #[trigger] occ(cs[u], queue@[j] as int) > 0 implies exists|i: int|
                    0 <= i < j && i < head && queue@[i] as int == u by {
                if j < q0.len() {
                    assert(queue@[j] == q0[j]);
                    let i = choose|i: int| 0 <= i < j && i < head && q0[i] as int == u;
                    assert(queue@[i] == q0[i]);
                } else {
                    assert(queue@[j] == c);
                    assert(done_set(q0, head).contains(u));
                    let i = choose|i: int| 0 <= i < head && q0[i] as int == u;
                    assert(queue@[i] == q0[i]);
                }
            }
            assert(queue@.subrange(0, q0.len() as int) =~= q0);
        }
    } else {
        assert(queue@.subrange(0, q0.len() as int) =~= q0);
    }
}


// ---------------------------------------------------------------- path predicates

/// One branch decision on a path: the branch operand and the side taken.
#[derive(Debug)]
pub struct BranchNode(pub CircomOperand, pub bool);

/// The chain of branch decisions along one path from the entry.
#[derive(Debug)]
pub struct SimpleBranch(pub Vec<BranchNode>);

/// A path predicate: one path, or the disjunction of several.
#[derive(Debug)]
pub enum Branch {
    Simple(SimpleBranch),
    Or(Vec<SimpleBranch>),
}

pub type NodeView = (OperandView, bool);

pub enum BranchView {
    Simple(Seq<NodeView>),
    Or(Seq<Seq<NodeView>>),
}

impl View for BranchNode {
    type V = NodeView;

    open spec fn view(&self) -> NodeView {
        (self.0@, self.1)
    }
}

pub open spec fn nodes_view(v: Seq<BranchNode>) -> Seq<NodeView> {
    v.map_values(|n: BranchNode| n@)
}

impl View for SimpleBranch {
    type V = Seq<NodeView>;

    open spec fn view(&self) -> Seq<NodeView> {
        nodes_view(self.0@)
    }
}

pub open spec fn simples_view(v: Seq<SimpleBranch>) -> Seq<Seq<NodeView>> {
    v.map_values(|s: SimpleBranch| s@)
}

impl View for Branch {
    type V = BranchView;

    open spec fn view(&self) -> BranchView {
        match self {
            Branch::Simple(s) => BranchView::Simple(s@),
            Branch::Or(v) => BranchView::Or(simples_view(v@)),
        }
    }
}

pub open spec fn branches_view(v: Seq<Branch>) -> Seq<BranchView> {
    v.map_values(|b: Branch| b@)
}

/// The path extended along the edge `p`: a decision on its operand for a
/// conditional edge, unchanged for an unconditional one.
pub open spec fn simple_add_child(s: Seq<NodeView>, p: ParentView) -> Seq<NodeView> {
    match p {
        ParentView::TrueBranch(_, o) => s.push((o, true)),
        ParentView::FalseBranch(_, o) => s.push((o, false)),
        ParentView::Merge(_) => s,
    }
}

pub open spec fn branch_add_child(b: BranchView, p: ParentView) -> BranchView {
    match b {
        BranchView::Simple(s) => BranchView::Simple(simple_add_child(s, p)),
        BranchView::Or(v) => BranchView::Or(v.map_values(|s: Seq<NodeView>| simple_add_child(s, p))),
    }
}

/// The paths of a list of predicates, in order.
pub open spec fn flatten_paths(bs: Seq<BranchView>) -> Seq<Seq<NodeView>>
    decreases bs.len(),
{
    if bs.len() == 0 {
        Seq::empty()
    } else {
        flatten_paths(bs.drop_last()) + match bs.last() {
            BranchView::Simple(s) => seq![s],
            BranchView::Or(v) => v,
        }
    }
}

/// The predicate of a block with these incoming predicates: the empty path
/// for none, the one for one, their disjunction for several.
pub open spec fn from_many_spec(bs: Seq<BranchView>) -> BranchView {
    if bs.len() == 0 {
        BranchView::Simple(Seq::empty())
    } else if bs.len() == 1 {
        bs[0]
    } else {
        BranchView::Or(flatten_paths(bs))
    }
}

impl PartialEq for BranchNode {
    fn eq(&self, o: &BranchNode) -> (r: bool) {
        self.0 == o.0 && self.1 == o.1
    }
}

impl vstd::std_specs::cmp::PartialEqSpecImpl for BranchNode {
    open spec fn obeys_eq_spec() -> bool {
        true
    }

    open spec fn eq_spec(&self, o: &BranchNode) -> bool {
        self@ == o@
    }
}

impl PartialEq for SimpleBranch {
    fn eq(&self, o: &SimpleBranch) -> (r: bool) {
        if self.0.len() != o.0.len() {
            assert(self@.len() != o@.len());
            return false;
        }
        let mut i: usize = 0;
        while i < self.0.len()
            invariant
                self.0@.len() == o.0@.len(),
                i <= self.0@.len(),
                forall|j: int| 0 <= j < i ==> self.0@[j]@ == o.0@[j]@,
            decreases self.0@.len() - i,
        {
            if !(self.0[i] == o.0[i]) {
                assert(self@[i as int] != o@[i as int]);
                assert(self@ != o@);
                return false;
            }
            i = i + 1;
        }
        assert(self@ =~= o@);
        true
    }
}

impl vstd::std_specs::cmp::PartialEqSpecImpl for SimpleBranch {
    open spec fn obeys_eq_spec() -> bool {
        true
    }

    open spec fn eq_spec(&self, o: &SimpleBranch) -> bool {
        self@ == o@
    }
}

impl PartialEq for Branch {
    fn eq(&self, o: &Branch) -> (r: bool) {
        match (self, o) {
            (Branch::Simple(a), Branch::Simple(b)) => a == b,
            (Branch::Or(a), Branch::Or(b)) => {
                if a.len() != b.len() {
                    assert(simples_view(a@).len() != simples_view(b@).len());
                    return false;
                }
                let mut i: usize = 0;
                while i < a.len()
                    invariant
                        self@ == BranchView::Or(simples_view(a@)),
                        o@ == BranchView::Or(simples_view(b@)),
                        a@.len() == b@.len(),
                        i <= a@.len(),
                        forall|j: int| 0 <= j < i ==> a@[j]@ == b@[j]@,
                    decreases a@.len() - i,
                {
                    if !(a[i] == b[i]) {
                        assert(simples_view(a@)[i as int] != simples_view(b@)[i as int]);
                        assert(simples_view(a@) != simples_view(b@));
                        assert(self@ == BranchView::Or(simples_view(a@)));
                        assert(o@ == BranchView::Or(simples_view(b@)));
                        return false;
                    }
                    i = i + 1;
                }
                assert(simples_view(a@) =~= simples_view(b@));
                true
            },
            _ => false,
        }
    }
}

impl vstd::std_specs::cmp::PartialEqSpecImpl for Branch {
    open spec fn obeys_eq_spec() -> bool {
        true
    }

    open spec fn eq_spec(&self, o: &Branch) -> bool {
        self@ == o@
    }
}

impl Clone for BranchNode {
    fn clone(&self) -> (r: Self)
        ensures
            r == *self,
    {
        BranchNode(self.0.clone(), self.1)
    }
}

impl Clone for SimpleBranch {
    fn clone(&self) -> (r: Self)
        ensures
            r@ == self@,
    {
        let mut v: Vec<BranchNode> = Vec::new();
        let mut i: usize = 0;
        while i < self.0.len()
            invariant
                i <= self.0@.len(),
                v@.len() == i,
                forall|j: int| 0 <= j < i ==> v@[j] == self.0@[j],
            decreases self.0@.len() - i,
        {
            v.push(self.0[i].clone());
            i = i + 1;
        }
        let r = SimpleBranch(v);
        assert(r@ =~= self@);
        r
    }
}

fn clone_simples(v: &Vec<SimpleBranch>) -> (r: Vec<SimpleBranch>)
    ensures
        simples_view(r@) == simples_view(v@),
{
    let mut out: Vec<SimpleBranch> = Vec::new();
    let mut i: usize = 0;
    while i < v.len()
        invariant
            i <= v@.len(),
            out@.len() == i,
            forall|j: int| 0 <= j < i ==> out@[j]@ == v@[j]@,
        decreases v@.len() - i,
    {
        out.push(v[i].clone());
        i = i + 1;
    }
    assert(simples_view(out@) =~= simples_view(v@));
    out
}

impl Clone for Branch {
    fn clone(&self) -> (r: Self)
        ensures
            r@ == self@,
    {
        match self {
            Branch::Simple(s) => Branch::Simple(s.clone()),
            Branch::Or(v) => Branch::Or(clone_simples(v)),
        }
    }
}

impl SimpleBranch {
    /// The path extended along the edge `child`.
    pub fn add_child(&self, child: &ParentInfo) -> (r: SimpleBranch)
        ensures
            r@ == simple_add_child(self@, child@),
    {
        let mut r = self.clone();
        match child {
            ParentInfo::TrueBranch(_, o) => {
                r.0.push(BranchNode(o.clone(), true));
                assert(r@ =~= self@.push((o@, true)));
            },
            ParentInfo::FalseBranch(_, o) => {
                r.0.push(BranchNode(o.clone(), false));
                assert(r@ =~= self@.push((o@, false)));
            },
            ParentInfo::Merge(_) => {},
        }
        r
    }

    /// The path without its last decision.
    pub fn parent(&self) -> (r: SimpleBranch)
        ensures
            r@ == if self@.len() == 0 { self@ } else { self@.drop_last() },
    {
        let mut v: Vec<BranchNode> = Vec::new();
        let n = if self.0.len() == 0 { 0 } else { self.0.len() - 1 };
        let mut i: usize = 0;
        while i < n
            invariant
                n == if self.0@.len() == 0 { 0 } else { self.0@.len() - 1 },
                i <= n,
                v@.len() == i,
                forall|j: int| 0 <= j < i ==> v@[j] == self.0@[j],
            decreases n - i,
        {
            v.push(self.0[i].clone());
            i = i + 1;
        }
        let r = SimpleBranch(v);
        assert(r@ =~= if self@.len() == 0 { self@ } else { self@.drop_last() });
        r
    }

    /// The last decision of the path, if any.
    pub fn leaf_condition(&self) -> (r: Option<BranchNode>)
        ensures
            self@.len() == 0 <==> r is None,
            r matches Some(n) ==> n@ == self@.last(),
    {
        if self.0.len() == 0 {
            None
        } else {
            Some(self.0[self.0.len() - 1].clone())
        }
    }

    /// The name of the signal of this path: each operand's spelling followed by
    /// `F` where the false side was taken.
    pub fn condition_operand_name(&self) -> (r: String)
        ensures
            r@ == path_name(self@),
    {
        let mut r = String::new();
        let mut i: usize = 0;
        assert(self@.subrange(0, 0) =~= Seq::<NodeView>::empty());
        while i < self.0.len()
            invariant
                i <= self.0@.len(),
                r@ == path_name(self@.subrange(0, i as int)),
            decreases self.0@.len() - i,
        {
            let node = &self.0[i];
            let t = node.0.spelling();
            r.append(t.as_str());
            if !node.1 {
                proof {
                    reveal_strlit("F");
                }
                r.append("F");
            }
            proof {
                let pre = self@.subrange(0, i + 1);
                assert(pre.drop_last() =~= self@.subrange(0, i as int));
                assert(pre.last() == self.0@[i as int]@);
            }
            i = i + 1;
        }
        assert(self@.subrange(0, self@.len() as int) =~= self@);
        r
    }
}

/// The spelling of a path: each operand's spelling, with `F` after it where the
/// false side was taken.
pub open spec fn path_name(s: Seq<NodeView>) -> Seq<char>
    decreases s.len(),
{
    if s.len() == 0 {
        Seq::empty()
    } else {
        path_name(s.drop_last()) + operand_spelling(s.last().0) + if s.last().1 {
            Seq::<char>::empty()
        } else {
            seq!['F']
        }
    }
}

impl Branch {
    /// The predicate of a block whose incoming edges carry these predicates.
    pub fn from_many(other: Vec<Branch>) -> (r: Branch)
        ensures
            r@ == from_many_spec(branches_view(other@)),
    {
        if other.len() == 0 {
            let v: Vec<BranchNode> = Vec::new();
            assert(nodes_view(v@) =~= Seq::<NodeView>::empty());
            Branch::Simple(SimpleBranch(v))
        } else if other.len() == 1 {
            other[0].clone()
        } else {
            let mut paths: Vec<SimpleBranch> = Vec::new();
            let mut i: usize = 0;
            let ghost bs = branches_view(other@);
            assert(bs.subrange(0, 0) =~= Seq::<BranchView>::empty());
            assert(simples_view(paths@) =~= Seq::<Seq<NodeView>>::empty());
            while i < other.len()
                invariant
                    bs == branches_view(other@),
                    i <= other@.len(),
                    simples_view(paths@) == flatten_paths(bs.subrange(0, i as int)),
                decreases other@.len() - i,
            {
                let ghost before = simples_view(paths@);
                match &other[i] {
                    Branch::Simple(s) => {
                        paths.push(s.clone());
                        assert(simples_view(paths@) =~= before + seq![s@]);
                    },
                    Branch::Or(v) => {
                        let mut k: usize = 0;
                        assert(before + simples_view(v@).subrange(0, 0) =~= before);
                        while k < v.len()
                            invariant
                                k <= v@.len(),
                                simples_view(paths@) == before + simples_view(v@).subrange(0, k as int),
                            decreases v@.len() - k,
                        {
                            let ghost p0 = paths@;
                            paths.push(v[k].clone());
                            assert(simples_view(paths@) =~= simples_view(p0).push(v@[k as int]@));
                            assert(simples_view(v@).subrange(0, k + 1) =~= simples_view(v@).subrange(0, k as int).push(v@[k as int]@));
                            assert(simples_view(paths@) =~= before + simples_view(v@).subrange(0, k + 1));
                            k = k + 1;
                        }
                        assert(simples_view(v@).subrange(0, v@.len() as int) =~= simples_view(v@));
                    },
                }
                proof {
                    let pre = bs.subrange(0, i + 1);
                    assert(pre.drop_last() =~= bs.subrange(0, i as int));
                    assert(pre.last() == other@[i as int]@);
                }
                i = i + 1;
            }
            assert(bs.subrange(0, other@.len() as int) =~= bs);
            Branch::Or(paths)
        }
    }

    /// The predicate extended along the edge `child`: each of its paths is.
    pub fn add_child(&self, child: &ParentInfo) -> (r: Self)
        ensures
            r@ == branch_add_child(self@, child@),
    {
        match self {
            Branch::Simple(s) => Branch::Simple(s.add_child(child)),
            Branch::Or(v) => {
                let mut out: Vec<SimpleBranch> = Vec::new();
                let mut i: usize = 0;
                while i < v.len()
                    invariant
                        i <= v@.len(),
                        out@.len() == i,
                        forall|j: int| 0 <= j < i ==> out@[j]@ == simple_add_child(v@[j]@, child@),
                    decreases v@.len() - i,
                {
                    out.push(v[i].add_child(child));
                    i = i + 1;
                }
                let r = Branch::Or(out);
                assert(simples_view(out@) =~= simples_view(v@).map_values(|s: Seq<NodeView>| simple_add_child(s, child@)));
                r
            },
        }
    }
}


// ---------------------------------------------------------------- predicates of blocks

/// The incoming edges of every block.
pub open spec fn parent_table(cs: Seq<ChildrenView>) -> Seq<Seq<ParentView>> {
    Seq::new(cs.len(), |v: int| parents_of(cs, v))
}

/// Every edge comes from a block.
pub open spec fn valid_parents(pvs: Seq<Seq<ParentView>>) -> bool {
    forall|v: int, j: int|
        0 <= v < pvs.len() && 0 <= j < pvs[v].len() ==> 0 <= parent_source(#[trigger] pvs[v][j]) < pvs.len()
}

/// The predicates carried into a block by its incoming edges.
pub open spec fn incoming_predicates(conds: Seq<BranchView>, ps: Seq<ParentView>) -> Seq<BranchView> {
    ps.map_values(|p: ParentView| branch_add_child(conds[parent_source(p)], p))
}

/// The predicates after the first `k` blocks of `order` got theirs; every block
/// starts with the empty predicate.
pub open spec fn conds_after(pvs: Seq<Seq<ParentView>>, order: Seq<int>, k: int) -> Seq<BranchView>
    decreases k,
{
    if k <= 0 {
        Seq::new(pvs.len(), |i: int| BranchView::Simple(Seq::empty()))
    } else {
        let prev = conds_after(pvs, order, k - 1);
        let v = order[k - 1];
        prev.update(v, from_many_spec(incoming_predicates(prev, pvs[v])))
    }
}

pub proof fn lemma_conds_len(pvs: Seq<Seq<ParentView>>, order: Seq<int>, k: int)
    requires
        k <= order.len(),
        forall|i: int| 0 <= i < order.len() ==> 0 <= #[trigger] order[i] < pvs.len(),
    ensures
        conds_after(pvs, order, k).len() == pvs.len(),
    decreases k,
{
    if k > 0 {
        lemma_conds_len(pvs, order, k - 1);
    }
}

proof fn lemma_parent_sources(cs: Seq<ChildrenView>, v: int, m: int)
    requires
        0 <= m <= cs.len(),
    ensures
        forall|j: int| 0 <= j < parents_upto(cs, v, m).len() ==> 0 <= parent_source(#[trigger] parents_upto(cs, v, m)[j]) < m,
    decreases m,
{
    if m > 0 {
        lemma_parent_sources(cs, v, m - 1);
        let a = parents_upto(cs, v, m - 1);
        let b = parent_entries(cs[m - 1], m - 1, v);
        assert forall|j: int| 0 <= j < (a + b).len() implies 0 <= parent_source(#[trigger] (a + b)[j]) < m by {
            if j < a.len() {
                assert((a + b)[j] == a[j]);
            } else {
                assert((a + b)[j] == b[j - a.len()]);
            }
        }
    }
}

pub proof fn lemma_parent_table_valid(cs: Seq<ChildrenView>)
    ensures
        valid_parents(parent_table(cs)),
{
    assert forall|v: int, j: int|
        0 <= v < parent_table(cs).len() && 0 <= j < parent_table(cs)[v].len() implies 0 <= parent_source(
        #[trigger] parent_table(cs)[v][j],
    ) < parent_table(cs).len() by {
        lemma_parent_sources(cs, v, cs.len() as int);
    }
}

/// The path predicate of every block, computed in the given order.
pub fn branch_conditions(sorted: &Vec<usize>, parents: &Vec<Vec<ParentInfo>>) -> (r: Vec<Branch>)
    requires
        valid_parents(parents@.map_values(|ps: Vec<ParentInfo>| parent_views(ps@))),
        forall|k: int| 0 <= k < sorted@.len() ==> #[trigger] sorted@[k] < parents@.len(),
    ensures
        branches_view(r@) == conds_after(
            parents@.map_values(|ps: Vec<ParentInfo>| parent_views(ps@)),
            usize_ints(sorted@),
            sorted@.len() as int,
        ),
{
    let ghost pvs = parents@.map_values(|ps: Vec<ParentInfo>| parent_views(ps@));
    let ghost order = usize_ints(sorted@);
    let n = parents.len();
    let mut conds: Vec<Branch> = Vec::new();
    let mut i: usize = 0;
    while i < n
        invariant
            n == parents@.len(),
            i <= n,
            conds@.len() == i,
            forall|j: int| 0 <= j < i ==> (#[trigger] conds@[j])@ == BranchView::Simple(Seq::empty()),
        decreases n - i,
    {
        let v: Vec<BranchNode> = Vec::new();
        assert(nodes_view(v@) =~= Seq::<NodeView>::empty());
        conds.push(Branch::Simple(SimpleBranch(v)));
        i = i + 1;
    }
    assert(branches_view(conds@) =~= conds_after(pvs, order, 0));
    let mut k: usize = 0;
    while k < sorted.len()
        invariant
            pvs == parents@.map_values(|ps: Vec<ParentInfo>| parent_views(ps@)),
            order == usize_ints(sorted@),
            valid_parents(pvs),
            forall|q: int| 0 <= q < sorted@.len() ==> #[trigger] sorted@[q] < parents@.len(),
            n == parents@.len(),
            conds@.len() == n,
            k <= sorted@.len(),
            branches_view(conds@) == conds_after(pvs, order, k as int),
        decreases sorted@.len() - k,
    {
        let v = sorted[k];
        let ps = &parents[v];
        assert(pvs[v as int] == parent_views(ps@));
        let mut incoming: Vec<Branch> = Vec::new();
        let mut j: usize = 0;
        while j < ps.len()
            invariant
                pvs[v as int] == parent_views(ps@),
                valid_parents(pvs),
                v < n,
                n == pvs.len(),
                conds@.len() == n,
                j <= ps@.len(),
                incoming@.len() == j,
                forall|q: int| 0 <= q < j ==> (#[trigger] incoming@[q])@ == branch_add_child(
                    branches_view(conds@)[parent_source(ps@[q]@)],
                    ps@[q]@,
                ),
            decreases ps@.len() - j,
        {
            let p = &ps[j];
            assert(pvs[v as int][j as int] == p@);
            let src = match p {
                ParentInfo::TrueBranch(u, _) => *u,
                ParentInfo::FalseBranch(u, _) => *u,
                ParentInfo::Merge(u) => *u,
            };
            incoming.push(conds[src].add_child(p));
            j = j + 1;
        }
        proof {
            assert(branches_view(incoming@) =~= incoming_predicates(branches_view(conds@), pvs[v as int]));
        }
        let b = Branch::from_many(incoming);
        let ghost before = branches_view(conds@);
        conds.set(v, b);
        proof {
            assert(branches_view(conds@) =~= before.update(v as int, b@));
            assert(order[k as int] == v as int);
        }
        k = k + 1;
    }
    conds
}

/// The control-flow graph of a function: its blocks in topological order (by
/// index) and the path predicate of each block (by index).
pub struct CFGResult {
    pub sorted: Vec<usize>,
    pub branch_conditions: Vec<Branch>,
}

/// Builds the graph, orders it and derives the predicates; fails on an
/// unsupported terminator or condition, a branch to an unknown block, or a
/// cycle.
pub fn compute_cfg(blocks: &Vec<IrBlock>) -> (r: Result<CFGResult, TranslateError>)
    ensures
        children_prefix(blocks@, blocks@.len() as int) matches Err(e) ==> r matches Err(x) && x@ == e,
        children_prefix(blocks@, blocks@.len() as int) matches Ok(cs) ==> {
            &&& !is_acyclic(cs) <==> r is Err
            &&& r matches Err(x) ==> x@ == ErrorView::Cycle
            &&& r matches Ok(res) ==> {
                &&& is_topo_order(cs, usize_ints(res.sorted@))
                &&& usize_ints(res.sorted@) == kahn_order(cs)
                &&& branches_view(res.branch_conditions@) == conds_after(
                    parent_table(cs),
                    usize_ints(res.sorted@),
                    blocks@.len() as int,
                )
            }
        },
{
    let children = children(blocks)?;
    let parents = parents(&children);
    let ghost cs = children_views(children@);
    proof {
        lemma_parent_table_valid(cs);
        assert(parents@.map_values(|ps: Vec<ParentInfo>| parent_views(ps@)) =~= parent_table(cs));
    }
    let sorted = topological_sort(&children, &parents)?;
    proof {
        assert forall|k: int| 0 <= k < sorted@.len() implies #[trigger] sorted@[k] < parents@.len() by {
            assert(usize_ints(sorted@)[k] == sorted@[k] as int);
        }
        assert(listed(usize_ints(sorted@), 0) ==> sorted@.len() > 0);
        lemma_order_len(cs, usize_ints(sorted@));
    }
    let conditions = branch_conditions(&sorted, &parents);
    Ok(CFGResult { sorted, branch_conditions: conditions })
}

/// A topological order has one entry per block.
pub proof fn lemma_order_len(cs: Seq<ChildrenView>, order: Seq<int>)
    requires
        is_topo_order(cs, order),
    ensures
        order.len() == cs.len(),
{
    lemma_distinct_bounded(order, cs.len() as int);
    let inv = Seq::new(cs.len(), |v: int| choose|i: int| 0 <= i < order.len() && order[i] == v);
    let p = inv;
    assert forall|v: int| 0 <= v < p.len() implies 0 <= #[trigger] p[v] < order.len() by {
        assert(listed(order, v));
    }
    assert forall|a: int, b: int| 0 <= a < b < p.len() implies #[trigger] p[a] != #[trigger] p[b] by {
        assert(listed(order, a));
        assert(listed(order, b));
    }
    lemma_distinct_bounded(p, order.len() as int);
}

} // verus!

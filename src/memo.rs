//! Memoised predicates stay memoised: every step of a translation only adds to
//! the predicate cache, so a block predicate that got a signal is answered with
//! that signal, and nothing new, by every later request.
use vstd::prelude::*;
use crate::control_flow::{BranchView, NodeView};
use crate::instructions::OperandView;
use crate::ir::{IrBlock, IrInstruction, IrTerminator};
use crate::lowering::{
    block_spec, branch_operand_spec, cache_get, fold_or_spec, instr_spec, instrs_spec, lemma_cache_extension,
    lemma_cached_predicate_reused, path_operand_spec, paths_operands, simple_spec, term_spec, walk_spec, LowerState,
};
use crate::error::ErrorView;

verus! {

/// `b`'s predicate cache extends `a`'s.
pub open spec fn cache_grows(a: LowerState, b: LowerState) -> bool {
    a.cache.len() <= b.cache.len() && b.cache.subrange(0, a.cache.len() as int) == a.cache
}

proof fn lemma_grows_trans(a: LowerState, b: LowerState, c: LowerState)
    requires
        cache_grows(a, b),
        cache_grows(b, c),
    ensures
        cache_grows(a, c),
{
    assert forall|i: int| 0 <= i < a.cache.len() implies c.cache[i] == a.cache[i] by {
        assert(c.cache.subrange(0, b.cache.len() as int)[i] == c.cache[i]);
        assert(b.cache.subrange(0, a.cache.len() as int)[i] == b.cache[i]);
    }
    assert(c.cache.subrange(0, a.cache.len() as int) =~= a.cache);
}

proof fn lemma_same_cache(a: LowerState, b: LowerState)
    requires
        a.cache == b.cache,
    ensures
        cache_grows(a, b),
{
    assert(b.cache.subrange(0, a.cache.len() as int) =~= a.cache);
}

proof fn lemma_push_cache(a: LowerState, b: LowerState)
    requires
        b.cache.len() == a.cache.len() + 1,
        b.cache.drop_last() == a.cache,
    ensures
        cache_grows(a, b),
{
    assert(b.cache.subrange(0, a.cache.len() as int) =~= b.cache.drop_last());
}

proof fn lemma_simple(st: LowerState, s: Seq<NodeView>)
    requires
        simple_spec(st, s) is Ok,
    ensures
        simple_spec(st, s)->Ok_0.0.cache == st.cache,
{
}

proof fn lemma_path(st: LowerState, s: Seq<NodeView>)
    requires
        path_operand_spec(st, s) is Ok,
    ensures
        cache_grows(st, path_operand_spec(st, s)->Ok_0.0),
{
    if cache_get(st.cache, BranchView::Simple(s)) is None {
        let (st1, o) = simple_spec(st, s)->Ok_0;
        lemma_simple(st, s);
        if o is Some {
            assert(st1.cache.push((BranchView::Simple(s), o->Some_0)).drop_last() =~= st1.cache);
            lemma_push_cache(st, path_operand_spec(st, s)->Ok_0.0);
        } else {
            lemma_same_cache(st, st1);
        }
    } else {
        lemma_same_cache(st, st);
    }
}

proof fn lemma_paths(st: LowerState, paths: Seq<Seq<NodeView>>, k: int)
    requires
        paths_operands(st, paths, k) is Ok,
    ensures
        cache_grows(st, paths_operands(st, paths, k)->Ok_0.0),
    decreases k,
{
    if k > 0 {
        lemma_paths(st, paths, k - 1);
        let st1 = paths_operands(st, paths, k - 1)->Ok_0.0;
        lemma_path(st1, paths[k - 1]);
        lemma_grows_trans(st, st1, path_operand_spec(st1, paths[k - 1])->Ok_0.0);
    } else {
        lemma_same_cache(st, st);
    }
}

proof fn lemma_fold(st: LowerState, acc: OperandView, ops: Seq<OperandView>, k: int)
    requires
        fold_or_spec(st, acc, ops, k) is Ok,
    ensures
        fold_or_spec(st, acc, ops, k)->Ok_0.0.cache == st.cache,
    decreases k,
{
    if k > 0 {
        lemma_fold(st, acc, ops, k - 1);
    }
}

/// Materialising a predicate only adds to the cache.
pub proof fn lemma_branch_cache_grows(st: LowerState, b: BranchView)
    requires
        branch_operand_spec(st, b) is Ok,
    ensures
        cache_grows(st, branch_operand_spec(st, b)->Ok_0.0),
{
    reveal(branch_operand_spec);
    match b {
        BranchView::Simple(s) => {
            lemma_path(st, s);
        },
        BranchView::Or(paths) => {
            if cache_get(st.cache, b) is None {
                lemma_paths(st, paths, paths.len() as int);
                let (st1, ops) = paths_operands(st, paths, paths.len() as int)->Ok_0;
                if ops.len() > 0 {
                    lemma_fold(st1, ops[0], ops.drop_first(), ops.len() - 1);
                    let (st2, o) = fold_or_spec(st1, ops[0], ops.drop_first(), ops.len() - 1)->Ok_0;
                    assert(st2.cache.push((b, o)).drop_last() =~= st2.cache);
                    lemma_push_cache(st2, branch_operand_spec(st, b)->Ok_0.0);
                    lemma_same_cache(st1, st2);
                    lemma_grows_trans(st, st1, st2);
                    lemma_grows_trans(st, st2, branch_operand_spec(st, b)->Ok_0.0);
                } else {
                    lemma_same_cache(st1, st1);
                }
            } else {
                lemma_same_cache(st, st);
            }
        },
    }
}

proof fn lemma_instr(st: LowerState, cond: Option<OperandView>, i: IrInstruction)
    requires
        instr_spec(st, cond, i) is Ok,
    ensures
        instr_spec(st, cond, i)->Ok_0.cache == st.cache,
{
    reveal(instr_spec);
}

proof fn lemma_term(st: LowerState, cond: Option<OperandView>, t: IrTerminator)
    requires
        term_spec(st, cond, t) is Ok,
    ensures
        term_spec(st, cond, t)->Ok_0.cache == st.cache,
{
    reveal(term_spec);
}

proof fn lemma_instrs(st: LowerState, cond: Option<OperandView>, is: Seq<IrInstruction>, k: int)
    requires
        instrs_spec(st, cond, is, k) is Ok,
    ensures
        instrs_spec(st, cond, is, k)->Ok_0.cache == st.cache,
    decreases k,
{
    if k > 0 {
        lemma_instrs(st, cond, is, k - 1);
        lemma_instr(instrs_spec(st, cond, is, k - 1)->Ok_0, cond, is[k - 1]);
    }
}

proof fn lemma_block(st: LowerState, pred: BranchView, b: IrBlock)
    requires
        block_spec(st, pred, b) is Ok,
    ensures
        cache_grows(st, block_spec(st, pred, b)->Ok_0),
{
    reveal(block_spec);
    lemma_branch_cache_grows(st, pred);
    let (st1, cond) = branch_operand_spec(st, pred)->Ok_0;
    lemma_instrs(st1, cond, b.instrs@, b.instrs@.len() as int);
    let st2 = instrs_spec(st1, cond, b.instrs@, b.instrs@.len() as int)->Ok_0;
    lemma_term(st2, cond, b.term);
    lemma_same_cache(st1, term_spec(st2, cond, b.term)->Ok_0);
    lemma_grows_trans(st, st1, term_spec(st2, cond, b.term)->Ok_0);
}

/// Between two points of the walk over the blocks, the cache only grows.
pub proof fn lemma_walk_cache_grows(st: LowerState, conds: Seq<BranchView>, blocks: Seq<IrBlock>, order: Seq<int>, j: int, k: int)
    requires
        0 <= j <= k,
        walk_spec(st, conds, blocks, order, k) is Ok,
    ensures
        walk_spec(st, conds, blocks, order, j) is Ok,
        cache_grows(walk_spec(st, conds, blocks, order, j)->Ok_0, walk_spec(st, conds, blocks, order, k)->Ok_0),
    decreases k - j,
{
    if j == k {
        lemma_same_cache(walk_spec(st, conds, blocks, order, k)->Ok_0, walk_spec(st, conds, blocks, order, k)->Ok_0);
    } else {
        lemma_walk_cache_grows(st, conds, blocks, order, j, k - 1);
        let a = walk_spec(st, conds, blocks, order, k - 1)->Ok_0;
        lemma_block(a, conds[order[k - 1]], blocks[order[k - 1]]);
        lemma_grows_trans(walk_spec(st, conds, blocks, order, j)->Ok_0, a, walk_spec(st, conds, blocks, order, k)->Ok_0);
    }
}

/// A predicate memoised with signal `p` at some point is answered with `p`,
/// declaring and emitting nothing, at every later point whose cache extends
/// that one: every block with that predicate shares one signal.
pub proof fn lemma_predicate_reused_later(st1: LowerState, st2: LowerState, b: BranchView, p: OperandView)
    requires
        cache_get(st1.cache, b) == Some(p),
        cache_grows(st1, st2),
    ensures
        branch_operand_spec(st2, b) == Ok::<(LowerState, Option<OperandView>), ErrorView>((st2, Some(p))),
{
    lemma_cache_extension(st1.cache, st2.cache, b);
    lemma_cached_predicate_reused(st2, b, p);
}

} // verus!

//! Every constraint of a translated template has a known target: a declared
//! signal, or a pin of a component instantiated before it.
use vstd::prelude::*;
use crate::control_flow::{path_name, BranchView, NodeView};
use crate::error::ErrorView;
use crate::instructions::{decl_name, operand_spelling, operand_text, BinaryOperationType, DeclView, ExprView, InstrView, OperandView, RefView, TemplateView};
use crate::ir::{local_name_spec, operand_spec, IrBlock, IrFunction, IrInstruction, IrInstructionKind, IrOperand, IrTerminator};
use crate::names::{gadget_name, intermediate_name, negated_name, normalized, or_name, version_name};
use crate::lowering::{
    alloca_spec, binary_spec, block_spec, branch_operand_spec, copy_spec, emit, finish_spec, fold_or_spec, icmp_spec,
    cache_get, instr_spec, instrs_spec, is_equal_gadget, is_skipped, leaf_spec, load_spec, lowering_spec, path_operand_spec, paths_operands, simple_spec,
    store_spec, template_of, term_spec, translate_spec, walk_spec, with_cached, with_cell, with_ref, LowerState,
};
use crate::signal_declarations::{has_decl, output_name, version_ref, with_decl};

verus! {

/// The constraint at position `i` of `out` has a known target.
pub open spec fn target_known(decls: Seq<DeclView>, out: Seq<InstrView>, i: int) -> bool {
    match out[i]->Constraint_0 {
        RefView::Signal(n) => has_decl(decls, n),
        RefView::Field(g, _) => exists|j: int| 0 <= j < i && (#[trigger] out[j]) is Component && out[j]->Component_0 == g,
    }
}

/// Every constraint emitted so far has a known target.
pub open spec fn targets_known(st: LowerState) -> bool {
    forall|i: int| 0 <= i < st.out.len() && (#[trigger] st.out[i]) is Constraint ==> target_known(st.decls, st.out, i)
}

/// `b` keeps every declaration of `a` and extends its stream.
pub open spec fn grows(a: LowerState, b: LowerState) -> bool {
    &&& forall|n: Seq<char>| has_decl(a.decls, n) ==> #[trigger] has_decl(b.decls, n)
    &&& a.out.len() <= b.out.len()
    &&& forall|i: int| 0 <= i < a.out.len() ==> #[trigger] b.out[i] == a.out[i]
}

proof fn lemma_grows_trans(a: LowerState, b: LowerState, c: LowerState)
    requires
        grows(a, b),
        grows(b, c),
    ensures
        grows(a, c),
{
}

proof fn lemma_with_decl(decls: Seq<DeclView>, d: DeclView)
    ensures
        has_decl(with_decl(decls, d), decl_name(d)),
        forall|n: Seq<char>| has_decl(decls, n) ==> #[trigger] has_decl(with_decl(decls, d), n),
{
    let r = with_decl(decls, d);
    if !has_decl(decls, decl_name(d)) {
        assert(r[decls.len() as int] == d);
        assert forall|n: Seq<char>| has_decl(decls, n) implies #[trigger] has_decl(r, n) by {
            let i = choose|i: int| 0 <= i < decls.len() && decl_name(#[trigger] decls[i]) == n;
            assert(r[i] == decls[i]);
        }
    }
}

proof fn lemma_keep(a: LowerState, b: LowerState)
    requires
        targets_known(a),
        grows(a, b),
        b.out == a.out,
    ensures
        targets_known(b),
{
    assert forall|i: int| 0 <= i < b.out.len() && (#[trigger] b.out[i]) is Constraint implies target_known(b.decls, b.out, i) by {
        assert(target_known(a.decls, a.out, i));
    }
}

proof fn lemma_ref(st: LowerState, n: Seq<char>)
    requires
        targets_known(st),
    ensures
        targets_known(with_ref(st, n)),
        grows(st, with_ref(st, n)),
        has_decl(with_ref(st, n).decls, n),
{
    lemma_with_decl(st.decls, DeclView::Private(n));
    lemma_keep(st, with_ref(st, n));
}

proof fn lemma_cell(st: LowerState, n: Seq<char>, k: nat)
    requires
        targets_known(st),
    ensures
        targets_known(with_cell(st, n, k)),
        grows(st, with_cell(st, n, k)),
        has_decl(with_cell(st, n, k).decls, crate::names::version_name(n, k)),
{
    lemma_with_decl(st.decls, DeclView::Private(crate::names::version_name(n, k)));
    lemma_keep(st, with_cell(st, n, k));
}

proof fn lemma_emit(st: LowerState, x: InstrView)
    requires
        targets_known(st),
        emit(st, x) is Ok,
        x is Constraint ==> match x->Constraint_0 {
            RefView::Signal(n) => has_decl(st.decls, n),
            RefView::Field(g, _) => exists|j: int| 0 <= j < st.out.len() && (#[trigger] st.out[j]) is Component && st.out[j]->Component_0 == g,
        },
    ensures
        targets_known(emit(st, x)->Ok_0),
        grows(st, emit(st, x)->Ok_0),
        x is Component ==> exists|j: int|
            0 <= j < emit(st, x)->Ok_0.out.len() && (#[trigger] emit(st, x)->Ok_0.out[j]) is Component
                && emit(st, x)->Ok_0.out[j]->Component_0 == x->Component_0,
{
    let r = emit(st, x)->Ok_0;
    if r.out != st.out {
        assert(r.out == st.out.push(x));
        assert forall|i: int| 0 <= i < r.out.len() && (#[trigger] r.out[i]) is Constraint implies target_known(r.decls, r.out, i) by {
            if i < st.out.len() {
                assert(r.out[i] == st.out[i]);
                assert(target_known(st.decls, st.out, i));
                if let RefView::Field(g, _) = st.out[i]->Constraint_0 {
                    let j = choose|j: int| 0 <= j < i && (#[trigger] st.out[j]) is Component && st.out[j]->Component_0 == g;
                    assert(r.out[j] == st.out[j]);
                }
            } else {
                if let RefView::Field(g, _) = x->Constraint_0 {
                    let j = choose|j: int| 0 <= j < st.out.len() && (#[trigger] st.out[j]) is Component && st.out[j]->Component_0 == g;
                    assert(r.out[j] == st.out[j]);
                }
            }
        }
        if x is Component {
            assert(r.out[st.out.len() as int] == x);
        }
    } else {
        lemma_keep(st, r);
        if x is Component {
            assert(false);
        }
    }
}


proof fn lemma_same(st: LowerState)
    ensures
        grows(st, st),
{
}

proof fn lemma_leaf(st: LowerState, o: OperandView, side: bool)
    requires
        targets_known(st),
        leaf_spec(st, o, side) is Ok,
    ensures
        targets_known(leaf_spec(st, o, side)->Ok_0.0),
        grows(st, leaf_spec(st, o, side)->Ok_0.0),
{
    if !side && !(o is Const) {
        let n = negated_name(operand_text(o));
        lemma_ref(st, n);
        let x = InstrView::Constraint(
            RefView::Signal(n),
            ExprView::Binary(OperandView::Const(1), BinaryOperationType::Sub, o),
        );
        lemma_emit(with_ref(st, n), x);
        lemma_grows_trans(st, with_ref(st, n), emit(with_ref(st, n), x)->Ok_0);
    }
}

proof fn lemma_simple(st: LowerState, s: Seq<NodeView>)
    requires
        targets_known(st),
        simple_spec(st, s) is Ok,
    ensures
        targets_known(simple_spec(st, s)->Ok_0.0),
        grows(st, simple_spec(st, s)->Ok_0.0),
{
    if s.len() > 0 {
        lemma_leaf(st, s.last().0, s.last().1);
        let (st1, leaf) = leaf_spec(st, s.last().0, s.last().1)->Ok_0;
        if let Some(pc) = cache_get(st1.cache, BranchView::Simple(s.drop_last())) {
            let n = path_name(s);
            lemma_ref(st1, n);
            let x = InstrView::Constraint(RefView::Signal(n), ExprView::Binary(pc, BinaryOperationType::Mul, leaf));
            lemma_emit(with_ref(st1, n), x);
            lemma_grows_trans(st, st1, with_ref(st1, n));
            lemma_grows_trans(st, with_ref(st1, n), emit(with_ref(st1, n), x)->Ok_0);
        }
    }
}

proof fn lemma_path(st: LowerState, s: Seq<NodeView>)
    requires
        targets_known(st),
        path_operand_spec(st, s) is Ok,
    ensures
        targets_known(path_operand_spec(st, s)->Ok_0.0),
        grows(st, path_operand_spec(st, s)->Ok_0.0),
{
    if cache_get(st.cache, BranchView::Simple(s)) is None {
        lemma_simple(st, s);
        let (st1, o) = simple_spec(st, s)->Ok_0;
        if let Some(x) = o {
            lemma_keep(st1, with_cached(st1, BranchView::Simple(s), x));
        }
    }
}

proof fn lemma_paths(st: LowerState, paths: Seq<Seq<NodeView>>, k: int)
    requires
        targets_known(st),
        paths_operands(st, paths, k) is Ok,
    ensures
        targets_known(paths_operands(st, paths, k)->Ok_0.0),
        grows(st, paths_operands(st, paths, k)->Ok_0.0),
    decreases k,
{
    if k > 0 {
        lemma_paths(st, paths, k - 1);
        let st1 = paths_operands(st, paths, k - 1)->Ok_0.0;
        lemma_path(st1, paths[k - 1]);
        lemma_grows_trans(st, st1, path_operand_spec(st1, paths[k - 1])->Ok_0.0);
    }
}

proof fn lemma_fold(st: LowerState, acc: OperandView, ops: Seq<OperandView>, k: int)
    requires
        targets_known(st),
        fold_or_spec(st, acc, ops, k) is Ok,
    ensures
        targets_known(fold_or_spec(st, acc, ops, k)->Ok_0.0),
        grows(st, fold_or_spec(st, acc, ops, k)->Ok_0.0),
    decreases k,
{
    if k > 0 {
        lemma_fold(st, acc, ops, k - 1);
        let (st1, a) = fold_or_spec(st, acc, ops, k - 1)->Ok_0;
        let b = ops[k - 1];
        let n = or_name(operand_spelling(a), operand_spelling(b));
        lemma_ref(st1, n);
        let x = InstrView::Constraint(RefView::Signal(n), ExprView::Or(a, b));
        lemma_emit(with_ref(st1, n), x);
        lemma_grows_trans(st, st1, with_ref(st1, n));
        lemma_grows_trans(st, with_ref(st1, n), emit(with_ref(st1, n), x)->Ok_0);
    }
}

proof fn lemma_branch(st: LowerState, b: BranchView)
    requires
        targets_known(st),
        branch_operand_spec(st, b) is Ok,
    ensures
        targets_known(branch_operand_spec(st, b)->Ok_0.0),
        grows(st, branch_operand_spec(st, b)->Ok_0.0),
{
    reveal(branch_operand_spec);
    match b {
        BranchView::Simple(s) => {
            lemma_path(st, s);
        },
        BranchView::Or(paths) => {
            if cache_get(st.cache, b) is None {
                lemma_paths(st, paths, paths.len() as int);
                let (st1, ops) = paths_operands(st, paths, paths.len() as int)->Ok_0;
                if ops.len() > 0 {
                    lemma_fold(st1, ops[0], ops.drop_first(), ops.len() - 1);
                    let (st2, o) = fold_or_spec(st1, ops[0], ops.drop_first(), ops.len() - 1)->Ok_0;
                    lemma_grows_trans(st, st1, st2);
                    lemma_keep(st2, with_cached(st2, b, o));
                }
            }
        },
    }
}

proof fn lemma_store(st: LowerState, cond: Option<OperandView>, a: Seq<char>, v: OperandView)
    requires
        targets_known(st),
        store_spec(st, cond, a, v) is Ok,
    ensures
        targets_known(store_spec(st, cond, a, v)->Ok_0),
        grows(st, store_spec(st, cond, a, v)->Ok_0),
{
    let k = st.cells[a];
    let st1 = with_ref(st, version_name(a, k));
    lemma_ref(st, version_name(a, k));
    let st2 = with_cell(st1, a, k + 1);
    lemma_cell(st1, a, k + 1);
    lemma_grows_trans(st, st1, st2);
    let d = version_ref(a, k + 1);
    match cond {
        None => {
            let x = InstrView::Constraint(d, ExprView::Operand(v));
            lemma_emit(st2, x);
            lemma_grows_trans(st, st2, emit(st2, x)->Ok_0);
        },
        Some(c) => {
            let m = intermediate_name(version_name(a, k + 1));
            let st3 = with_ref(st2, m);
            lemma_ref(st2, m);
            let x = InstrView::Constraint(RefView::Signal(m), ExprView::Operand(v));
            lemma_emit(st3, x);
            let st4 = emit(st3, x)->Ok_0;
            let y = InstrView::Constraint(
                d,
                ExprView::Cond(c, OperandView::Ref(RefView::Signal(m)), OperandView::Ref(version_ref(a, k))),
            );
            lemma_emit(st4, y);
            lemma_grows_trans(st, st2, st3);
            lemma_grows_trans(st, st3, st4);
            lemma_grows_trans(st, st4, emit(st4, y)->Ok_0);
        },
    }
}

proof fn lemma_assign(st: LowerState, d: Seq<char>, e: ExprView)
    requires
        targets_known(st),
        emit(with_ref(st, d), InstrView::Constraint(RefView::Signal(d), e)) is Ok,
    ensures
        targets_known(emit(with_ref(st, d), InstrView::Constraint(RefView::Signal(d), e))->Ok_0),
        grows(st, emit(with_ref(st, d), InstrView::Constraint(RefView::Signal(d), e))->Ok_0),
{
    lemma_ref(st, d);
    lemma_emit(with_ref(st, d), InstrView::Constraint(RefView::Signal(d), e));
    lemma_grows_trans(st, with_ref(st, d), emit(with_ref(st, d), InstrView::Constraint(RefView::Signal(d), e))->Ok_0);
}

proof fn lemma_icmp(st: LowerState, dest: Seq<char>, a: IrOperand, b: IrOperand)
    requires
        targets_known(st),
        icmp_spec(st, dest, a, b) is Ok,
    ensures
        targets_known(icmp_spec(st, dest, a, b)->Ok_0),
        grows(st, icmp_spec(st, dest, a, b)->Ok_0),
{
    let x = operand_spec(a)->Some_0;
    let y = operand_spec(b)->Some_0;
    let d = normalized(dest);
    let g = gadget_name(d);
    let st1 = with_ref(st, d);
    lemma_ref(st, d);
    let c0 = InstrView::Component(g, is_equal_gadget());
    lemma_emit(st1, c0);
    let st2 = emit(st1, c0)->Ok_0;
    let c1 = InstrView::Constraint(RefView::Field(g, "in[0]"@), ExprView::Operand(x));
    lemma_emit(st2, c1);
    let st3 = emit(st2, c1)->Ok_0;
    let jj = choose|j: int| 0 <= j < st2.out.len() && (#[trigger] st2.out[j]) is Component && st2.out[j]->Component_0 == g;
    assert(st3.out[jj] == st2.out[jj]);
    let c2 = InstrView::Constraint(RefView::Field(g, "in[1]"@), ExprView::Operand(y));
    lemma_emit(st3, c2);
    let st4 = emit(st3, c2)->Ok_0;
    let c3 = InstrView::Constraint(RefView::Signal(d), ExprView::Operand(OperandView::Ref(RefView::Field(g, "out"@))));
    lemma_grows_trans(st, st1, st2);
    lemma_grows_trans(st, st2, st3);
    lemma_grows_trans(st, st3, st4);
    lemma_grows_trans(st1, st2, st3);
    lemma_grows_trans(st1, st3, st4);
    lemma_emit(st4, c3);
    lemma_grows_trans(st, st4, emit(st4, c3)->Ok_0);
}

proof fn lemma_load(st: LowerState, dest: Seq<char>, addr: IrOperand)
    requires
        targets_known(st),
        load_spec(st, dest, addr) is Ok,
    ensures
        targets_known(load_spec(st, dest, addr)->Ok_0),
        grows(st, load_spec(st, dest, addr)->Ok_0),
{
    let a = local_name_spec(addr)->Some_0;
    let d = normalized(dest);
    let st1 = with_ref(st, d);
    lemma_ref(st, d);
    let k = st1.cells[a];
    let st2 = with_ref(st1, version_name(a, k));
    lemma_ref(st1, version_name(a, k));
    lemma_grows_trans(st, st1, st2);
    let x = InstrView::Constraint(RefView::Signal(d), ExprView::Operand(OperandView::Ref(version_ref(a, k))));
    lemma_emit(st2, x);
    lemma_grows_trans(st, st2, emit(st2, x)->Ok_0);
}

proof fn lemma_alloca(st: LowerState, name: Seq<char>)
    requires
        targets_known(st),
        alloca_spec(st, name) is Ok,
    ensures
        targets_known(alloca_spec(st, name)->Ok_0),
        grows(st, alloca_spec(st, name)->Ok_0),
{
    lemma_cell(st, name, 0);
    let x = InstrView::Constraint(version_ref(name, 0), ExprView::Operand(OperandView::Const(0)));
    lemma_emit(with_cell(st, name, 0), x);
    lemma_grows_trans(st, with_cell(st, name, 0), emit(with_cell(st, name, 0), x)->Ok_0);
}

proof fn lemma_instr(st: LowerState, cond: Option<OperandView>, i: IrInstruction)
    requires
        targets_known(st),
        instr_spec(st, cond, i) is Ok,
    ensures
        targets_known(instr_spec(st, cond, i)->Ok_0),
        grows(st, instr_spec(st, cond, i)->Ok_0),
{
    reveal(instr_spec);
    match i.kind {
        IrInstructionKind::Mul { dest, operand0, operand1 } => {
            lemma_assign(st, normalized(dest@), ExprView::Binary(operand_spec(operand0)->Some_0, BinaryOperationType::Mul, operand_spec(operand1)->Some_0));
        },
        IrInstructionKind::Add { dest, operand0, operand1 } => {
            lemma_assign(st, normalized(dest@), ExprView::Binary(operand_spec(operand0)->Some_0, BinaryOperationType::Add, operand_spec(operand1)->Some_0));
        },
        IrInstructionKind::URem { dest, operand0, operand1 } => {
            lemma_assign(st, normalized(dest@), ExprView::Binary(operand_spec(operand0)->Some_0, BinaryOperationType::Rem, operand_spec(operand1)->Some_0));
        },
        IrInstructionKind::ICmpEq { dest, operand0, operand1 } => {
            lemma_icmp(st, dest@, operand0, operand1);
        },
        IrInstructionKind::ZExt { dest, operand } => {
            lemma_assign(st, normalized(dest@), ExprView::Operand(operand_spec(operand)->Some_0));
        },
        _ => {
            if is_skipped(i.text@) {
                lemma_same(st);
            } else {
                match i.kind {
                    IrInstructionKind::Trunc { dest, operand } => {
                        lemma_assign(st, normalized(dest@), ExprView::Operand(operand_spec(operand)->Some_0));
                    },
                    IrInstructionKind::Alloca { dest } => {
                        lemma_alloca(st, normalized(dest@));
                    },
                    IrInstructionKind::Load { dest, address } => {
                        lemma_load(st, dest@, address);
                    },
                    IrInstructionKind::Store { address, value } => {
                        lemma_store(st, cond, local_name_spec(address)->Some_0, operand_spec(value)->Some_0);
                    },
                    _ => {},
                }
            }
        },
    }
}

proof fn lemma_term(st: LowerState, cond: Option<OperandView>, t: IrTerminator)
    requires
        targets_known(st),
        term_spec(st, cond, t) is Ok,
    ensures
        targets_known(term_spec(st, cond, t)->Ok_0),
        grows(st, term_spec(st, cond, t)->Ok_0),
{
    reveal(term_spec);
    match t {
        IrTerminator::Ret(Some(v)) => {
            lemma_store(st, cond, output_name(), operand_spec(v)->Some_0);
        },
        _ => {
            lemma_same(st);
        },
    }
}

proof fn lemma_instrs(st: LowerState, cond: Option<OperandView>, is: Seq<IrInstruction>, k: int)
    requires
        targets_known(st),
        instrs_spec(st, cond, is, k) is Ok,
    ensures
        targets_known(instrs_spec(st, cond, is, k)->Ok_0),
        grows(st, instrs_spec(st, cond, is, k)->Ok_0),
    decreases k,
{
    if k > 0 {
        lemma_instrs(st, cond, is, k - 1);
        let st1 = instrs_spec(st, cond, is, k - 1)->Ok_0;
        lemma_instr(st1, cond, is[k - 1]);
        lemma_grows_trans(st, st1, instr_spec(st1, cond, is[k - 1])->Ok_0);
    }
}

proof fn lemma_block(st: LowerState, pred: BranchView, b: IrBlock)
    requires
        targets_known(st),
        block_spec(st, pred, b) is Ok,
    ensures
        targets_known(block_spec(st, pred, b)->Ok_0),
        grows(st, block_spec(st, pred, b)->Ok_0),
{
    reveal(block_spec);
    lemma_branch(st, pred);
    let (st1, cond) = branch_operand_spec(st, pred)->Ok_0;
    lemma_instrs(st1, cond, b.instrs@, b.instrs@.len() as int);
    let st2 = instrs_spec(st1, cond, b.instrs@, b.instrs@.len() as int)->Ok_0;
    lemma_term(st2, cond, b.term);
    lemma_grows_trans(st, st1, st2);
    lemma_grows_trans(st, st2, term_spec(st2, cond, b.term)->Ok_0);
}

proof fn lemma_walk(st: LowerState, conds: Seq<BranchView>, blocks: Seq<IrBlock>, order: Seq<int>, k: int)
    requires
        targets_known(st),
        walk_spec(st, conds, blocks, order, k) is Ok,
    ensures
        targets_known(walk_spec(st, conds, blocks, order, k)->Ok_0),
    decreases k,
{
    if k > 0 {
        lemma_walk(st, conds, blocks, order, k - 1);
        let st1 = walk_spec(st, conds, blocks, order, k - 1)->Ok_0;
        lemma_block(st1, conds[order[k - 1]], blocks[order[k - 1]]);
    }
}

proof fn lemma_finish(st: LowerState)
    requires
        targets_known(st),
        finish_spec(st) is Ok,
    ensures
        targets_known(finish_spec(st)->Ok_0),
{
    let o = output_name();
    let st1 = LowerState {
        decls: with_decl(st.decls, DeclView::Output(o)),
        cells: st.cells,
        cache: st.cache,
        out: st.out,
    };
    lemma_with_decl(st.decls, DeclView::Output(o));
    lemma_keep(st, st1);
    let k = st1.cells[o];
    lemma_ref(st1, version_name(o, k));
    let st2 = with_ref(st1, version_name(o, k));
    let x = InstrView::Constraint(RefView::Signal(o), ExprView::Operand(OperandView::Ref(version_ref(o, k))));
    lemma_emit(st2, x);
}

/// Every constraint of a translated template has a known target: a signal the
/// template declares, or a pin of a component instantiated before it.
pub open spec fn template_targets_known(t: TemplateView) -> bool {
    forall|i: int|
        0 <= i < t.instructions.len() && (#[trigger] t.instructions[i]) is Constraint ==> match t.instructions[i]->Constraint_0 {
            RefView::Signal(n) => exists|j: int|
                0 <= j < t.instructions.len() && (#[trigger] t.instructions[j]) is Decl && decl_name(t.instructions[j]->Decl_0) == n,
            RefView::Field(g, _) => exists|j: int|
                0 <= j < i && (#[trigger] t.instructions[j]) is Component && t.instructions[j]->Component_0 == g,
        }
}

/// In every template that a translation produces, each constraint's target is
/// a declared signal or a pin of a component instantiated earlier.
pub proof fn lemma_targets_declared(name: Seq<char>, f: IrFunction)
    requires
        translate_spec(name, f) is Ok,
    ensures
        template_targets_known(translate_spec(name, f)->Ok_0),
{
    let blocks = f.basic_blocks@;
    let cs = crate::control_flow::children_prefix(blocks, blocks.len() as int)->Ok_0;
    let order = crate::control_flow::kahn_order(cs);
    let conds = crate::control_flow::conds_after(crate::control_flow::parent_table(cs), order, blocks.len() as int);
    let params = f.parameters@.map_values(|p: String| p@);
    let st0 = LowerState { decls: crate::signal_declarations::param_decls(params), cells: Map::empty(), cache: Seq::empty(), out: Seq::empty() };
    assert(targets_known(st0));
    lemma_alloca(st0, output_name());
    let st1 = alloca_spec(st0, output_name())->Ok_0;
    lemma_walk(st1, conds, blocks, order, order.len() as int);
    let st2 = walk_spec(st1, conds, blocks, order, order.len() as int)->Ok_0;
    lemma_finish(st2);
    let st = finish_spec(st2)->Ok_0;
    assert(lowering_spec(params, blocks, order, conds) == Ok::<LowerState, ErrorView>(st));
    let t = template_of(name, st);
    let dd = st.decls.map_values(|d: DeclView| InstrView::Decl(d));
    assert(t.instructions == dd + st.out);
    assert forall|i: int|
        0 <= i < t.instructions.len() && (#[trigger] t.instructions[i]) is Constraint implies match t.instructions[i]->Constraint_0 {
            RefView::Signal(n) => exists|j: int|
                0 <= j < t.instructions.len() && (#[trigger] t.instructions[j]) is Decl && decl_name(t.instructions[j]->Decl_0) == n,
            RefView::Field(g, _) => exists|j: int|
                0 <= j < i && (#[trigger] t.instructions[j]) is Component && t.instructions[j]->Component_0 == g,
        } by {
        if i < dd.len() {
            assert(t.instructions[i] == dd[i]);
        } else {
            let q = i - dd.len();
            assert(t.instructions[i] == st.out[q]);
            assert(target_known(st.decls, st.out, q));
            match st.out[q]->Constraint_0 {
                RefView::Signal(n) => {
                    let j = choose|j: int| 0 <= j < st.decls.len() && decl_name(#[trigger] st.decls[j]) == n;
                    assert(t.instructions[j] == dd[j]);
                },
                RefView::Field(g, _) => {
                    let j = choose|j: int| 0 <= j < q && (#[trigger] st.out[j]) is Component && st.out[j]->Component_0 == g;
                    assert(t.instructions[j + dd.len()] == st.out[j]);
                },
            }
        }
    }
}

} // verus!

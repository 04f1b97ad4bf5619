//! Every identifier of a translated template is a legal circuit identifier,
//! provided the IR's own names are plain.
use vstd::prelude::*;
use crate::control_flow::{
    branch_add_child, children_of, children_prefix, conds_after, flatten_paths, from_many_spec, incoming_predicates,
    kahn_order, parent_entries, parent_source, parent_table, parents_of, parents_upto, path_name, simple_add_child,
    BranchView, ChildrenView, NodeView, ParentView,
};
use crate::error::ErrorView;
use crate::instructions::{decl_name, operand_spelling, operand_text, DeclView, ExprView, InstrView, OperandView, RefView, TemplateView};
use crate::ir::{local_name_spec, operand_spec, IrBlock, IrFunction, IrInstruction, IrInstructionKind, IrOperand, IrTerminator};
use crate::lowering::{
    alloca_spec, block_spec, branch_operand_spec, cache_get, emit, finish_spec, fold_or_spec, icmp_spec, instr_spec,
    instrs_spec, is_equal_gadget, is_skipped, leaf_spec, lowering_spec, path_operand_spec, paths_operands, simple_spec,
    store_spec, template_of, term_spec, translate_spec, walk_spec, with_cached, with_cell, with_ref, LowerState,
};
use crate::names::{
    gadget_name, intermediate_name, is_legal_name, is_plain_ir_char, lemma_derived_names_are_legal,
    lemma_normalized_is_legal, negated_name, normalized, or_name, strip_sigils, version_name,
};
use crate::signal_declarations::{output_name, param_decls, version_ref, with_decl};

verus! {

/// An IR name made of letters, digits, `_`, `.` and `%` that keeps a
/// character once its sigils are gone.
pub open spec fn plain_ir_name(n: Seq<char>) -> bool {
    &&& forall|i: int| 0 <= i < n.len() ==> is_plain_ir_char(#[trigger] n[i])
    &&& strip_sigils(n).len() > 0
}

pub open spec fn plain_operand(o: IrOperand) -> bool {
    match o {
        IrOperand::Local(n) => plain_ir_name(n@),
        _ => true,
    }
}

pub open spec fn plain_instruction(i: IrInstruction) -> bool {
    match i.kind {
        IrInstructionKind::Mul { dest, operand0, operand1 } => plain_ir_name(dest@) && plain_operand(operand0) && plain_operand(operand1),
        IrInstructionKind::Add { dest, operand0, operand1 } => plain_ir_name(dest@) && plain_operand(operand0) && plain_operand(operand1),
        IrInstructionKind::URem { dest, operand0, operand1 } => plain_ir_name(dest@) && plain_operand(operand0) && plain_operand(operand1),
        IrInstructionKind::ICmpEq { dest, operand0, operand1 } => plain_ir_name(dest@) && plain_operand(operand0) && plain_operand(operand1),
        IrInstructionKind::ZExt { dest, operand } => plain_ir_name(dest@) && plain_operand(operand),
        IrInstructionKind::Trunc { dest, operand } => plain_ir_name(dest@) && plain_operand(operand),
        IrInstructionKind::Alloca { dest } => plain_ir_name(dest@),
        IrInstructionKind::Load { dest, address } => plain_ir_name(dest@) && plain_operand(address),
        IrInstructionKind::Store { address, value } => plain_operand(address) && plain_operand(value),
        IrInstructionKind::Other => true,
    }
}

pub open spec fn plain_terminator(t: IrTerminator) -> bool {
    match t {
        IrTerminator::Ret(Some(v)) => plain_operand(v),
        IrTerminator::CondBr { condition, .. } => plain_operand(condition),
        _ => true,
    }
}

/// Every name the function gives (parameters, results, cells, operands) is plain.
pub open spec fn plain_function(f: IrFunction) -> bool {
    &&& forall|i: int| 0 <= i < f.parameters@.len() ==> plain_ir_name(#[trigger] f.parameters@[i]@)
    &&& forall|b: int| 0 <= b < f.basic_blocks@.len() ==> plain_terminator(#[trigger] f.basic_blocks@[b].term)
    &&& forall|b: int, i: int|
        0 <= b < f.basic_blocks@.len() && 0 <= i < f.basic_blocks@[b].instrs@.len() ==> plain_instruction(
            #[trigger] f.basic_blocks@[b].instrs@[i],
        )
}

pub open spec fn ref_legal(r: RefView) -> bool {
    match r {
        RefView::Signal(n) => is_legal_name(n),
        RefView::Field(g, _) => is_legal_name(g),
    }
}

pub open spec fn operand_legal(o: OperandView) -> bool {
    match o {
        OperandView::Ref(r) => ref_legal(r),
        OperandView::Const(_) => true,
    }
}

pub open spec fn expr_legal(e: ExprView) -> bool {
    match e {
        ExprView::Operand(o) => operand_legal(o),
        ExprView::Binary(a, _, b) => operand_legal(a) && operand_legal(b),
        ExprView::Cond(c, t, f) => operand_legal(c) && operand_legal(t) && operand_legal(f),
        ExprView::Or(a, b) => operand_legal(a) && operand_legal(b),
    }
}

/// Every identifier of the instruction is legal: declared names, component
/// names and gadgets, signal names and the component part of pins.
pub open spec fn instr_legal(i: InstrView) -> bool {
    match i {
        InstrView::Decl(d) => is_legal_name(decl_name(d)),
        InstrView::Constraint(l, e) => ref_legal(l) && expr_legal(e),
        InstrView::Component(n, g) => is_legal_name(n) && is_legal_name(g),
    }
}

/// A predicate operand: a constant, or a signal with a legal name.
pub open spec fn node_ok(n: NodeView) -> bool {
    pred_operand(n.0)
}

pub open spec fn path_ok(s: Seq<NodeView>) -> bool {
    forall|i: int| 0 <= i < s.len() ==> node_ok(#[trigger] s[i])
}

pub open spec fn branch_ok(b: BranchView) -> bool {
    match b {
        BranchView::Simple(s) => path_ok(s),
        BranchView::Or(v) => forall|i: int| 0 <= i < v.len() ==> path_ok(#[trigger] v[i]),
    }
}

/// A predicate operand: a constant, or a reference to a signal with a legal
/// name.
pub open spec fn pred_operand(o: OperandView) -> bool {
    o is Const || (o is Ref && o->Ref_0 is Signal && is_legal_name(o->Ref_0->Signal_0))
}

proof fn lemma_spelling(o: OperandView)
    requires
        pred_operand(o),
    ensures
        is_legal_name(operand_spelling(o)),
{
    if let OperandView::Const(c) = o {
        let d = if c < 0 { crate::names::decimal((-c) as nat) } else { crate::names::decimal(c as nat) };
        if c < 0 {
            crate::names::lemma_decimal_digits((-c) as nat);
        } else {
            crate::names::lemma_decimal_digits(c as nat);
        }
        let sp = operand_spelling(o);
        let head = if c < 0 { seq!['C', 'N'] } else { seq!['C'] };
        assert(sp == head + d);
        assert forall|i: int| 1 <= i < sp.len() implies crate::names::is_ident_tail(#[trigger] sp[i]) by {
            if i >= head.len() {
                assert(sp[i] == d[i - head.len()]);
            } else {
                assert(sp[i] == 'N');
            }
        }
    }
}

pub open spec fn state_legal(st: LowerState) -> bool {
    &&& forall|i: int| 0 <= i < st.decls.len() ==> is_legal_name(decl_name(#[trigger] st.decls[i]))
    &&& forall|i: int| 0 <= i < st.out.len() ==> instr_legal(#[trigger] st.out[i])
    &&& forall|i: int| 0 <= i < st.cache.len() ==> pred_operand((#[trigger] st.cache[i]).1)
    &&& forall|k: Seq<char>| #[trigger] st.cells.contains_key(k) ==> is_legal_name(k)
}

pub proof fn lemma_concat_legal(a: Seq<char>, b: Seq<char>)
    requires
        is_legal_name(a),
        is_legal_name(b),
    ensures
        is_legal_name(a + b),
{
    let r = a + b;
    assert(r[0] == a[0]);
    assert forall|i: int| 1 <= i < r.len() implies crate::names::is_ident_tail(#[trigger] r[i]) by {
        if i < a.len() {
            assert(r[i] == a[i]);
        } else {
            assert(r[i] == b[i - a.len()]);
        }
    }
}

proof fn lemma_path_name(s: Seq<NodeView>)
    requires
        s.len() > 0,
        path_ok(s),
    ensures
        is_legal_name(path_name(s)),
    decreases s.len(),
{
    let n = operand_spelling(s.last().0);
    assert(node_ok(s[s.len() - 1]));
    lemma_spelling(s.last().0);
    let tail = n + if s.last().1 { Seq::<char>::empty() } else { seq!['F'] };
    lemma_derived_names_are_legal(n, n, 0);
    if s.last().1 {
        assert(tail =~= n);
    } else {
        assert(tail =~= negated_name(n));
    }
    if s.len() > 1 {
        assert forall|i: int| 0 <= i < s.drop_last().len() implies node_ok(#[trigger] s.drop_last()[i]) by {
            assert(s.drop_last()[i] == s[i]);
        }
        lemma_path_name(s.drop_last());
        lemma_concat_legal(path_name(s.drop_last()), tail);
        assert(path_name(s) =~= path_name(s.drop_last()) + tail);
    } else {
        assert(path_name(s.drop_last()) =~= Seq::<char>::empty());
        assert(path_name(s) =~= tail);
    }
}

proof fn lemma_operand(o: IrOperand)
    requires
        plain_operand(o),
    ensures
        operand_spec(o) matches Some(x) ==> operand_legal(x),
        local_name_spec(o) matches Some(n) ==> is_legal_name(n),
{
    if let IrOperand::Local(n) = o {
        lemma_normalized_is_legal(n@);
    }
}

proof fn lemma_with_decl(decls: Seq<DeclView>, d: DeclView)
    requires
        forall|i: int| 0 <= i < decls.len() ==> is_legal_name(decl_name(#[trigger] decls[i])),
        is_legal_name(decl_name(d)),
    ensures
        forall|i: int| 0 <= i < with_decl(decls, d).len() ==> is_legal_name(decl_name(#[trigger] with_decl(decls, d)[i])),
{
    let r = with_decl(decls, d);
    assert forall|i: int| 0 <= i < r.len() implies is_legal_name(decl_name(#[trigger] r[i])) by {
        if i < decls.len() {
            assert(r[i] == decls[i]);
        }
    }
}

proof fn lemma_ref(st: LowerState, n: Seq<char>)
    requires
        state_legal(st),
        is_legal_name(n),
    ensures
        state_legal(with_ref(st, n)),
{
    lemma_with_decl(st.decls, DeclView::Private(n));
}

proof fn lemma_cell(st: LowerState, n: Seq<char>, k: nat)
    requires
        state_legal(st),
        is_legal_name(n),
    ensures
        state_legal(with_cell(st, n, k)),
        is_legal_name(version_name(n, k)),
{
    lemma_derived_names_are_legal(n, n, k);
    lemma_with_decl(st.decls, DeclView::Private(version_name(n, k)));
}

proof fn lemma_emit(st: LowerState, x: InstrView)
    requires
        state_legal(st),
        instr_legal(x),
        emit(st, x) is Ok,
    ensures
        state_legal(emit(st, x)->Ok_0),
{
    let r = emit(st, x)->Ok_0;
    assert forall|i: int| 0 <= i < r.out.len() implies instr_legal(#[trigger] r.out[i]) by {
        if r.out != st.out {
            assert(r.out == st.out.push(x));
            if i < st.out.len() {
                assert(r.out[i] == st.out[i]);
            }
        }
    }
}

proof fn lemma_cached(st: LowerState, b: BranchView, o: OperandView)
    requires
        state_legal(st),
        pred_operand(o),
    ensures
        state_legal(with_cached(st, b, o)),
{
    let r = with_cached(st, b, o);
    assert forall|i: int| 0 <= i < r.cache.len() implies pred_operand((#[trigger] r.cache[i]).1) by {
        if i < st.cache.len() {
            assert(r.cache[i] == st.cache[i]);
        }
    }
}

proof fn lemma_cache_get(cv: Seq<(BranchView, OperandView)>, b: BranchView)
    requires
        forall|i: int| 0 <= i < cv.len() ==> pred_operand((#[trigger] cv[i]).1),
    ensures
        cache_get(cv, b) matches Some(o) ==> pred_operand(o),
    decreases cv.len(),
{
    if cv.len() > 0 {
        assert forall|i: int| 0 <= i < cv.drop_last().len() implies pred_operand((#[trigger] cv.drop_last()[i]).1) by {
            assert(cv.drop_last()[i] == cv[i]);
        }
        lemma_cache_get(cv.drop_last(), b);
        assert(pred_operand(cv[cv.len() - 1].1));
    }
}

proof fn lemma_leaf(st: LowerState, o: OperandView, side: bool)
    requires
        state_legal(st),
        node_ok((o, side)),
        leaf_spec(st, o, side) is Ok,
    ensures
        state_legal(leaf_spec(st, o, side)->Ok_0.0),
        pred_operand(leaf_spec(st, o, side)->Ok_0.1),
{
    if !side && !(o is Const) {
        let c = o->Ref_0->Signal_0;
        let n = negated_name(operand_text(o));
        lemma_derived_names_are_legal(c, c, 0);
        lemma_ref(st, n);
        lemma_emit(
            with_ref(st, n),
            InstrView::Constraint(
                RefView::Signal(n),
                ExprView::Binary(OperandView::Const(1), crate::instructions::BinaryOperationType::Sub, o),
            ),
        );
    }
}

proof fn lemma_simple(st: LowerState, s: Seq<NodeView>)
    requires
        state_legal(st),
        path_ok(s),
        simple_spec(st, s) is Ok,
    ensures
        state_legal(simple_spec(st, s)->Ok_0.0),
        simple_spec(st, s)->Ok_0.1 matches Some(o) ==> pred_operand(o),
{
    if s.len() > 0 {
        assert(node_ok(s[s.len() - 1]));
        lemma_leaf(st, s.last().0, s.last().1);
        let (st1, leaf) = leaf_spec(st, s.last().0, s.last().1)->Ok_0;
        lemma_cache_get(st1.cache, BranchView::Simple(s.drop_last()));
        if let Some(pc) = cache_get(st1.cache, BranchView::Simple(s.drop_last())) {
            let n = path_name(s);
            lemma_path_name(s);
            lemma_ref(st1, n);
            lemma_emit(
                with_ref(st1, n),
                InstrView::Constraint(RefView::Signal(n), ExprView::Binary(pc, crate::instructions::BinaryOperationType::Mul, leaf)),
            );
        }
    }
}

proof fn lemma_path(st: LowerState, s: Seq<NodeView>)
    requires
        state_legal(st),
        path_ok(s),
        path_operand_spec(st, s) is Ok,
    ensures
        state_legal(path_operand_spec(st, s)->Ok_0.0),
        path_operand_spec(st, s)->Ok_0.1 matches Some(o) ==> pred_operand(o),
{
    lemma_cache_get(st.cache, BranchView::Simple(s));
    if cache_get(st.cache, BranchView::Simple(s)) is None {
        lemma_simple(st, s);
        let (st1, o) = simple_spec(st, s)->Ok_0;
        if let Some(x) = o {
            lemma_cached(st1, BranchView::Simple(s), x);
        }
    }
}

proof fn lemma_paths(st: LowerState, paths: Seq<Seq<NodeView>>, k: int)
    requires
        state_legal(st),
        forall|i: int| 0 <= i < paths.len() ==> path_ok(#[trigger] paths[i]),
        k <= paths.len(),
        paths_operands(st, paths, k) is Ok,
    ensures
        state_legal(paths_operands(st, paths, k)->Ok_0.0),
        forall|i: int| 0 <= i < paths_operands(st, paths, k)->Ok_0.1.len() ==> pred_operand(
            #[trigger] paths_operands(st, paths, k)->Ok_0.1[i],
        ),
    decreases k,
{
    if k > 0 {
        lemma_paths(st, paths, k - 1);
        let (st1, ops) = paths_operands(st, paths, k - 1)->Ok_0;
        assert(path_ok(paths[k - 1]));
        lemma_path(st1, paths[k - 1]);
        let (st2, o) = path_operand_spec(st1, paths[k - 1])->Ok_0;
        if let Some(x) = o {
            assert forall|i: int| 0 <= i < ops.push(x).len() implies pred_operand(#[trigger] ops.push(x)[i]) by {
                if i < ops.len() {
                    assert(ops.push(x)[i] == ops[i]);
                }
            }
        }
    }
}

proof fn lemma_fold(st: LowerState, acc: OperandView, ops: Seq<OperandView>, k: int)
    requires
        state_legal(st),
        pred_operand(acc),
        forall|i: int| 0 <= i < ops.len() ==> pred_operand(#[trigger] ops[i]),
        k <= ops.len(),
        fold_or_spec(st, acc, ops, k) is Ok,
    ensures
        state_legal(fold_or_spec(st, acc, ops, k)->Ok_0.0),
        pred_operand(fold_or_spec(st, acc, ops, k)->Ok_0.1),
    decreases k,
{
    if k > 0 {
        lemma_fold(st, acc, ops, k - 1);
        let (st1, a) = fold_or_spec(st, acc, ops, k - 1)->Ok_0;
        let b = ops[k - 1];
        assert(pred_operand(b));
        let n = or_name(operand_spelling(a), operand_spelling(b));
        lemma_spelling(a);
        lemma_spelling(b);
        lemma_derived_names_are_legal(operand_spelling(a), operand_spelling(b), 0);
        lemma_ref(st1, n);
        lemma_emit(with_ref(st1, n), InstrView::Constraint(RefView::Signal(n), ExprView::Or(a, b)));
    }
}


proof fn lemma_branch(st: LowerState, b: BranchView)
    requires
        state_legal(st),
        branch_ok(b),
        branch_operand_spec(st, b) is Ok,
    ensures
        state_legal(branch_operand_spec(st, b)->Ok_0.0),
        branch_operand_spec(st, b)->Ok_0.1 matches Some(o) ==> pred_operand(o),
{
    reveal(branch_operand_spec);
    match b {
        BranchView::Simple(sp) => {
            lemma_path(st, sp);
        },
        BranchView::Or(paths) => {
            lemma_cache_get(st.cache, b);
            if cache_get(st.cache, b) is None {
                lemma_paths(st, paths, paths.len() as int);
                let (st1, ops) = paths_operands(st, paths, paths.len() as int)->Ok_0;
                if ops.len() > 0 {
                    assert(pred_operand(ops[0]));
                    assert forall|i: int| 0 <= i < ops.drop_first().len() implies pred_operand(#[trigger] ops.drop_first()[i]) by {
                        assert(ops.drop_first()[i] == ops[i + 1]);
                    }
                    lemma_fold(st1, ops[0], ops.drop_first(), ops.len() - 1);
                    let (st2, o) = fold_or_spec(st1, ops[0], ops.drop_first(), ops.len() - 1)->Ok_0;
                    lemma_cached(st2, b, o);
                }
            }
        },
    }
}

pub proof fn lemma_output_name_legal()
    ensures
        is_legal_name(output_name()),
{
    let o = output_name();
    assert(o[1] == 'U' && o[2] == 'T' && o[3] == 'P' && o[4] == 'U' && o[5] == 'T' && o[6] == '_');
}

proof fn lemma_gadget_legal()
    ensures
        is_legal_name(is_equal_gadget()),
{
    reveal_strlit("IsEqual");
    let g = is_equal_gadget();
    assert(g[1] == 's' && g[2] == 'E' && g[3] == 'q' && g[4] == 'u' && g[5] == 'a' && g[6] == 'l');
}

proof fn lemma_store(st: LowerState, cond: Option<OperandView>, a: Seq<char>, v: OperandView)
    requires
        state_legal(st),
        cond matches Some(c) ==> pred_operand(c),
        is_legal_name(a),
        operand_legal(v),
        store_spec(st, cond, a, v) is Ok,
    ensures
        state_legal(store_spec(st, cond, a, v)->Ok_0),
{
    let k = st.cells[a];
    lemma_derived_names_are_legal(a, a, k);
    let st1 = with_ref(st, version_name(a, k));
    lemma_ref(st, version_name(a, k));
    let st2 = with_cell(st1, a, k + 1);
    lemma_cell(st1, a, k + 1);
    let d = version_ref(a, k + 1);
    match cond {
        None => {
            lemma_emit(st2, InstrView::Constraint(d, ExprView::Operand(v)));
        },
        Some(c) => {
            let m = intermediate_name(version_name(a, k + 1));
            lemma_derived_names_are_legal(version_name(a, k + 1), a, 0);
            let st3 = with_ref(st2, m);
            lemma_ref(st2, m);
            let x = InstrView::Constraint(RefView::Signal(m), ExprView::Operand(v));
            lemma_emit(st3, x);
            let st4 = emit(st3, x)->Ok_0;
            lemma_emit(
                st4,
                InstrView::Constraint(
                    d,
                    ExprView::Cond(c, OperandView::Ref(RefView::Signal(m)), OperandView::Ref(version_ref(a, k))),
                ),
            );
        },
    }
}

proof fn lemma_assign(st: LowerState, dest: Seq<char>, e: ExprView)
    requires
        state_legal(st),
        plain_ir_name(dest),
        expr_legal(e),
        emit(with_ref(st, normalized(dest)), InstrView::Constraint(RefView::Signal(normalized(dest)), e)) is Ok,
    ensures
        state_legal(emit(with_ref(st, normalized(dest)), InstrView::Constraint(RefView::Signal(normalized(dest)), e))->Ok_0),
{
    lemma_normalized_is_legal(dest);
    lemma_ref(st, normalized(dest));
    lemma_emit(with_ref(st, normalized(dest)), InstrView::Constraint(RefView::Signal(normalized(dest)), e));
}

proof fn lemma_instr(st: LowerState, cond: Option<OperandView>, i: IrInstruction)
    requires
        state_legal(st),
        cond matches Some(c) ==> pred_operand(c),
        plain_instruction(i),
        instr_spec(st, cond, i) is Ok,
    ensures
        state_legal(instr_spec(st, cond, i)->Ok_0),
{
    reveal(instr_spec);
    match i.kind {
        IrInstructionKind::Mul { dest, operand0, operand1 } => {
            lemma_operand(operand0);
            lemma_operand(operand1);
            lemma_assign(st, dest@, ExprView::Binary(operand_spec(operand0)->Some_0, crate::instructions::BinaryOperationType::Mul, operand_spec(operand1)->Some_0));
        },
        IrInstructionKind::Add { dest, operand0, operand1 } => {
            lemma_operand(operand0);
            lemma_operand(operand1);
            lemma_assign(st, dest@, ExprView::Binary(operand_spec(operand0)->Some_0, crate::instructions::BinaryOperationType::Add, operand_spec(operand1)->Some_0));
        },
        IrInstructionKind::URem { dest, operand0, operand1 } => {
            lemma_operand(operand0);
            lemma_operand(operand1);
            lemma_assign(st, dest@, ExprView::Binary(operand_spec(operand0)->Some_0, crate::instructions::BinaryOperationType::Rem, operand_spec(operand1)->Some_0));
        },
        IrInstructionKind::ICmpEq { dest, operand0, operand1 } => {
            lemma_operand(operand0);
            lemma_operand(operand1);
            let x = operand_spec(operand0)->Some_0;
            let y = operand_spec(operand1)->Some_0;
            let d = normalized(dest@);
            lemma_normalized_is_legal(dest@);
            let g = gadget_name(d);
            lemma_derived_names_are_legal(d, d, 0);
            lemma_gadget_legal();
            let st1 = with_ref(st, d);
            lemma_ref(st, d);
            let c0 = InstrView::Component(g, is_equal_gadget());
            lemma_emit(st1, c0);
            let st2 = emit(st1, c0)->Ok_0;
            let c1 = InstrView::Constraint(RefView::Field(g, "in[0]"@), ExprView::Operand(x));
            lemma_emit(st2, c1);
            let st3 = emit(st2, c1)->Ok_0;
            let c2 = InstrView::Constraint(RefView::Field(g, "in[1]"@), ExprView::Operand(y));
            lemma_emit(st3, c2);
            let st4 = emit(st3, c2)->Ok_0;
            lemma_emit(st4, InstrView::Constraint(RefView::Signal(d), ExprView::Operand(OperandView::Ref(RefView::Field(g, "out"@)))));
        },
        IrInstructionKind::ZExt { dest, operand } => {
            lemma_operand(operand);
            lemma_assign(st, dest@, ExprView::Operand(operand_spec(operand)->Some_0));
        },
        _ => {
            if !is_skipped(i.text@) {
                match i.kind {
                    IrInstructionKind::Trunc { dest, operand } => {
                        lemma_operand(operand);
                        lemma_assign(st, dest@, ExprView::Operand(operand_spec(operand)->Some_0));
                    },
                    IrInstructionKind::Alloca { dest } => {
                        lemma_normalized_is_legal(dest@);
                        let n = normalized(dest@);
                        lemma_cell(st, n, 0);
                        lemma_emit(with_cell(st, n, 0), InstrView::Constraint(version_ref(n, 0), ExprView::Operand(OperandView::Const(0))));
                    },
                    IrInstructionKind::Load { dest, address } => {
                        lemma_operand(address);
                        let a = local_name_spec(address)->Some_0;
                        let d = normalized(dest@);
                        lemma_normalized_is_legal(dest@);
                        let st1 = with_ref(st, d);
                        lemma_ref(st, d);
                        let k = st1.cells[a];
                        lemma_derived_names_are_legal(a, a, k);
                        lemma_ref(st1, version_name(a, k));
                        lemma_emit(
                            with_ref(st1, version_name(a, k)),
                            InstrView::Constraint(RefView::Signal(d), ExprView::Operand(OperandView::Ref(version_ref(a, k)))),
                        );
                    },
                    IrInstructionKind::Store { address, value } => {
                        lemma_operand(address);
                        lemma_operand(value);
                        lemma_store(st, cond, local_name_spec(address)->Some_0, operand_spec(value)->Some_0);
                    },
                    _ => {},
                }
            }
        },
    }
}

proof fn lemma_term(st: LowerState, cond: Option<OperandView>, t: IrTerminator)
    requires
        state_legal(st),
        cond matches Some(c) ==> pred_operand(c),
        plain_terminator(t),
        term_spec(st, cond, t) is Ok,
    ensures
        state_legal(term_spec(st, cond, t)->Ok_0),
{
    reveal(term_spec);
    if let IrTerminator::Ret(Some(v)) = t {
        lemma_operand(v);
        lemma_output_name_legal();
        lemma_store(st, cond, output_name(), operand_spec(v)->Some_0);
    }
}

proof fn lemma_instrs(st: LowerState, cond: Option<OperandView>, is: Seq<IrInstruction>, k: int)
    requires
        state_legal(st),
        cond matches Some(c) ==> pred_operand(c),
        forall|i: int| 0 <= i < is.len() ==> plain_instruction(#[trigger] is[i]),
        k <= is.len(),
        instrs_spec(st, cond, is, k) is Ok,
    ensures
        state_legal(instrs_spec(st, cond, is, k)->Ok_0),
    decreases k,
{
    if k > 0 {
        lemma_instrs(st, cond, is, k - 1);
        lemma_instr(instrs_spec(st, cond, is, k - 1)->Ok_0, cond, is[k - 1]);
    }
}

proof fn lemma_block(st: LowerState, pred: BranchView, b: IrBlock)
    requires
        state_legal(st),
        branch_ok(pred),
        plain_terminator(b.term),
        forall|i: int| 0 <= i < b.instrs@.len() ==> plain_instruction(#[trigger] b.instrs@[i]),
        block_spec(st, pred, b) is Ok,
    ensures
        state_legal(block_spec(st, pred, b)->Ok_0),
{
    reveal(block_spec);
    lemma_branch(st, pred);
    let (st1, cond) = branch_operand_spec(st, pred)->Ok_0;
    lemma_instrs(st1, cond, b.instrs@, b.instrs@.len() as int);
    lemma_term(instrs_spec(st1, cond, b.instrs@, b.instrs@.len() as int)->Ok_0, cond, b.term);
}

proof fn lemma_walk(st: LowerState, conds: Seq<BranchView>, f: IrFunction, order: Seq<int>, k: int)
    requires
        state_legal(st),
        plain_function(f),
        forall|i: int| 0 <= i < order.len() ==> 0 <= #[trigger] order[i] < f.basic_blocks@.len(),
        forall|v: int| 0 <= v < f.basic_blocks@.len() ==> branch_ok(#[trigger] conds[v]),
        k <= order.len(),
        walk_spec(st, conds, f.basic_blocks@, order, k) is Ok,
    ensures
        state_legal(walk_spec(st, conds, f.basic_blocks@, order, k)->Ok_0),
    decreases k,
{
    if k > 0 {
        lemma_walk(st, conds, f, order, k - 1);
        let v = order[k - 1];
        let b = f.basic_blocks@[v];
        assert(plain_terminator(f.basic_blocks@[v].term));
        assert forall|i: int| 0 <= i < b.instrs@.len() implies plain_instruction(#[trigger] b.instrs@[i]) by {
            assert(plain_instruction(f.basic_blocks@[v].instrs@[i]));
        }
        assert(branch_ok(conds[v]));
        lemma_block(walk_spec(st, conds, f.basic_blocks@, order, k - 1)->Ok_0, conds[v], b);
    }
}


// ---------------------------------------------------------------- predicates of blocks

pub open spec fn cond_ok(c: ChildrenView) -> bool {
    c matches ChildrenView::Condition(o, _, _) ==> node_ok((o, true))
}

pub open spec fn parent_ok(p: ParentView) -> bool {
    match p {
        ParentView::TrueBranch(_, o) => node_ok((o, true)),
        ParentView::FalseBranch(_, o) => node_ok((o, true)),
        ParentView::Merge(_) => true,
    }
}

proof fn lemma_children_ok(f: IrFunction, k: int)
    requires
        plain_function(f),
        0 <= k <= f.basic_blocks@.len(),
        children_prefix(f.basic_blocks@, k) is Ok,
    ensures
        forall|u: int| 0 <= u < children_prefix(f.basic_blocks@, k)->Ok_0.len() ==> cond_ok(
            #[trigger] children_prefix(f.basic_blocks@, k)->Ok_0[u],
        ),
    decreases k,
{
    if k > 0 {
        lemma_children_ok(f, k - 1);
        let cs = children_prefix(f.basic_blocks@, k - 1)->Ok_0;
        let t = f.basic_blocks@[k - 1].term;
        assert(plain_terminator(f.basic_blocks@[k - 1].term));
        let c = children_of(f.basic_blocks@, t)->Ok_0;
        if let IrTerminator::CondBr { condition, .. } = t {
            lemma_operand(condition);
        }
        assert(cond_ok(c));
        assert forall|u: int| 0 <= u < cs.push(c).len() implies cond_ok(#[trigger] cs.push(c)[u]) by {
            if u < cs.len() {
                assert(cs.push(c)[u] == cs[u]);
            }
        }
    }
}

proof fn lemma_parents_ok(cs: Seq<ChildrenView>, v: int, m: int)
    requires
        0 <= m <= cs.len(),
        forall|u: int| 0 <= u < cs.len() ==> cond_ok(#[trigger] cs[u]),
    ensures
        forall|j: int| 0 <= j < parents_upto(cs, v, m).len() ==> parent_ok(#[trigger] parents_upto(cs, v, m)[j]),
    decreases m,
{
    if m > 0 {
        lemma_parents_ok(cs, v, m - 1);
        let a = parents_upto(cs, v, m - 1);
        let b = parent_entries(cs[m - 1], m - 1, v);
        assert(cond_ok(cs[m - 1]));
        assert forall|j: int| 0 <= j < b.len() implies parent_ok(#[trigger] b[j]) by {
            if let ChildrenView::Condition(o, t, fl) = cs[m - 1] {
                let x = if t == v { seq![ParentView::TrueBranch(m - 1, o)] } else { Seq::empty() };
                let y = if fl == v { seq![ParentView::FalseBranch(m - 1, o)] } else { Seq::empty() };
                if j < x.len() {
                    assert(b[j] == x[j]);
                } else {
                    assert(b[j] == y[j - x.len()]);
                }
            }
        }
        assert forall|j: int| 0 <= j < (a + b).len() implies parent_ok(#[trigger] (a + b)[j]) by {
            if j < a.len() {
                assert((a + b)[j] == a[j]);
            } else {
                assert((a + b)[j] == b[j - a.len()]);
            }
        }
    }
}

proof fn lemma_add_child_ok(s: Seq<NodeView>, p: ParentView)
    requires
        path_ok(s),
        parent_ok(p),
    ensures
        path_ok(simple_add_child(s, p)),
{
    let r = simple_add_child(s, p);
    assert forall|i: int| 0 <= i < r.len() implies node_ok(#[trigger] r[i]) by {
        if i < s.len() {
            assert(r[i] == s[i]);
        }
    }
}

proof fn lemma_branch_add_child_ok(b: BranchView, p: ParentView)
    requires
        branch_ok(b),
        parent_ok(p),
    ensures
        branch_ok(branch_add_child(b, p)),
{
    match b {
        BranchView::Simple(s) => {
            lemma_add_child_ok(s, p);
        },
        BranchView::Or(v) => {
            let w = v.map_values(|s: Seq<NodeView>| simple_add_child(s, p));
            assert forall|i: int| 0 <= i < w.len() implies path_ok(#[trigger] w[i]) by {
                lemma_add_child_ok(v[i], p);
            }
        },
    }
}

proof fn lemma_flatten_ok(bs: Seq<BranchView>)
    requires
        forall|i: int| 0 <= i < bs.len() ==> branch_ok(#[trigger] bs[i]),
    ensures
        forall|i: int| 0 <= i < flatten_paths(bs).len() ==> path_ok(#[trigger] flatten_paths(bs)[i]),
    decreases bs.len(),
{
    if bs.len() > 0 {
        let p = bs.drop_last();
        assert forall|i: int| 0 <= i < p.len() implies branch_ok(#[trigger] p[i]) by {
            assert(p[i] == bs[i]);
        }
        lemma_flatten_ok(p);
        let a = flatten_paths(p);
        assert(branch_ok(bs[bs.len() - 1]));
        let b = match bs.last() {
            BranchView::Simple(s) => seq![s],
            BranchView::Or(v) => v,
        };
        assert forall|i: int| 0 <= i < b.len() implies path_ok(#[trigger] b[i]) by {}
        assert forall|i: int| 0 <= i < (a + b).len() implies path_ok(#[trigger] (a + b)[i]) by {
            if i < a.len() {
                assert((a + b)[i] == a[i]);
            } else {
                assert((a + b)[i] == b[i - a.len()]);
            }
        }
    }
}

proof fn lemma_conds_ok(pvs: Seq<Seq<ParentView>>, order: Seq<int>, k: int)
    requires
        crate::control_flow::valid_parents(pvs),
        forall|v: int, j: int| 0 <= v < pvs.len() && 0 <= j < pvs[v].len() ==> parent_ok(#[trigger] pvs[v][j]),
        forall|i: int| 0 <= i < order.len() ==> 0 <= #[trigger] order[i] < pvs.len(),
        0 <= k <= order.len(),
    ensures
        forall|v: int| 0 <= v < pvs.len() ==> branch_ok(#[trigger] conds_after(pvs, order, k)[v]),
    decreases k,
{
    crate::control_flow::lemma_conds_len(pvs, order, k);
    if k > 0 {
        lemma_conds_ok(pvs, order, k - 1);
        crate::control_flow::lemma_conds_len(pvs, order, k - 1);
        let prev = conds_after(pvs, order, k - 1);
        let v = order[k - 1];
        let inc = incoming_predicates(prev, pvs[v]);
        assert forall|j: int| 0 <= j < inc.len() implies branch_ok(#[trigger] inc[j]) by {
            let p = pvs[v][j];
            assert(parent_ok(pvs[v][j]));
            assert(0 <= parent_source(pvs[v][j]) < pvs.len());
            assert(branch_ok(prev[parent_source(p)]));
            lemma_branch_add_child_ok(prev[parent_source(p)], p);
        }
        lemma_flatten_ok(inc);
        let nb = from_many_spec(inc);
        if inc.len() == 1 {
            assert(branch_ok(inc[0]));
        }
        assert(branch_ok(nb));
        assert forall|w: int| 0 <= w < pvs.len() implies branch_ok(#[trigger] conds_after(pvs, order, k)[w]) by {
            if w != v {
                assert(conds_after(pvs, order, k)[w] == prev[w]);
            }
        }
    }
}

proof fn lemma_param_decls(params: Seq<Seq<char>>)
    requires
        forall|i: int| 0 <= i < params.len() ==> plain_ir_name(#[trigger] params[i]),
    ensures
        forall|i: int| 0 <= i < param_decls(params).len() ==> is_legal_name(decl_name(#[trigger] param_decls(params)[i])),
    decreases params.len(),
{
    if params.len() > 0 {
        let p = params.drop_last();
        assert forall|i: int| 0 <= i < p.len() implies plain_ir_name(#[trigger] p[i]) by {
            assert(p[i] == params[i]);
        }
        lemma_param_decls(p);
        assert(plain_ir_name(params[params.len() - 1]));
        lemma_normalized_is_legal(params.last());
        lemma_with_decl(param_decls(p), DeclView::Input(normalized(params.last())));
    }
}

/// Every identifier of the template: declared names, component names and
/// gadgets, signal names and the component part of pins on either side of a
/// constraint.
pub open spec fn template_names_legal(t: TemplateView) -> bool {
    forall|i: int| 0 <= i < t.instructions.len() ==> instr_legal(#[trigger] t.instructions[i])
}

/// Where every name of the function is plain, every identifier of the
/// template built by the lowering for a topological order is legal.
pub proof fn lemma_translation_names_legal(name: Seq<char>, f: IrFunction, order: Seq<int>, st: LowerState)
    requires
        plain_function(f),
        children_prefix(f.basic_blocks@, f.basic_blocks@.len() as int) is Ok,
        order.len() == f.basic_blocks@.len(),
        forall|i: int| 0 <= i < order.len() ==> 0 <= #[trigger] order[i] < f.basic_blocks@.len(),
        lowering_spec(
            f.parameters@.map_values(|p: String| p@),
            f.basic_blocks@,
            order,
            conds_after(
                parent_table(children_prefix(f.basic_blocks@, f.basic_blocks@.len() as int)->Ok_0),
                order,
                f.basic_blocks@.len() as int,
            ),
        ) == Ok::<LowerState, ErrorView>(st),
    ensures
        template_names_legal(template_of(name, st)),
{
    let n = f.basic_blocks@.len() as int;
    let cs = children_prefix(f.basic_blocks@, n)->Ok_0;
    crate::control_flow::lemma_children_len(f.basic_blocks@, n);
    lemma_children_ok(f, n);
    let pvs = parent_table(cs);
    crate::control_flow::lemma_parent_table_valid(cs);
    assert forall|v: int, j: int| 0 <= v < pvs.len() && 0 <= j < pvs[v].len() implies parent_ok(#[trigger] pvs[v][j]) by {
        lemma_parents_ok(cs, v, cs.len() as int);
    }
    let conds = conds_after(pvs, order, n);
    lemma_conds_ok(pvs, order, order.len() as int);
    let params = f.parameters@.map_values(|p: String| p@);
    assert forall|i: int| 0 <= i < params.len() implies plain_ir_name(#[trigger] params[i]) by {
        assert(plain_ir_name(f.parameters@[i]@));
    }
    lemma_param_decls(params);
    let st0 = LowerState { decls: param_decls(params), cells: Map::empty(), cache: Seq::empty(), out: Seq::empty() };
    assert(state_legal(st0));
    lemma_output_name_legal();
    let o = output_name();
    lemma_cell(st0, o, 0);
    lemma_emit(with_cell(st0, o, 0), InstrView::Constraint(version_ref(o, 0), ExprView::Operand(OperandView::Const(0))));
    let st1 = alloca_spec(st0, o)->Ok_0;
    lemma_walk(st1, conds, f, order, order.len() as int);
    let st2 = walk_spec(st1, conds, f.basic_blocks@, order, order.len() as int)->Ok_0;
    let st3 = LowerState { decls: with_decl(st2.decls, DeclView::Output(o)), cells: st2.cells, cache: st2.cache, out: st2.out };
    lemma_with_decl(st2.decls, DeclView::Output(o));
    let k = st3.cells[o];
    lemma_derived_names_are_legal(o, o, k);
    lemma_ref(st3, version_name(o, k));
    lemma_emit(
        with_ref(st3, version_name(o, k)),
        InstrView::Constraint(RefView::Signal(o), ExprView::Operand(OperandView::Ref(version_ref(o, k)))),
    );
    let t = template_of(name, st);
    let dd = st.decls.map_values(|d: DeclView| InstrView::Decl(d));
    assert forall|i: int| 0 <= i < t.instructions.len() implies instr_legal(#[trigger] t.instructions[i]) by {
        if i < dd.len() {
            assert(t.instructions[i] == dd[i]);
        } else {
            assert(t.instructions[i] == st.out[i - dd.len()]);
        }
    }
}

} // verus!

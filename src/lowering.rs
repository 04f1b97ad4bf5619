//! Lowering of a function into one circuit template: the path-predicate
//! engine, the per-instruction handlers, and the block walk.
use vstd::prelude::*;
use crate::consumer::{push_step, unique_targets, InstructionConsumer};
use crate::control_flow::{children_prefix, compute_cfg, conds_after, is_acyclic, is_topo_order, kahn_order, lemma_order_len, parent_table, usize_ints, path_name, Branch, BranchNode, BranchView, NodeView, SimpleBranch};
use crate::error::{ErrorView, TranslateError};
use crate::instructions::{
    one_minus, one_minus_const, operand_spelling, operand_text, BinaryOperation, BinaryOperationType, BinaryOr, CircomCodeGenerator,
    CircomInstr, CircomOperand, ComponentInstatiation, ConstraintGenerationAssigment, DeclView, ExprView, Expression, InstrView,
    OperandView, RefView, Reference, Template, TemplateView, template_text,
};
use crate::names::{contains_text, gadget_name, gadget_string, normalize_name, text_contains, intermediate_name, negated_name, negated_string, normalized, or_name, or_string, version_name};
use crate::ir::{convert_operand, local_name, local_name_spec, operand_spec, operand_unsupported, IrBlock, IrFunction, IrInstruction, IrInstructionKind, IrOperand, IrTerminator};
use crate::signal_declarations::{output_name, param_decls, version_ref, with_decl, with_private, SignalDeclarations};

verus! {

/// Everything a translation has built so far: declarations, cell versions,
/// materialised predicates, and the emitted stream.
pub struct LowerState {
    pub decls: Seq<DeclView>,
    pub cells: Map<Seq<char>, nat>,
    pub cache: Seq<(BranchView, OperandView)>,
    pub out: Seq<InstrView>,
}

/// The state after a reference to the signal `n`.
pub open spec fn with_ref(st: LowerState, n: Seq<char>) -> LowerState {
    LowerState { decls: with_private(st.decls, n), cells: st.cells, cache: st.cache, out: st.out }
}

/// The state after emitting `x`, or the conflict it meets.
pub open spec fn emit(st: LowerState, x: InstrView) -> Result<LowerState, ErrorView> {
    match push_step(st.out, x) {
        Some(o) => Ok(LowerState { decls: st.decls, cells: st.cells, cache: st.cache, out: o }),
        None => Err(ErrorView::ConflictingAssignment(crate::instructions::ref_text(x->Constraint_0))),
    }
}

/// The operand memoised for the predicate `b`, if any.
pub open spec fn cache_get(cache: Seq<(BranchView, OperandView)>, b: BranchView) -> Option<OperandView>
    decreases cache.len(),
{
    if cache.len() == 0 {
        None
    } else {
        match cache_get(cache.drop_last(), b) {
            Some(o) => Some(o),
            None => if cache.last().0 == b {
                Some(cache.last().1)
            } else {
                None
            },
        }
    }
}

pub open spec fn with_cached(st: LowerState, b: BranchView, o: OperandView) -> LowerState {
    LowerState { decls: st.decls, cells: st.cells, cache: st.cache.push((b, o)), out: st.out }
}

/// The leaf of a non-empty path as an operand: the branch operand itself for
/// the true side; for the false side, the constant `1 - c` of a constant `c`,
/// or else a new signal `{x}F` constrained to `1 - x`.
pub open spec fn leaf_spec(st: LowerState, o: OperandView, side: bool) -> Result<(LowerState, OperandView), ErrorView> {
    if side {
        Ok((st, o))
    } else if o is Const {
        Ok((st, OperandView::Const(one_minus(o->Const_0))))
    } else {
        let n = negated_name(operand_text(o));
        let st1 = with_ref(st, n);
        match emit(
            st1,
            InstrView::Constraint(
                RefView::Signal(n),
                ExprView::Binary(OperandView::Const(1), BinaryOperationType::Sub, o),
            ),
        ) {
            Err(e) => Err(e),
            Ok(st2) => Ok((st2, OperandView::Ref(RefView::Signal(n)))),
        }
    }
}

/// The predicate signal of a path: none for the empty path; the leaf alone
/// when the path without its leaf has no materialised signal; else a new
/// signal named after the path, the product of that signal and the leaf.
pub open spec fn simple_spec(st: LowerState, s: Seq<NodeView>) -> Result<(LowerState, Option<OperandView>), ErrorView> {
    if s.len() == 0 {
        Ok((st, None))
    } else {
        match leaf_spec(st, s.last().0, s.last().1) {
            Err(e) => Err(e),
            Ok((st1, leaf)) => match cache_get(st1.cache, BranchView::Simple(s.drop_last())) {
                None => Ok((st1, Some(leaf))),
                Some(pc) => {
                    let n = path_name(s);
                    let st2 = with_ref(st1, n);
                    match emit(
                        st2,
                        InstrView::Constraint(RefView::Signal(n), ExprView::Binary(pc, BinaryOperationType::Mul, leaf)),
                    ) {
                        Err(e) => Err(e),
                        Ok(st3) => Ok((st3, Some(OperandView::Ref(RefView::Signal(n))))),
                    }
                },
            },
        }
    }
}

/// The signal of one path, memoised.
pub open spec fn path_operand_spec(st: LowerState, s: Seq<NodeView>) -> Result<(LowerState, Option<OperandView>), ErrorView> {
    match cache_get(st.cache, BranchView::Simple(s)) {
        Some(c) => Ok((st, Some(c))),
        None => match simple_spec(st, s) {
            Err(e) => Err(e),
            Ok((st1, None)) => Ok((st1, None)),
            Ok((st1, Some(o))) => Ok((with_cached(st1, BranchView::Simple(s), o), Some(o))),
        },
    }
}

/// The signals of the first `k` paths, those that have one, in order.
pub open spec fn paths_operands(st: LowerState, paths: Seq<Seq<NodeView>>, k: int) -> Result<(LowerState, Seq<OperandView>), ErrorView>
    decreases k,
{
    if k <= 0 {
        Ok((st, Seq::empty()))
    } else {
        match paths_operands(st, paths, k - 1) {
            Err(e) => Err(e),
            Ok((st1, ops)) => match path_operand_spec(st1, paths[k - 1]) {
                Err(e) => Err(e),
                Ok((st2, None)) => Ok((st2, ops)),
                Ok((st2, Some(o))) => Ok((st2, ops.push(o))),
            },
        }
    }
}

/// The disjunction of `acc` with the operands `ops[..k]`, left to right: each
/// step a new signal `{a}U{b}` (operands spelled as in names) constrained to
/// `(a + b) - a * b`.
pub open spec fn fold_or_spec(st: LowerState, acc: OperandView, ops: Seq<OperandView>, k: int) -> Result<(LowerState, OperandView), ErrorView>
    decreases k,
{
    if k <= 0 {
        Ok((st, acc))
    } else {
        match fold_or_spec(st, acc, ops, k - 1) {
            Err(e) => Err(e),
            Ok((st1, a)) => {
                let b = ops[k - 1];
                let n = or_name(operand_spelling(a), operand_spelling(b));
                let st2 = with_ref(st1, n);
                match emit(st2, InstrView::Constraint(RefView::Signal(n), ExprView::Or(a, b))) {
                    Err(e) => Err(e),
                    Ok(st3) => Ok((st3, OperandView::Ref(RefView::Signal(n)))),
                }
            },
        }
    }
}

/// The signal of a predicate, memoised: none for the empty path, the path's
/// signal for one path, the disjunction of the paths' signals for several.
#[verifier::opaque]
pub open spec fn branch_operand_spec(st: LowerState, b: BranchView) -> Result<(LowerState, Option<OperandView>), ErrorView> {
    match b {
        BranchView::Simple(s) => path_operand_spec(st, s),
        BranchView::Or(paths) => match cache_get(st.cache, b) {
            Some(c) => Ok((st, Some(c))),
            None => match paths_operands(st, paths, paths.len() as int) {
                Err(e) => Err(e),
                Ok((st1, ops)) => if ops.len() == 0 {
                    Ok((st1, None))
                } else {
                    match fold_or_spec(st1, ops[0], ops.drop_first(), ops.len() - 1) {
                        Err(e) => Err(e),
                        Ok((st2, o)) => Ok((with_cached(st2, b, o), Some(o))),
                    }
                },
            },
        },
    }
}


// ---------------------------------------------------------------- the engine

/// The signal table, the path predicate of each block (by block index), and
/// the predicates materialised so far with their signals.
pub struct Structure {
    signals: SignalDeclarations,
    branch_conditions: Vec<Branch>,
    declared_conditions: Vec<(Branch, CircomOperand)>,
}

pub open spec fn cache_view(v: Seq<(Branch, CircomOperand)>) -> Seq<(BranchView, OperandView)> {
    v.map_values(|e: (Branch, CircomOperand)| (e.0@, e.1@))
}

impl Structure {
    /// The signal table is well formed, and the empty path (a block that
    /// always runs) is never memoised: it has no signal.
    pub closed spec fn wf(&self) -> bool {
        &&& self.signals.wf()
        &&& forall|i: int|
            0 <= i < self.declared_conditions@.len() ==> (#[trigger] cache_view(self.declared_conditions@)[i]).0
                != BranchView::Simple(Seq::empty())
    }

    /// A fresh structure over a signal table and the path predicate of each
    /// block, with nothing memoised.
    pub fn new(signals: SignalDeclarations, branch_conditions: Vec<Branch>) -> (r: Self)
        requires
            signals.wf(),
        ensures
            r.wf(),
            r.conditions() == crate::control_flow::branches_view(branch_conditions@),
            forall|c: InstructionConsumer| #[trigger] r.state(&c) == (LowerState {
                decls: signals@.decls,
                cells: signals@.cells,
                cache: Seq::empty(),
                out: c@,
            }),
    {
        let r = Structure { signals, branch_conditions, declared_conditions: Vec::new() };
        assert(cache_view(r.declared_conditions@) =~= Seq::<(BranchView, OperandView)>::empty());
        r
    }

    /// The state of a translation whose emitted stream is `c`.
    pub closed spec fn state(&self, c: &InstructionConsumer) -> LowerState {
        LowerState {
            decls: self.signals@.decls,
            cells: self.signals@.cells,
            cache: cache_view(self.declared_conditions@),
            out: c@,
        }
    }

    /// The emitted stream of the state is the consumer's stream.
    pub proof fn lemma_state_out(&self, c: &InstructionConsumer)
        ensures
            self.state(c).out == c@,
    {
    }

    pub closed spec fn conditions(&self) -> Seq<BranchView> {
        crate::control_flow::branches_view(self.branch_conditions@)
    }

    fn get_reference(&mut self, c: &InstructionConsumer, name: String) -> (r: Reference)
        requires
            old(self).wf(),
        ensures
            final(self).wf(),
            final(self).state(c) == with_ref(old(self).state(c), name@),
            final(self).conditions() == old(self).conditions(),
            r@ == RefView::Signal(name@),
    {
        self.signals.get_reference(name)
    }

    fn cached(&self, b: &Branch) -> (r: Option<CircomOperand>)
        ensures
            r matches Some(o) ==> cache_get(cache_view(self.declared_conditions@), b@) == Some(o@),
            r is None ==> cache_get(cache_view(self.declared_conditions@), b@) is None,
    {
        let ghost cv = cache_view(self.declared_conditions@);
        let mut i: usize = 0;
        assert(cv.subrange(0, 0) =~= Seq::<(BranchView, OperandView)>::empty());
        while i < self.declared_conditions.len()
            invariant
                cv == cache_view(self.declared_conditions@),
                i <= cv.len(),
                cache_get(cv.subrange(0, i as int), b@) is None,
            decreases cv.len() - i,
        {
            let ghost pre = cv.subrange(0, i + 1);
            assert(pre.drop_last() =~= cv.subrange(0, i as int));
            if self.declared_conditions[i].0 == *b {
                let r = self.declared_conditions[i].1.clone();
                proof {
                    lemma_cache_prefix(cv, i + 1, b@);
                }
                return Some(r);
            }
            i = i + 1;
        }
        assert(cv.subrange(0, cv.len() as int) =~= cv);
        None
    }

    fn remember(&mut self, c: &InstructionConsumer, b: Branch, o: CircomOperand)
        requires
            old(self).wf(),
            b@ != BranchView::Simple(Seq::empty()),
        ensures
            final(self).wf(),
            final(self).state(c) == with_cached(old(self).state(c), b@, o@),
            final(self).conditions() == old(self).conditions(),
    {
        let ghost before = self.declared_conditions@;
        let ghost key = b@;
        self.declared_conditions.push((b, o));
        assert(cache_view(self.declared_conditions@) =~= cache_view(before).push((key, o@)));
    }

    fn emit(&self, c: &mut InstructionConsumer, x: CircomInstr) -> (r: Result<(), TranslateError>)
        ensures
            match emit(self.state(old(c)), x@) {
                Ok(st) => r is Ok && self.state(final(c)) == st,
                Err(e) => r matches Err(y) && y@ == e,
            },
    {
        c.push(x)
    }

    fn leaf(&mut self, c: &mut InstructionConsumer, o: &CircomOperand, side: bool) -> (r: Result<CircomOperand, TranslateError>)
        requires
            old(self).wf(),
        ensures
            final(self).wf(),
            final(self).conditions() == old(self).conditions(),
            match leaf_spec(old(self).state(old(c)), o@, side) {
                Ok((st, x)) => r matches Ok(y) && y@ == x && final(self).state(final(c)) == st,
                Err(e) => r matches Err(y) && y@ == e,
            },
    {
        if side {
            return Ok(o.clone());
        }
        if let CircomOperand::Constant(c) = o {
            return Ok(CircomOperand::Constant(one_minus_const(*c)));
        }
        let name = negated_string(o.to_circom().as_str());
        let f = self.get_reference(c, name);
        let x = CircomInstr::ConstraintGenerationAssigment(ConstraintGenerationAssigment {
            left: f.clone(),
            right: Expression::BinaryOperation(BinaryOperation {
                left: CircomOperand::Constant(1),
                op: BinaryOperationType::Sub,
                right: o.clone(),
            }),
        });
        self.emit(c, x)?;
        Ok(CircomOperand::Reference(f))
    }

    /// The signal of a non-memoised path, materialising it.
    fn simple_branch_operand(&mut self, c: &mut InstructionConsumer, branch: &SimpleBranch) -> (r: Result<Option<CircomOperand>, TranslateError>)
        requires
            old(self).wf(),
        ensures
            final(self).wf(),
            final(self).conditions() == old(self).conditions(),
            match simple_spec(old(self).state(old(c)), branch@) {
                Ok((st, x)) => r matches Ok(y) && (y matches Some(z) ==> x == Some(z@)) && (y is None ==> x is None)
                    && final(self).state(final(c)) == st,
                Err(e) => r matches Err(y) && y@ == e,
            },
    {
        let node = match branch.leaf_condition() {
            None => {
                return Ok(None);
            },
            Some(n) => n,
        };
        let leaf = self.leaf(c, &node.0, node.1)?;
        let parent = Branch::Simple(branch.parent());
        match self.cached(&parent) {
            None => Ok(Some(leaf)),
            Some(pc) => {
                let name = branch.condition_operand_name();
                let cond = self.get_reference(c, name);
                let x = CircomInstr::ConstraintGenerationAssigment(ConstraintGenerationAssigment {
                    left: cond.clone(),
                    right: Expression::BinaryOperation(BinaryOperation {
                        left: pc,
                        op: BinaryOperationType::Mul,
                        right: leaf,
                    }),
                });
                self.emit(c, x)?;
                Ok(Some(CircomOperand::Reference(cond)))
            },
        }
    }

    /// The signal of one path, memoised.
    fn path_operand(&mut self, c: &mut InstructionConsumer, branch: &SimpleBranch) -> (r: Result<Option<CircomOperand>, TranslateError>)
        requires
            old(self).wf(),
        ensures
            final(self).wf(),
            final(self).conditions() == old(self).conditions(),
            match path_operand_spec(old(self).state(old(c)), branch@) {
                Ok((st, x)) => r matches Ok(y) && (y matches Some(z) ==> x == Some(z@)) && (y is None ==> x is None)
                    && final(self).state(final(c)) == st,
                Err(e) => r matches Err(y) && y@ == e,
            },
    {
        let key = Branch::Simple(branch.clone());
        if let Some(o) = self.cached(&key) {
            return Ok(Some(o));
        }
        match self.simple_branch_operand(c, branch)? {
            None => Ok(None),
            Some(o) => {
                self.remember(c, key, o.clone());
                Ok(Some(o))
            },
        }
    }
}

/// A memoised predicate is one of the cache's keys.
proof fn lemma_cache_key(cv: Seq<(BranchView, OperandView)>, b: BranchView)
    ensures
        cache_get(cv, b) is Some ==> exists|i: int| 0 <= i < cv.len() && (#[trigger] cv[i]).0 == b,
    decreases cv.len(),
{
    if cv.len() > 0 {
        lemma_cache_key(cv.drop_last(), b);
        if cache_get(cv.drop_last(), b) is Some {
            let i = choose|i: int| 0 <= i < cv.drop_last().len() && (#[trigger] cv.drop_last()[i]).0 == b;
            assert(cv[i] == cv.drop_last()[i]);
        }
    }
}

proof fn lemma_cache_prefix(cv: Seq<(BranchView, OperandView)>, n: int, b: BranchView)
    requires
        0 <= n <= cv.len(),
        cache_get(cv.subrange(0, n), b) is Some,
    ensures
        cache_get(cv, b) == cache_get(cv.subrange(0, n), b),
    decreases cv.len() - n,
{
    if n < cv.len() {
        let p = cv.subrange(0, n + 1);
        assert(p.drop_last() =~= cv.subrange(0, n));
        lemma_cache_prefix(cv, n + 1, b);
    } else {
        assert(cv.subrange(0, n) =~= cv);
    }
}


impl Structure {
    /// The signal of a predicate, materialised on first demand and memoised;
    /// `None` for a predicate that always holds.
    pub fn branch_operand(&mut self, c: &mut InstructionConsumer, branch: &Branch) -> (r: Result<Option<CircomOperand>, TranslateError>)
        requires
            old(self).wf(),
        ensures
            final(self).wf(),
            final(self).conditions() == old(self).conditions(),
            match branch_operand_spec(old(self).state(old(c)), branch@) {
                Ok((st, x)) => r matches Ok(y) && (y matches Some(z) ==> x == Some(z@)) && (y is None ==> x is None)
                    && final(self).state(final(c)) == st,
                Err(e) => r matches Err(y) && y@ == e,
            },
            branch@ == BranchView::Simple(Seq::empty()) ==> (r matches Ok(None) && final(self).state(final(c))
                == old(self).state(old(c))),
    {
        proof {
            reveal(branch_operand_spec);
            if branch@ == BranchView::Simple(Seq::empty()) {
                lemma_cache_key(cache_view(self.declared_conditions@), branch@);
            }
        }
        let paths = match branch {
            Branch::Simple(s) => {
                return self.path_operand(c, s);
            },
            Branch::Or(paths) => paths,
        };
        if let Some(o) = self.cached(branch) {
            return Ok(Some(o));
        }
        let ghost pv = crate::control_flow::simples_view(paths@);
        let ghost st0 = self.state(c);
        let mut ops: Vec<CircomOperand> = Vec::new();
        let mut i: usize = 0;
        while i < paths.len()
            invariant
                pv == crate::control_flow::simples_view(paths@),
                st0 == old(self).state(old(c)),
                branch@ == BranchView::Or(pv),
                cache_get(st0.cache, branch@) is None,
                i <= paths@.len(),
                self.wf(),
                self.conditions() == old(self).conditions(),
                paths_operands(st0, pv, i as int) matches Ok((st, xs)) && st == self.state(c)
                    && xs == ops@.map_values(|o: CircomOperand| o@),
            decreases paths@.len() - i,
        {
            let ghost before = ops@;
            assert(pv[i as int] == paths@[i as int]@);
            match self.path_operand(c, &paths[i]) {
                Err(e) => {
                    proof {
                        reveal(branch_operand_spec);
                        assert(paths_operands(st0, pv, i as int + 1) is Err);
                        lemma_paths_stuck(st0, pv, i as int + 1);
                    }
                    return Err(e);
                },
                Ok(None) => {},
                Ok(Some(o)) => {
                    ops.push(o);
                    assert(ops@.map_values(|o: CircomOperand| o@) =~= before.map_values(|o: CircomOperand| o@).push(ops@.last()@));
                },
            }
            i = i + 1;
        }
        if ops.len() == 0 {
            return Ok(None);
        }
        let ghost xs = ops@.map_values(|o: CircomOperand| o@);
        let ghost st1 = self.state(c);
        let mut acc = ops[0].clone();
        let mut k: usize = 1;
        while k < ops.len()
            invariant
                xs == ops@.map_values(|o: CircomOperand| o@),
                st0 == old(self).state(old(c)),
                branch@ == BranchView::Or(pv),
                cache_get(st0.cache, branch@) is None,
                paths_operands(st0, pv, pv.len() as int) == Ok::<(LowerState, Seq<OperandView>), ErrorView>((st1, xs)),
                1 <= k <= ops@.len(),
                self.wf(),
                self.conditions() == old(self).conditions(),
                fold_or_spec(st1, xs[0], xs.drop_first(), k - 1) matches Ok((st, a)) && st == self.state(c)
                    && a == acc@,
            decreases ops@.len() - k,
        {
            let name = or_string(acc.spelling().as_str(), ops[k].spelling().as_str());
            let cond = self.get_reference(c, name);
            let x = CircomInstr::ConstraintGenerationAssigment(ConstraintGenerationAssigment {
                left: cond.clone(),
                right: Expression::BinaryOr(BinaryOr { a: acc, b: ops[k].clone() }),
            });
            assert(xs.drop_first()[k - 1] == ops@[k as int]@);
            match self.emit(c, x) {
                Err(e) => {
                    proof {
                        reveal(branch_operand_spec);
                        assert(fold_or_spec(st1, xs[0], xs.drop_first(), k as int) is Err);
                        lemma_fold_stuck(st1, xs[0], xs.drop_first(), k as int);
                        assert(xs.drop_first().len() == k - 1 + (ops@.len() - k));
                    }
                    return Err(e);
                },
                Ok(()) => {},
            }
            acc = CircomOperand::Reference(cond);
            k = k + 1;
        }
        self.remember(c, branch.clone(), acc.clone());
        Ok(Some(acc))
    }

    /// The signal of the path predicate of the block with index `block`.
    fn declare_condition(&mut self, c: &mut InstructionConsumer, block: usize) -> (r: Result<Option<CircomOperand>, TranslateError>)
        requires
            old(self).wf(),
            block < old(self).conditions().len(),
        ensures
            final(self).wf(),
            final(self).conditions() == old(self).conditions(),
            match branch_operand_spec(old(self).state(old(c)), old(self).conditions()[block as int]) {
                Ok((st, x)) => r matches Ok(y) && (y matches Some(z) ==> x == Some(z@)) && (y is None ==> x is None)
                    && final(self).state(final(c)) == st,
                Err(e) => r matches Err(y) && y@ == e,
            },
    {
        let branch = self.branch_conditions[block].clone();
        self.branch_operand(c, &branch)
    }
}

proof fn lemma_paths_stuck(st: LowerState, paths: Seq<Seq<NodeView>>, n: int)
    requires
        0 < n <= paths.len(),
        paths_operands(st, paths, n) is Err,
    ensures
        paths_operands(st, paths, paths.len() as int) == paths_operands(st, paths, n),
    decreases paths.len() - n,
{
    if n < paths.len() {
        lemma_paths_stuck(st, paths, n + 1);
    }
}

proof fn lemma_fold_stuck(st: LowerState, acc: OperandView, ops: Seq<OperandView>, n: int)
    requires
        0 < n <= ops.len(),
        fold_or_spec(st, acc, ops, n) is Err,
    ensures
        fold_or_spec(st, acc, ops, ops.len() as int) == fold_or_spec(st, acc, ops, n),
    decreases ops.len() - n,
{
    if n < ops.len() {
        lemma_fold_stuck(st, acc, ops, n + 1);
    }
}


// ---------------------------------------------------------------- instructions

/// The state after the cell `n` moves to version `k`.
pub open spec fn with_cell(st: LowerState, n: Seq<char>, k: nat) -> LowerState {
    LowerState {
        decls: with_private(st.decls, version_name(n, k)),
        cells: st.cells.insert(n, k),
        cache: st.cache,
        out: st.out,
    }
}

/// A write of `v` to the cell `a`: the cell moves from version `k` to `k + 1`;
/// unconditionally `{a}_m{k+1} <== v`; under the predicate signal `c`, first an
/// intermediate `{a}_m{k+1}O <== v`, then `{a}_m{k+1}` selects between it and
/// `{a}_m{k}` on `c`.
pub open spec fn store_spec(st: LowerState, cond: Option<OperandView>, a: Seq<char>, v: OperandView) -> Result<LowerState, ErrorView> {
    if !st.cells.contains_key(a) {
        Err(ErrorView::UnknownCell(a))
    } else if st.cells[a] >= usize::MAX {
        Err(ErrorView::VersionLimit(a))
    } else {
        let k = st.cells[a];
        let st1 = with_ref(st, version_name(a, k));
        let st2 = with_cell(st1, a, k + 1);
        let d = version_ref(a, k + 1);
        match cond {
            None => emit(st2, InstrView::Constraint(d, ExprView::Operand(v))),
            Some(c) => {
                let m = intermediate_name(version_name(a, k + 1));
                let st3 = with_ref(st2, m);
                match emit(st3, InstrView::Constraint(RefView::Signal(m), ExprView::Operand(v))) {
                    Err(e) => Err(e),
                    Ok(st4) => emit(
                        st4,
                        InstrView::Constraint(
                            d,
                            ExprView::Cond(c, OperandView::Ref(RefView::Signal(m)), OperandView::Ref(version_ref(a, k))),
                        ),
                    ),
                }
            },
        }
    }
}

/// `dest <== a op b`.
pub open spec fn binary_spec(st: LowerState, dest: Seq<char>, a: IrOperand, b: IrOperand, op: BinaryOperationType) -> Result<LowerState, ErrorView> {
    match operand_spec(a) {
        None => Err(operand_unsupported(a)),
        Some(x) => match operand_spec(b) {
            None => Err(operand_unsupported(b)),
            Some(y) => {
                let d = normalized(dest);
                emit(with_ref(st, d), InstrView::Constraint(RefView::Signal(d), ExprView::Binary(x, op, y)))
            },
        },
    }
}

/// `dest <== a`.
pub open spec fn copy_spec(st: LowerState, dest: Seq<char>, a: IrOperand) -> Result<LowerState, ErrorView> {
    match operand_spec(a) {
        None => Err(operand_unsupported(a)),
        Some(x) => {
            let d = normalized(dest);
            emit(with_ref(st, d), InstrView::Constraint(RefView::Signal(d), ExprView::Operand(x)))
        },
    }
}

pub open spec fn is_equal_gadget() -> Seq<char> {
    "IsEqual"@
}

/// An `IsEqual` gadget `{dest}_EQ` fed with `a` and `b`, and `dest` bound to
/// its output.
pub open spec fn icmp_spec(st: LowerState, dest: Seq<char>, a: IrOperand, b: IrOperand) -> Result<LowerState, ErrorView> {
    match operand_spec(a) {
        None => Err(operand_unsupported(a)),
        Some(x) => match operand_spec(b) {
            None => Err(operand_unsupported(b)),
            Some(y) => {
                let d = normalized(dest);
                let g = gadget_name(d);
                match emit(with_ref(st, d), InstrView::Component(g, is_equal_gadget())) {
                    Err(e) => Err(e),
                    Ok(st1) => match emit(st1, InstrView::Constraint(RefView::Field(g, "in[0]"@), ExprView::Operand(x))) {
                        Err(e) => Err(e),
                        Ok(st2) => match emit(st2, InstrView::Constraint(RefView::Field(g, "in[1]"@), ExprView::Operand(y))) {
                            Err(e) => Err(e),
                            Ok(st3) => emit(
                                st3,
                                InstrView::Constraint(
                                    RefView::Signal(d),
                                    ExprView::Operand(OperandView::Ref(RefView::Field(g, "out"@))),
                                ),
                            ),
                        },
                    },
                }
            },
        },
    }
}

/// A new cell `name` at version 0, `{name}_m0 <== 0`.
pub open spec fn alloca_spec(st: LowerState, name: Seq<char>) -> Result<LowerState, ErrorView> {
    if st.cells.contains_key(name) {
        Err(ErrorView::CellRedeclared(name))
    } else {
        emit(
            with_cell(st, name, 0),
            InstrView::Constraint(version_ref(name, 0), ExprView::Operand(OperandView::Const(0))),
        )
    }
}

/// `dest <==` the current version of the cell at `addr`.
pub open spec fn load_spec(st: LowerState, dest: Seq<char>, addr: IrOperand) -> Result<LowerState, ErrorView> {
    match local_name_spec(addr) {
        None => Err(operand_unsupported(addr)),
        Some(a) => {
            let d = normalized(dest);
            let st1 = with_ref(st, d);
            if !st1.cells.contains_key(a) {
                Err(ErrorView::UnknownCell(a))
            } else {
                let k = st1.cells[a];
                let st2 = with_ref(st1, version_name(a, k));
                emit(st2, InstrView::Constraint(RefView::Signal(d), ExprView::Operand(OperandView::Ref(version_ref(a, k)))))
            }
        },
    }
}

/// An instruction left out of the circuit: debug and overflow-check calls.
pub open spec fn is_skipped(text: Seq<char>) -> bool {
    contains_text(text, "spill"@) || contains_text(text, "precondition_check"@)
}

/// The effect of one instruction under the block's predicate signal `cond`.
#[verifier::opaque]
pub open spec fn instr_spec(st: LowerState, cond: Option<OperandView>, i: IrInstruction) -> Result<LowerState, ErrorView> {
    match i.kind {
        IrInstructionKind::Mul { dest, operand0, operand1 } => binary_spec(st, dest@, operand0, operand1, BinaryOperationType::Mul),
        IrInstructionKind::Add { dest, operand0, operand1 } => binary_spec(st, dest@, operand0, operand1, BinaryOperationType::Add),
        IrInstructionKind::URem { dest, operand0, operand1 } => binary_spec(st, dest@, operand0, operand1, BinaryOperationType::Rem),
        IrInstructionKind::ICmpEq { dest, operand0, operand1 } => icmp_spec(st, dest@, operand0, operand1),
        IrInstructionKind::ZExt { dest, operand } => copy_spec(st, dest@, operand),
        _ => if is_skipped(i.text@) {
            Ok(st)
        } else {
            match i.kind {
                IrInstructionKind::Trunc { dest, operand } => copy_spec(st, dest@, operand),
                IrInstructionKind::Alloca { dest } => alloca_spec(st, normalized(dest@)),
                IrInstructionKind::Load { dest, address } => load_spec(st, dest@, address),
                IrInstructionKind::Store { address, value } => match local_name_spec(address) {
                    None => Err(operand_unsupported(address)),
                    Some(a) => match operand_spec(value) {
                        None => Err(operand_unsupported(value)),
                        Some(v) => store_spec(st, cond, a, v),
                    },
                },
                _ => Err(ErrorView::Unsupported(i.text@)),
            }
        },
    }
}

/// The effect of a terminator: a return writes its value to the output cell
/// under `cond`; branches emit nothing.
#[verifier::opaque]
pub open spec fn term_spec(st: LowerState, cond: Option<OperandView>, t: IrTerminator) -> Result<LowerState, ErrorView> {
    match t {
        IrTerminator::Ret(Some(v)) => match operand_spec(v) {
            None => Err(operand_unsupported(v)),
            Some(x) => store_spec(st, cond, output_name(), x),
        },
        IrTerminator::Ret(None) => Err(ErrorView::Unsupported("ret void"@)),
        IrTerminator::Br(_) => Ok(st),
        IrTerminator::CondBr { .. } => Ok(st),
        IrTerminator::Other(s) => Err(ErrorView::Unsupported(s@)),
    }
}


impl Structure {
    fn read_mutable(&mut self, c: &InstructionConsumer, name: String) -> (r: Result<CircomOperand, TranslateError>)
        requires
            old(self).wf(),
        ensures
            final(self).wf(),
            final(self).conditions() == old(self).conditions(),
            !old(self).state(c).cells.contains_key(name@) ==> (r matches Err(e) && e@ == ErrorView::UnknownCell(name@)),
            old(self).state(c).cells.contains_key(name@) ==> (r matches Ok(x) && {
                let k = old(self).state(c).cells[name@];
                &&& x@ == OperandView::Ref(version_ref(name@, k))
                &&& final(self).state(c) == with_ref(old(self).state(c), version_name(name@, k))
            }),
    {
        self.signals.read_mutable_reference(name)
    }

    /// Emits the constraints of a write of `value` to the cell `name` under the
    /// predicate signal `condition`.
    pub fn handle_store(
        &mut self,
        c: &mut InstructionConsumer,
        condition: &Option<CircomOperand>,
        name: String,
        value: CircomOperand,
    ) -> (r: Result<(), TranslateError>)
        requires
            old(self).wf(),
        ensures
            final(self).wf(),
            final(self).conditions() == old(self).conditions(),
            match store_spec(old(self).state(old(c)), opt_view(*condition), name@, value@) {
                Ok(st) => r is Ok && final(self).state(final(c)) == st,
                Err(e) => r matches Err(y) && y@ == e,
            },
    {
        let prev = self.read_mutable(c, name.clone())?;
        let dest = match self.signals.increment_mutable_reference(name) {
            Ok(d) => d,
            Err(e) => {
                return Err(e);
            },
        };
        match condition {
            None => {
                let x = CircomInstr::ConstraintGenerationAssigment(ConstraintGenerationAssigment {
                    left: dest,
                    right: Expression::Operand(value),
                });
                self.emit(c, x)
            },
            Some(cond) => {
                let m = self.get_reference(c, dest.intermediate_optional());
                let x = CircomInstr::ConstraintGenerationAssigment(ConstraintGenerationAssigment {
                    left: m.clone(),
                    right: Expression::Operand(value),
                });
                self.emit(c, x)?;
                let y = CircomInstr::ConstraintGenerationAssigment(ConstraintGenerationAssigment {
                    left: dest,
                    right: Expression::Conditional(crate::instructions::ConditionalValue {
                        cond: cond.clone(),
                        v_if_true: CircomOperand::Reference(m),
                        v_if_false: prev,
                    }),
                });
                self.emit(c, y)
            },
        }
    }

    /// Starts the cell `name` and emits `{name}_m0 <== 0`.
    pub fn handle_alloca(&mut self, c: &mut InstructionConsumer, name: String) -> (r: Result<(), TranslateError>)
        requires
            old(self).wf(),
        ensures
            final(self).wf(),
            final(self).conditions() == old(self).conditions(),
            match alloca_spec(old(self).state(old(c)), name@) {
                Ok(st) => r is Ok && final(self).state(final(c)) == st,
                Err(e) => r matches Err(y) && y@ == e,
            },
    {
        let dest = self.signals.declare_mutable_reference(name)?;
        let x = CircomInstr::ConstraintGenerationAssigment(ConstraintGenerationAssigment {
            left: dest,
            right: Expression::Operand(CircomOperand::Constant(0)),
        });
        self.emit(c, x)
    }
}

pub open spec fn opt_view(o: Option<CircomOperand>) -> Option<OperandView> {
    match o {
        Some(x) => Some(x@),
        None => None,
    }
}


impl Structure {
    fn handle_binary_instruction(
        &mut self,
        c: &mut InstructionConsumer,
        dest: &String,
        a: &IrOperand,
        b: &IrOperand,
        op: BinaryOperationType,
    ) -> (r: Result<(), TranslateError>)
        requires
            old(self).wf(),
        ensures
            final(self).wf(),
            final(self).conditions() == old(self).conditions(),
            match binary_spec(old(self).state(old(c)), dest@, *a, *b, op) {
                Ok(st) => r is Ok && final(self).state(final(c)) == st,
                Err(e) => r matches Err(y) && y@ == e,
            },
    {
        let x = convert_operand(a)?;
        let y = convert_operand(b)?;
        let d = self.get_reference(c, normalize_name(dest.as_str()));
        let i = CircomInstr::ConstraintGenerationAssigment(ConstraintGenerationAssigment {
            left: d,
            right: Expression::BinaryOperation(BinaryOperation { left: x, op, right: y }),
        });
        self.emit(c, i)
    }

    fn handle_copy_instruction(&mut self, c: &mut InstructionConsumer, dest: &String, a: &IrOperand) -> (r: Result<(), TranslateError>)
        requires
            old(self).wf(),
        ensures
            final(self).wf(),
            final(self).conditions() == old(self).conditions(),
            match copy_spec(old(self).state(old(c)), dest@, *a) {
                Ok(st) => r is Ok && final(self).state(final(c)) == st,
                Err(e) => r matches Err(y) && y@ == e,
            },
    {
        let x = convert_operand(a)?;
        let d = self.get_reference(c, normalize_name(dest.as_str()));
        let i = CircomInstr::ConstraintGenerationAssigment(ConstraintGenerationAssigment {
            left: d,
            right: Expression::Operand(x),
        });
        self.emit(c, i)
    }

    fn handle_icmp_instruction(
        &mut self,
        c: &mut InstructionConsumer,
        dest: &String,
        a: &IrOperand,
        b: &IrOperand,
    ) -> (r: Result<(), TranslateError>)
        requires
            old(self).wf(),
        ensures
            final(self).wf(),
            final(self).conditions() == old(self).conditions(),
            match icmp_spec(old(self).state(old(c)), dest@, *a, *b) {
                Ok(st) => r is Ok && final(self).state(final(c)) == st,
                Err(e) => r matches Err(y) && y@ == e,
            },
    {
        let x = convert_operand(a)?;
        let y = convert_operand(b)?;
        let name = normalize_name(dest.as_str());
        let d = self.get_reference(c, name.clone());
        let component = ComponentInstatiation { name: gadget_string(name.as_str()), component: String::from_str("IsEqual") };
        let in0 = component.field("in[0]");
        let in1 = component.field("in[1]");
        let out = component.field("out");
        self.emit(c, CircomInstr::ComponentInstatiation(component))?;
        self.emit(c, CircomInstr::ConstraintGenerationAssigment(ConstraintGenerationAssigment {
            left: in0,
            right: Expression::Operand(x),
        }))?;
        self.emit(c, CircomInstr::ConstraintGenerationAssigment(ConstraintGenerationAssigment {
            left: in1,
            right: Expression::Operand(y),
        }))?;
        self.emit(c, CircomInstr::ConstraintGenerationAssigment(ConstraintGenerationAssigment {
            left: d,
            right: Expression::Operand(CircomOperand::Reference(out)),
        }))
    }

    fn handle_load_instruction(&mut self, c: &mut InstructionConsumer, dest: &String, address: &IrOperand) -> (r: Result<(), TranslateError>)
        requires
            old(self).wf(),
        ensures
            final(self).wf(),
            final(self).conditions() == old(self).conditions(),
            match load_spec(old(self).state(old(c)), dest@, *address) {
                Ok(st) => r is Ok && final(self).state(final(c)) == st,
                Err(e) => r matches Err(y) && y@ == e,
            },
    {
        let a = local_name(address)?;
        let d = self.get_reference(c, normalize_name(dest.as_str()));
        let source = self.read_mutable(c, a)?;
        self.emit(c, CircomInstr::ConstraintGenerationAssigment(ConstraintGenerationAssigment {
            left: d,
            right: Expression::Operand(source),
        }))
    }

    /// Emits the constraints of one instruction under the block's predicate
    /// signal `condition`.
    pub fn handle_instruction(
        &mut self,
        c: &mut InstructionConsumer,
        condition: &Option<CircomOperand>,
        instruction: &IrInstruction,
    ) -> (r: Result<(), TranslateError>)
        requires
            old(self).wf(),
        ensures
            final(self).wf(),
            final(self).conditions() == old(self).conditions(),
            match instr_spec(old(self).state(old(c)), opt_view(*condition), *instruction) {
                Ok(st) => r is Ok && final(self).state(final(c)) == st,
                Err(e) => r matches Err(y) && y@ == e,
            },
    {
        proof {
            reveal(instr_spec);
        }
        match &instruction.kind {
            IrInstructionKind::Mul { dest, operand0, operand1 } => {
                return self.handle_binary_instruction(c, dest, operand0, operand1, BinaryOperationType::Mul);
            },
            IrInstructionKind::Add { dest, operand0, operand1 } => {
                return self.handle_binary_instruction(c, dest, operand0, operand1, BinaryOperationType::Add);
            },
            IrInstructionKind::URem { dest, operand0, operand1 } => {
                return self.handle_binary_instruction(c, dest, operand0, operand1, BinaryOperationType::Rem);
            },
            IrInstructionKind::ICmpEq { dest, operand0, operand1 } => {
                return self.handle_icmp_instruction(c, dest, operand0, operand1);
            },
            IrInstructionKind::ZExt { dest, operand } => {
                return self.handle_copy_instruction(c, dest, operand);
            },
            _ => {},
        }
        proof {
            reveal_strlit("spill");
            reveal_strlit("precondition_check");
        }
        if text_contains(instruction.text.as_str(), "spill") || text_contains(instruction.text.as_str(), "precondition_check") {
            return Ok(());
        }
        match &instruction.kind {
            IrInstructionKind::Trunc { dest, operand } => self.handle_copy_instruction(c, dest, operand),
            IrInstructionKind::Alloca { dest } => self.handle_alloca(c, normalize_name(dest.as_str())),
            IrInstructionKind::Load { dest, address } => self.handle_load_instruction(c, dest, address),
            IrInstructionKind::Store { address, value } => {
                let a = local_name(address)?;
                let v = convert_operand(value)?;
                self.handle_store(c, condition, a, v)
            },
            _ => Err(TranslateError::Unsupported(instruction.text.clone())),
        }
    }

    /// Emits the constraints of a block's terminator under the block's
    /// predicate signal `condition`.
    pub fn handle_return_terminator(
        &mut self,
        c: &mut InstructionConsumer,
        condition: &Option<CircomOperand>,
        terminator: &IrTerminator,
    ) -> (r: Result<(), TranslateError>)
        requires
            old(self).wf(),
        ensures
            final(self).wf(),
            final(self).conditions() == old(self).conditions(),
            match term_spec(old(self).state(old(c)), opt_view(*condition), *terminator) {
                Ok(st) => r is Ok && final(self).state(final(c)) == st,
                Err(e) => r matches Err(y) && y@ == e,
            },
    {
        proof {
            reveal(term_spec);
        }
        match terminator {
            IrTerminator::Ret(Some(v)) => {
                let value = convert_operand(v)?;
                let name = self.signals.output_signal_name();
                self.handle_store(c, condition, name, value)
            },
            IrTerminator::Ret(None) => {
                proof {
                    reveal_strlit("ret void");
                }
                Err(TranslateError::Unsupported(String::from_str("ret void")))
            },
            IrTerminator::Br(_) => Ok(()),
            IrTerminator::CondBr { .. } => Ok(()),
            IrTerminator::Other(s) => Err(TranslateError::Unsupported(s.clone())),
        }
    }
}


// ---------------------------------------------------------------- the walk

/// The effect of the first `k` instructions of a block.
pub open spec fn instrs_spec(st: LowerState, cond: Option<OperandView>, is: Seq<IrInstruction>, k: int) -> Result<LowerState, ErrorView>
    decreases k,
{
    if k <= 0 {
        Ok(st)
    } else {
        match instrs_spec(st, cond, is, k - 1) {
            Err(e) => Err(e),
            Ok(st1) => instr_spec(st1, cond, is[k - 1]),
        }
    }
}

/// The effect of one block with predicate `pred`: its predicate signal first,
/// then its instructions in order, then its terminator.
#[verifier::opaque]
pub open spec fn block_spec(st: LowerState, pred: BranchView, b: IrBlock) -> Result<LowerState, ErrorView> {
    match branch_operand_spec(st, pred) {
        Err(e) => Err(e),
        Ok((st1, cond)) => match instrs_spec(st1, cond, b.instrs@, b.instrs@.len() as int) {
            Err(e) => Err(e),
            Ok(st2) => term_spec(st2, cond, b.term),
        },
    }
}

/// The effect of the first `k` blocks of `order`.
pub open spec fn walk_spec(st: LowerState, conds: Seq<BranchView>, blocks: Seq<IrBlock>, order: Seq<int>, k: int) -> Result<LowerState, ErrorView>
    decreases k,
{
    if k <= 0 {
        Ok(st)
    } else {
        match walk_spec(st, conds, blocks, order, k - 1) {
            Err(e) => Err(e),
            Ok(st1) => block_spec(st1, conds[order[k - 1]], blocks[order[k - 1]]),
        }
    }
}

/// The closing binding `OUTPUT_ <== {OUTPUT_}_m{k}` of the output signal to the
/// last version of the output cell.
pub open spec fn finish_spec(st: LowerState) -> Result<LowerState, ErrorView> {
    let o = output_name();
    let st1 = LowerState {
        decls: with_decl(st.decls, DeclView::Output(o)),
        cells: st.cells,
        cache: st.cache,
        out: st.out,
    };
    if !st1.cells.contains_key(o) {
        Err(ErrorView::UnknownCell(o))
    } else {
        let k = st1.cells[o];
        let st2 = with_ref(st1, version_name(o, k));
        emit(st2, InstrView::Constraint(RefView::Signal(o), ExprView::Operand(OperandView::Ref(version_ref(o, k)))))
    }
}

/// The whole emission for blocks taken in `order` with predicates `conds`:
/// inputs from the parameters, the output cell, every block, the closing
/// binding.
pub open spec fn lowering_spec(params: Seq<Seq<char>>, blocks: Seq<IrBlock>, order: Seq<int>, conds: Seq<BranchView>) -> Result<LowerState, ErrorView> {
    let st0 = LowerState { decls: param_decls(params), cells: Map::empty(), cache: Seq::empty(), out: Seq::empty() };
    match alloca_spec(st0, output_name()) {
        Err(e) => Err(e),
        Ok(st1) => match walk_spec(st1, conds, blocks, order, order.len() as int) {
            Err(e) => Err(e),
            Ok(st2) => finish_spec(st2),
        },
    }
}

/// The template: all declarations, then the emitted stream.
pub open spec fn template_of(name: Seq<char>, st: LowerState) -> TemplateView {
    TemplateView { name, instructions: st.decls.map_values(|d: DeclView| InstrView::Decl(d)) + st.out }
}

/// The translation of a function: the blocks in Kahn's order, each lowered
/// under its path predicate.
pub open spec fn translate_spec(name: Seq<char>, f: IrFunction) -> Result<TemplateView, ErrorView> {
    let blocks = f.basic_blocks@;
    match children_prefix(blocks, blocks.len() as int) {
        Err(e) => Err(e),
        Ok(cs) => if !is_acyclic(cs) {
            Err(ErrorView::Cycle)
        } else {
            let order = kahn_order(cs);
            let conds = conds_after(parent_table(cs), order, blocks.len() as int);
            match lowering_spec(f.parameters@.map_values(|p: String| p@), blocks, order, conds) {
                Err(e) => Err(e),
                Ok(st) => Ok(template_of(name, st)),
            }
        },
    }
}

impl Structure {
    fn walk_block(&mut self, c: &mut InstructionConsumer, index: usize, block: &IrBlock) -> (r: Result<(), TranslateError>)
        requires
            old(self).wf(),
            index < old(self).conditions().len(),
        ensures
            final(self).wf(),
            final(self).conditions() == old(self).conditions(),
            match block_spec(old(self).state(old(c)), old(self).conditions()[index as int], *block) {
                Ok(st) => r is Ok && final(self).state(final(c)) == st,
                Err(e) => r matches Err(y) && y@ == e,
            },
    {
        proof {
            reveal(block_spec);
        }
        let condition = self.declare_condition(c, index)?;
        let ghost st1 = self.state(c);
        let ghost cond = opt_view(condition);
        assert(branch_operand_spec(old(self).state(old(c)), old(self).conditions()[index as int])
            == Ok::<(LowerState, Option<OperandView>), ErrorView>((st1, cond)));
        let mut i: usize = 0;
        while i < block.instrs.len()
            invariant
                branch_operand_spec(old(self).state(old(c)), old(self).conditions()[index as int])
                    == Ok::<(LowerState, Option<OperandView>), ErrorView>((st1, cond)),
                self.wf(),
                self.conditions() == old(self).conditions(),
                cond == opt_view(condition),
                i <= block.instrs@.len(),
                instrs_spec(st1, cond, block.instrs@, i as int) == Ok::<LowerState, ErrorView>(self.state(c)),
            decreases block.instrs@.len() - i,
        {
            match self.handle_instruction(c, &condition, &block.instrs[i]) {
                Err(e) => {
                    proof {
                        reveal(block_spec);
                        lemma_instrs_stuck(st1, cond, block.instrs@, i as int + 1);
                    }
                    return Err(e);
                },
                Ok(()) => {},
            }
            i = i + 1;
        }
        self.handle_return_terminator(c, &condition, &block.term)
    }
}

/// A translation is a function of its input: two translations of the same
/// function under the same name give the same result, and a template the same
/// text.
pub proof fn lemma_translation_deterministic(
    name: Seq<char>,
    f: IrFunction,
    r1: Result<TemplateView, ErrorView>,
    r2: Result<TemplateView, ErrorView>,
)
    requires
        r1 == translate_spec(name, f),
        r2 == translate_spec(name, f),
    ensures
        r1 == r2,
        r1 matches Ok(t1) ==> r2 matches Ok(t2) && template_text(t1) == template_text(t2),
{
}

proof fn lemma_instrs_stuck(st: LowerState, cond: Option<OperandView>, is: Seq<IrInstruction>, n: int)
    requires
        0 < n <= is.len(),
        instrs_spec(st, cond, is, n) is Err,
    ensures
        instrs_spec(st, cond, is, is.len() as int) == instrs_spec(st, cond, is, n),
    decreases is.len() - n,
{
    if n < is.len() {
        lemma_instrs_stuck(st, cond, is, n + 1);
    }
}

proof fn lemma_walk_stuck(st: LowerState, conds: Seq<BranchView>, blocks: Seq<IrBlock>, order: Seq<int>, n: int)
    requires
        0 < n <= order.len(),
        walk_spec(st, conds, blocks, order, n) is Err,
    ensures
        walk_spec(st, conds, blocks, order, order.len() as int) == walk_spec(st, conds, blocks, order, n),
    decreases order.len() - n,
{
    if n < order.len() {
        lemma_walk_stuck(st, conds, blocks, order, n + 1);
    }
}

/// Translates `function` into the template `name`: one circuit whose
/// constraints hold exactly along the function's execution paths.
pub fn ir_to_circom(name: String, function: &IrFunction) -> (r: Result<Template, TranslateError>)
    ensures
        match translate_spec(name@, *function) {
            Ok(t) => r matches Ok(x) && x@ == t,
            Err(e) => r matches Err(x) && x@ == e,
        },
        r matches Ok(t) ==> unique_targets(t@.instructions),
        crate::legality::plain_function(*function) ==> (r matches Ok(t) ==> crate::legality::template_names_legal(t@)),
{
    let signals = SignalDeclarations::new(&function.parameters);
    let cfg = compute_cfg(&function.basic_blocks)?;
    let ghost blocks = function.basic_blocks@;
    let ghost cs = children_prefix(blocks, blocks.len() as int)->Ok_0;
    let ghost order = usize_ints(cfg.sorted@);
    let ghost conds = conds_after(parent_table(cs), order, blocks.len() as int);
    let sorted = cfg.sorted;
    let mut structure = Structure::new(signals, cfg.branch_conditions);
    let mut consumer = InstructionConsumer::new();
    proof {
        assert(structure.state(&consumer) == (LowerState {
            decls: param_decls(function.parameters@.map_values(|p: String| p@)),
            cells: Map::empty(),
            cache: Seq::empty(),
            out: consumer@,
        }));
        assert(cache_view(structure.declared_conditions@) =~= Seq::<(BranchView, OperandView)>::empty());
        lemma_order_len(cs, order);
        crate::control_flow::lemma_children_len(blocks, blocks.len() as int);
        crate::control_flow::lemma_conds_len(parent_table(cs), order, blocks.len() as int);
        assert(structure.state(&consumer) == LowerState {
            decls: param_decls(function.parameters@.map_values(|p: String| p@)),
            cells: Map::empty(),
            cache: Seq::empty(),
            out: Seq::empty(),
        });
    }
    let ghost st0 = structure.state(&consumer);
    let ghost params = function.parameters@.map_values(|p: String| p@);
    proof {
        assert(children_prefix(blocks, blocks.len() as int) == Ok::<Seq<crate::control_flow::ChildrenView>, ErrorView>(cs));
        assert(is_acyclic(cs));
        assert(order == kahn_order(cs));
    }
    let out_cell = structure.signals.output_signal_name();
    match structure.handle_alloca(&mut consumer, out_cell) {
        Ok(()) => {},
        Err(e) => {
            proof {
                assert(lowering_spec(params, blocks, order, conds) == Err::<LowerState, ErrorView>(e@));
            }
            return Err(e);
        },
    }
    let ghost st1 = structure.state(&consumer);
    let mut k: usize = 0;
    while k < sorted.len()
        invariant
            children_prefix(blocks, blocks.len() as int) == Ok::<Seq<crate::control_flow::ChildrenView>, ErrorView>(cs),
            is_acyclic(cs),
            order == kahn_order(cs),
            conds == conds_after(parent_table(cs), order, blocks.len() as int),
            params == function.parameters@.map_values(|p: String| p@),
            st0 == (LowerState { decls: param_decls(params), cells: Map::empty(), cache: Seq::empty(), out: Seq::empty() }),
            alloca_spec(st0, output_name()) == Ok::<LowerState, ErrorView>(st1),
            structure.wf(),
            structure.conditions() == conds,
            conds.len() == blocks.len(),
            order == usize_ints(sorted@),
            is_topo_order(cs, order),
            cs.len() == blocks.len(),
            blocks == function.basic_blocks@,
            k <= sorted@.len(),
            walk_spec(st1, conds, blocks, order, k as int) == Ok::<LowerState, ErrorView>(structure.state(&consumer)),
        decreases sorted@.len() - k,
    {
        let v = sorted[k];
        assert(order[k as int] == v as int);
        assert(0 <= order[k as int] < cs.len());
        match structure.walk_block(&mut consumer, v, &function.basic_blocks[v]) {
            Err(e) => {
                proof {
                    lemma_walk_stuck(st1, conds, blocks, order, k as int + 1);
                    assert(lowering_spec(params, blocks, order, conds) == Err::<LowerState, ErrorView>(e@));
                }
                return Err(e);
            },
            Ok(()) => {},
        }
        k = k + 1;
    }
    let ghost st2 = structure.state(&consumer);
    proof {
        assert(order.len() == sorted@.len());
        assert(walk_spec(st1, conds, blocks, order, order.len() as int) == Ok::<LowerState, ErrorView>(st2));
        assert(lowering_spec(params, blocks, order, conds) == finish_spec(st2));
    }
    let left = structure.signals.output_signal_final_reference();
    let right = match structure.signals.read_output_signal() {
        Ok(x) => x,
        Err(e) => {
            return Err(e);
        },
    };
    let x = CircomInstr::ConstraintGenerationAssigment(ConstraintGenerationAssigment {
        left,
        right: Expression::Operand(right),
    });
    match consumer.push(x) {
        Ok(()) => {},
        Err(e) => {
            return Err(e);
        },
    }
    let ghost st3 = structure.state(&consumer);
    proof {
        assert(finish_spec(st2) == Ok::<LowerState, ErrorView>(st3));
    }
    let mut instructions = structure.signals.signals_instructions();
    let ghost decl_part = instructions@;
    let mut rest = consumer.instructions();
    let ghost rest_part = rest@;
    instructions.append(&mut rest);
    proof {
        assert(instructions@ == decl_part + rest_part);
        assert(crate::instructions::instrs_view(instructions@) =~= crate::instructions::instrs_view(decl_part)
            + crate::instructions::instrs_view(rest_part));
        assert(crate::instructions::instrs_view(decl_part) =~= st3.decls.map_values(|d: DeclView| InstrView::Decl(d)));
        crate::consumer::lemma_unique_after_prefix(crate::instructions::instrs_view(decl_part), crate::instructions::instrs_view(rest_part));
        assert(lowering_spec(params, blocks, order, conds) == Ok::<LowerState, ErrorView>(st3));
        if crate::legality::plain_function(*function) {
            crate::legality::lemma_translation_names_legal(name@, *function, order, st3);
        }
    }
    Ok(Template { name, instructions })
}


// ---------------------------------------------------------------- predicate laws

proof fn lemma_leaf_cache(st: LowerState, o: OperandView, side: bool)
    requires
        leaf_spec(st, o, side) is Ok,
    ensures
        leaf_spec(st, o, side)->Ok_0.0.cache == st.cache,
{
}

proof fn lemma_simple_cache(st: LowerState, s: Seq<NodeView>)
    requires
        simple_spec(st, s) is Ok,
    ensures
        simple_spec(st, s)->Ok_0.0.cache == st.cache,
{
    if s.len() > 0 {
        lemma_leaf_cache(st, s.last().0, s.last().1);
    }
}

proof fn lemma_fold_cache(st: LowerState, acc: OperandView, ops: Seq<OperandView>, k: int)
    requires
        fold_or_spec(st, acc, ops, k) is Ok,
    ensures
        fold_or_spec(st, acc, ops, k)->Ok_0.0.cache == st.cache,
    decreases k,
{
    if k > 0 {
        lemma_fold_cache(st, acc, ops, k - 1);
    }
}

proof fn lemma_cache_push_other(cv: Seq<(BranchView, OperandView)>, key: BranchView, o: OperandView, b: BranchView)
    requires
        key != b,
    ensures
        cache_get(cv.push((key, o)), b) == cache_get(cv, b),
{
    assert(cv.push((key, o)).drop_last() =~= cv);
}

proof fn lemma_paths_cache(st: LowerState, paths: Seq<Seq<NodeView>>, k: int, b: BranchView)
    requires
        paths_operands(st, paths, k) is Ok,
        b is Or,
    ensures
        cache_get(paths_operands(st, paths, k)->Ok_0.0.cache, b) == cache_get(st.cache, b),
    decreases k,
{
    if k > 0 {
        lemma_paths_cache(st, paths, k - 1, b);
        let st1 = paths_operands(st, paths, k - 1)->Ok_0.0;
        let s = paths[k - 1];
        if cache_get(st1.cache, BranchView::Simple(s)) is None {
            lemma_simple_cache(st1, s);
            let (st2, o) = simple_spec(st1, s)->Ok_0;
            if let Some(x) = o {
                lemma_cache_push_other(st2.cache, BranchView::Simple(s), x, b);
            }
        }
    }
}

/// A memoised predicate is answered from the cache: the same signal, and the
/// state unchanged.
pub proof fn lemma_cached_predicate_reused(st: LowerState, b: BranchView, p: OperandView)
    requires
        cache_get(st.cache, b) == Some(p),
    ensures
        branch_operand_spec(st, b) == Ok::<(LowerState, Option<OperandView>), ErrorView>((st, Some(p))),
{
    reveal(branch_operand_spec);
}

/// A predicate that got a signal is memoised with it.
pub proof fn lemma_predicate_memoised(st: LowerState, b: BranchView)
    requires
        branch_operand_spec(st, b) matches Ok((_, Some(_))),
    ensures
        cache_get(branch_operand_spec(st, b)->Ok_0.0.cache, b) == branch_operand_spec(st, b)->Ok_0.1,
{
    lemma_predicate_reused(st, b);
    reveal(branch_operand_spec);
}

/// A cache that extends another answers every predicate the other one knows
/// with the same signal.
pub proof fn lemma_cache_extension(c1: Seq<(BranchView, OperandView)>, c2: Seq<(BranchView, OperandView)>, b: BranchView)
    requires
        c1.len() <= c2.len(),
        c2.subrange(0, c1.len() as int) == c1,
        cache_get(c1, b) is Some,
    ensures
        cache_get(c2, b) == cache_get(c1, b),
    decreases c2.len() - c1.len(),
{
    if c2.len() > c1.len() {
        let p = c2.drop_last();
        assert(p.subrange(0, c1.len() as int) =~= c1);
        lemma_cache_extension(c1, p, b);
    } else {
        assert(c2 =~= c1);
    }
}

/// A predicate, once it has a signal, keeps it: asking for it again returns
/// the same signal and declares, emits and records nothing.
pub proof fn lemma_predicate_reused(st: LowerState, b: BranchView)
    requires
        branch_operand_spec(st, b) matches Ok((_, Some(_))),
    ensures
        branch_operand_spec(branch_operand_spec(st, b)->Ok_0.0, b) == branch_operand_spec(st, b),
{
    reveal(branch_operand_spec);
    let (st1, p) = branch_operand_spec(st, b)->Ok_0;
    match b {
        BranchView::Simple(s) => {
            if cache_get(st.cache, b) is None {
                lemma_simple_cache(st, s);
                let st2 = simple_spec(st, s)->Ok_0.0;
                assert(st2.cache.push((b, p->Some_0)).drop_last() =~= st2.cache);
            }
        },
        BranchView::Or(paths) => {
            if cache_get(st.cache, b) is None {
                lemma_paths_cache(st, paths, paths.len() as int, b);
                let (st2, ops) = paths_operands(st, paths, paths.len() as int)->Ok_0;
                lemma_fold_cache(st2, ops[0], ops.drop_first(), ops.len() - 1);
                let st3 = fold_or_spec(st2, ops[0], ops.drop_first(), ops.len() - 1)->Ok_0.0;
                assert(st3.cache.push((b, p->Some_0)).drop_last() =~= st3.cache);
            }
        },
    }
}

/// The predicate of a block reached only through the false side of a branch
/// on the signal `c`, from a block that always runs: a new signal `{c}F`
/// constrained to `1 - c`, and nothing else emitted.
pub proof fn lemma_false_side_predicate(st: LowerState, c: Seq<char>)
    requires
        cache_get(st.cache, BranchView::Simple(seq![(OperandView::Ref(RefView::Signal(c)), false)])) is None,
        cache_get(st.cache, BranchView::Simple(Seq::empty())) is None,
        crate::consumer::target_expr(st.out, RefView::Signal(negated_name(c))) is None,
    ensures
        ({
            let path = seq![(OperandView::Ref(RefView::Signal(c)), false)];
            let f = negated_name(c);
            let x = InstrView::Constraint(
                RefView::Signal(f),
                ExprView::Binary(OperandView::Const(1), BinaryOperationType::Sub, OperandView::Ref(RefView::Signal(c))),
            );
            branch_operand_spec(st, BranchView::Simple(path)) == Ok::<(LowerState, Option<OperandView>), ErrorView>((
                LowerState {
                    decls: with_private(st.decls, f),
                    cells: st.cells,
                    cache: st.cache.push((BranchView::Simple(path), OperandView::Ref(RefView::Signal(f)))),
                    out: st.out.push(x),
                },
                Some(OperandView::Ref(RefView::Signal(f))),
            ))
        }),
{
    reveal(branch_operand_spec);
    let path = seq![(OperandView::Ref(RefView::Signal(c)), false)];
    assert(path.drop_last() =~= Seq::<NodeView>::empty());
}

} // verus!

//! The deduplicating consumer of emitted instructions: at most one constraint
//! per target, exact repeats dropped, conflicting ones refused.
use vstd::prelude::*;
use crate::error::{ErrorView, TranslateError};
use crate::instructions::{instrs_view, ref_text, CircomCodeGenerator, CircomInstr, ExprView, InstrView, RefView};

verus! {

/// The expression of the first constraint on `l` in `s`, if there is one.
pub open spec fn target_expr(s: Seq<InstrView>, l: RefView) -> Option<ExprView>
    decreases s.len(),
{
    if s.len() == 0 {
        None
    } else {
        match target_expr(s.drop_last(), l) {
            Some(e) => Some(e),
            None => match s.last() {
                InstrView::Constraint(t, e) => if t == l {
                    Some(e)
                } else {
                    None
                },
                _ => None,
            },
        }
    }
}

/// The stream after one more instruction, or `None` on a conflicting constraint.
pub open spec fn push_step(s: Seq<InstrView>, x: InstrView) -> Option<Seq<InstrView>> {
    match x {
        InstrView::Constraint(l, e) => match target_expr(s, l) {
            None => Some(s.push(x)),
            Some(e0) => if e0 == e {
                Some(s)
            } else {
                None
            },
        },
        _ => Some(s.push(x)),
    }
}

/// The stream after the instructions `xs`, one by one, or `None` on a conflict.
pub open spec fn extend_steps(s: Seq<InstrView>, xs: Seq<InstrView>) -> Option<Seq<InstrView>>
    decreases xs.len(),
{
    if xs.len() == 0 {
        Some(s)
    } else {
        match extend_steps(s, xs.drop_last()) {
            None => None,
            Some(t) => push_step(t, xs.last()),
        }
    }
}

/// The target of the first constraint of `xs` that conflicts, pushed one by
/// one after `s`.
pub open spec fn first_conflict(s: Seq<InstrView>, xs: Seq<InstrView>) -> RefView
    decreases xs.len(),
{
    if xs.len() == 0 {
        RefView::Signal(Seq::empty())
    } else if extend_steps(s, xs.drop_last()) is None {
        first_conflict(s, xs.drop_last())
    } else {
        xs.last()->Constraint_0
    }
}

/// No two constraints share a target.
pub open spec fn unique_targets(s: Seq<InstrView>) -> bool {
    forall|i: int, j: int|
        0 <= i < j < s.len() && (#[trigger] s[i]) is Constraint && (#[trigger] s[j]) is Constraint
            ==> s[i]->Constraint_0 != s[j]->Constraint_0
}

/// Every instruction is a constraint.
pub open spec fn all_constraints(xs: Seq<InstrView>) -> bool {
    forall|k: int| 0 <= k < xs.len() ==> (#[trigger] xs[k]) is Constraint
}

proof fn lemma_target_expr_none(s: Seq<InstrView>, l: RefView)
    ensures
        target_expr(s, l) is None <==> forall|i: int|
            0 <= i < s.len() && (#[trigger] s[i]) is Constraint ==> s[i]->Constraint_0 != l,
    decreases s.len(),
{
    if s.len() > 0 {
        lemma_target_expr_none(s.drop_last(), l);
        assert forall|i: int| 0 <= i < s.len() - 1 implies s.drop_last()[i] == s[i] by {}
    }
}

proof fn lemma_target_expr_push(s: Seq<InstrView>, x: InstrView, l: RefView)
    requires
        target_expr(s, l) is Some,
    ensures
        target_expr(s.push(x), l) == target_expr(s, l),
{
    assert(s.push(x).drop_last() == s);
}

proof fn lemma_push_step_keeps(s: Seq<InstrView>, x: InstrView, l: RefView)
    requires
        push_step(s, x) is Some,
        target_expr(s, l) is Some,
    ensures
        target_expr(push_step(s, x)->0, l) == target_expr(s, l),
{
    if push_step(s, x)->0 != s {
        lemma_target_expr_push(s, x, l);
    }
}

proof fn lemma_push_step_records(s: Seq<InstrView>, l: RefView, e: ExprView)
    requires
        push_step(s, InstrView::Constraint(l, e)) is Some,
    ensures
        target_expr(push_step(s, InstrView::Constraint(l, e))->0, l) == Some(e),
{
    let x = InstrView::Constraint(l, e);
    if target_expr(s, l) is None {
        assert(s.push(x).drop_last() == s);
    }
}

proof fn lemma_extend_records(s: Seq<InstrView>, xs: Seq<InstrView>)
    requires
        all_constraints(xs),
        extend_steps(s, xs) is Some,
    ensures
        forall|k: int|
            0 <= k < xs.len() ==> target_expr(extend_steps(s, xs)->0, (#[trigger] xs[k])->Constraint_0)
                == Some(xs[k]->Constraint_1),
    decreases xs.len(),
{
    if xs.len() > 0 {
        let p = xs.drop_last();
        assert forall|k: int| 0 <= k < p.len() implies (#[trigger] p[k]) is Constraint by {
            assert(p[k] == xs[k]);
        }
        lemma_extend_records(s, p);
        let t = extend_steps(s, p)->0;
        let x = xs.last();
        assert(x is Constraint);
        lemma_push_step_records(t, x->Constraint_0, x->Constraint_1);
        assert forall|k: int|
            0 <= k < xs.len() implies target_expr(extend_steps(s, xs)->0, (#[trigger] xs[k])->Constraint_0)
                == Some(xs[k]->Constraint_1) by {
            if k < p.len() {
                assert(p[k] == xs[k]);
                lemma_push_step_keeps(t, x, xs[k]->Constraint_0);
            }
        }
    }
}

proof fn lemma_extend_recorded(s: Seq<InstrView>, xs: Seq<InstrView>)
    requires
        forall|k: int|
            0 <= k < xs.len() ==> (#[trigger] xs[k]) is Constraint && target_expr(s, xs[k]->Constraint_0)
                == Some(xs[k]->Constraint_1),
    ensures
        extend_steps(s, xs) == Some(s),
    decreases xs.len(),
{
    if xs.len() > 0 {
        let p = xs.drop_last();
        assert forall|k: int| 0 <= k < p.len() implies (#[trigger] p[k]) is Constraint
            && target_expr(s, p[k]->Constraint_0) == Some(p[k]->Constraint_1) by {
            assert(p[k] == xs[k]);
        }
        lemma_extend_recorded(s, p);
        assert(xs[xs.len() - 1] is Constraint);
    }
}

/// Handing the same stream of constraints to the consumer a second time, right
/// after the first, changes nothing and fails nowhere.
pub proof fn lemma_dedup_idempotent(s: Seq<InstrView>, xs: Seq<InstrView>)
    requires
        all_constraints(xs),
        extend_steps(s, xs) is Some,
    ensures
        extend_steps(extend_steps(s, xs)->0, xs) == extend_steps(s, xs),
{
    lemma_extend_records(s, xs);
    lemma_extend_recorded(extend_steps(s, xs)->0, xs);
}

/// Instructions without constraints in front of a stream keep its targets unique.
pub proof fn lemma_unique_after_prefix(a: Seq<InstrView>, b: Seq<InstrView>)
    requires
        forall|i: int| 0 <= i < a.len() ==> !((#[trigger] a[i]) is Constraint),
        unique_targets(b),
    ensures
        unique_targets(a + b),
{
    let s = a + b;
    assert forall|i: int, j: int|
        0 <= i < j < s.len() && (#[trigger] s[i]) is Constraint && (#[trigger] s[j]) is Constraint
            implies s[i]->Constraint_0 != s[j]->Constraint_0 by {
        if i < a.len() {
            assert(s[i] == a[i]);
        } else {
            assert(s[i] == b[i - a.len()]);
            assert(s[j] == b[j - a.len()]);
        }
    }
}

/// One step keeps the constraint targets unique.
pub proof fn lemma_push_step_unique(s: Seq<InstrView>, x: InstrView)
    requires
        unique_targets(s),
        push_step(s, x) is Some,
    ensures
        unique_targets(push_step(s, x)->0),
{
    let t = push_step(s, x)->0;
    if t != s {
        if x is Constraint {
            lemma_target_expr_none(s, x->Constraint_0);
        }
        assert forall|i: int, j: int|
            0 <= i < j < t.len() && (#[trigger] t[i]) is Constraint && (#[trigger] t[j]) is Constraint
                implies t[i]->Constraint_0 != t[j]->Constraint_0 by {
            assert(t[i] == s[i]);
            if j < s.len() {
                assert(t[j] == s[j]);
            }
        }
    }
}

/// The emitted instructions, at most one constraint per target.
pub struct InstructionConsumer {
    instrs: Vec<CircomInstr>,
}

impl View for InstructionConsumer {
    type V = Seq<InstrView>;

    closed spec fn view(&self) -> Seq<InstrView> {
        instrs_view(self.instrs@)
    }
}

impl InstructionConsumer {
    /// No two kept constraints share a target.
    #[verifier::type_invariant]
    closed spec fn single_assignment(self) -> bool {
        unique_targets(instrs_view(self.instrs@))
    }

    pub fn new() -> (r: Self)
        ensures
            r@ == Seq::<InstrView>::empty(),
    {
        let r = InstructionConsumer { instrs: Vec::new() };
        assert(r@ =~= Seq::<InstrView>::empty());
        r
    }

    /// Appends `instr`; a constraint on a target that already has one is dropped
    /// when its expression is the same and refused when it differs.
    pub fn push(&mut self, instr: CircomInstr) -> (r: Result<(), TranslateError>)
        ensures
            r is Ok <==> push_step(old(self)@, instr@) is Some,
            r is Ok ==> final(self)@ == push_step(old(self)@, instr@)->0,
            r matches Err(e) ==> e@ == ErrorView::ConflictingAssignment(ref_text(instr@->Constraint_0)),
    {
        proof {
            use_type_invariant(&*self);
        }
        if let CircomInstr::ConstraintGenerationAssigment(c) = &instr {
            let mut i: usize = 0;
            while i < self.instrs.len()
                invariant
                    i <= self.instrs.len(),
                    instr@ == InstrView::Constraint(c.left@, c.right@),
                    target_expr(self@.subrange(0, i as int), c.left@) is None,
                decreases self.instrs.len() - i,
            {
                proof {
                    let pre = self@.subrange(0, i + 1);
                    assert(pre.drop_last() == self@.subrange(0, i as int));
                    assert(pre.last() == self.instrs@[i as int]@);
                }
                if let CircomInstr::ConstraintGenerationAssigment(d) = &self.instrs[i] {
                    if d.left == c.left {
                        proof {
                            lemma_target_expr_push(self@.subrange(0, i + 1), self@[i + 1], c.left@);
                        }
                        if d.right == c.right {
                            proof {
                                lemma_target_prefix(self@, i + 1, c.left@);
                            }
                            return Ok(());
                        } else {
                            proof {
                                lemma_target_prefix(self@, i + 1, c.left@);
                            }
                            return Err(TranslateError::ConflictingAssignment(c.left.to_circom()));
                        }
                    }
                }
                i = i + 1;
            }
            assert(self@.subrange(0, self.instrs.len() as int) == self@);
        }
        proof {
            lemma_push_step_unique(self@, instr@);
        }
        let ghost x = instr@;
        let mut taken = InstructionConsumer { instrs: Vec::new() };
        proof {
            assert(instrs_view(taken.instrs@) =~= Seq::<InstrView>::empty());
        }
        core::mem::swap(self, &mut taken);
        let mut v = taken.instrs;
        v.push(instr);
        assert(instrs_view(v@) =~= old(self)@.push(x));
        *self = InstructionConsumer { instrs: v };
        Ok(())
    }

    /// Pushes each instruction in order; stops at the first conflict.
    pub fn extend(&mut self, instrs: Vec<CircomInstr>) -> (r: Result<(), TranslateError>)
        ensures
            r is Ok <==> extend_steps(old(self)@, instrs_view(instrs@)) is Some,
            r is Ok ==> final(self)@ == extend_steps(old(self)@, instrs_view(instrs@))->0,
            r matches Err(e) ==> e@ == ErrorView::ConflictingAssignment(
                ref_text(first_conflict(old(self)@, instrs_view(instrs@))),
            ),
    {
        let ghost start = self@;
        let ghost xs = instrs_view(instrs@);
        let mut i: usize = 0;
        assert(xs.subrange(0, 0) == Seq::<InstrView>::empty());
        while i < instrs.len()
            invariant
                i <= instrs.len(),
                xs == instrs_view(instrs@),
                start == old(self)@,
                extend_steps(start, xs.subrange(0, i as int)) == Some(self@),
            decreases instrs.len() - i,
        {
            let ghost pre = xs.subrange(0, i + 1);
            assert(pre.drop_last() == xs.subrange(0, i as int));
            assert(pre.last() == instrs@[i as int]@);
            let res = self.push(instrs[i].clone());
            if res.is_err() {
                proof {
                    lemma_extend_stuck(start, xs, i + 1);
                }
                return res;
            }
            i = i + 1;
        }
        assert(xs.subrange(0, instrs.len() as int) == xs);
        Ok(())
    }

    /// The instructions kept, in order.
    pub fn instructions(self) -> (r: Vec<CircomInstr>)
        ensures
            instrs_view(r@) == self@,
            unique_targets(self@),
    {
        proof {
            use_type_invariant(&self);
        }
        self.instrs
    }
}

proof fn lemma_target_prefix(s: Seq<InstrView>, n: int, l: RefView)
    requires
        0 <= n <= s.len(),
        target_expr(s.subrange(0, n), l) is Some,
    ensures
        target_expr(s, l) == target_expr(s.subrange(0, n), l),
    decreases s.len() - n,
{
    if n < s.len() {
        let p = s.subrange(0, n + 1);
        assert(p.drop_last() == s.subrange(0, n));
        lemma_target_prefix(s, n + 1, l);
    } else {
        assert(s.subrange(0, n) == s);
    }
}

proof fn lemma_extend_stuck(s: Seq<InstrView>, xs: Seq<InstrView>, n: int)
    requires
        0 <= n <= xs.len(),
        extend_steps(s, xs.subrange(0, n)) is None,
    ensures
        extend_steps(s, xs) is None,
        first_conflict(s, xs) == first_conflict(s, xs.subrange(0, n)),
    decreases xs.len() - n,
{
    if n < xs.len() {
        let p = xs.subrange(0, n + 1);
        assert(p.drop_last() == xs.subrange(0, n));
        lemma_extend_stuck(s, xs, n + 1);
    } else {
        assert(xs.subrange(0, n) == xs);
    }
}

} // verus!

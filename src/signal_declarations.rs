//! The signal table: declared signals and the versions of mutable cells.
use vstd::prelude::*;
use crate::error::{ErrorView, TranslateError};
use crate::instructions::{decl_name, CircomInstr, CircomOperand, DeclView, InstrView, OperandView, RefView, Reference, SignalDeclaration};
use crate::names::{normalize_name, normalized, version_name, version_string};

verus! {

/// The name of the reserved output cell and output signal.
pub open spec fn output_name() -> Seq<char> {
    seq!['O', 'U', 'T', 'P', 'U', 'T', '_']
}

/// `n` is the name of one of the declarations.
pub open spec fn has_decl(decls: Seq<DeclView>, n: Seq<char>) -> bool {
    exists|i: int| 0 <= i < decls.len() && decl_name(#[trigger] decls[i]) == n
}

/// The declarations after `d` is declared unless its name already is.
pub open spec fn with_decl(decls: Seq<DeclView>, d: DeclView) -> Seq<DeclView> {
    if has_decl(decls, decl_name(d)) {
        decls
    } else {
        decls.push(d)
    }
}

/// The declarations after a reference to the signal `n`: private when new.
pub open spec fn with_private(decls: Seq<DeclView>, n: Seq<char>) -> Seq<DeclView> {
    with_decl(decls, DeclView::Private(n))
}

/// No two declarations share a name.
pub open spec fn unique_decls(decls: Seq<DeclView>) -> bool {
    forall|i: int, j: int|
        0 <= i < j < decls.len() ==> decl_name(#[trigger] decls[i]) != decl_name(#[trigger] decls[j])
}

/// The input declarations of a parameter list: each name normalised, `self`
/// dropped, a repeated name declared once.
pub open spec fn param_decls(params: Seq<Seq<char>>) -> Seq<DeclView>
    decreases params.len(),
{
    if params.len() == 0 {
        Seq::empty()
    } else {
        let acc = param_decls(params.drop_last());
        let n = normalized(params.last());
        if n == seq!['s', 'e', 'l', 'f'] {
            acc
        } else {
            with_decl(acc, DeclView::Input(n))
        }
    }
}

pub struct SignalsView {
    pub decls: Seq<DeclView>,
    pub cells: Map<Seq<char>, nat>,
}

/// Declared signals, in order of declaration, and the current version of each
/// mutable cell.
pub struct SignalDeclarations {
    declared: Vec<SignalDeclaration>,
    mutable: Vec<(String, usize)>,
    versions: Ghost<Map<Seq<char>, nat>>,
}

impl View for SignalDeclarations {
    type V = SignalsView;

    closed spec fn view(&self) -> SignalsView {
        SignalsView { decls: self.declared@.map_values(|d: SignalDeclaration| d@), cells: self.versions@ }
    }
}

/// The reference to version `k` of the cell `n`.
pub open spec fn version_ref(n: Seq<char>, k: nat) -> RefView {
    RefView::Signal(version_name(n, k))
}

impl SignalDeclarations {
    pub closed spec fn wf(&self) -> bool {
        &&& unique_decls(self@.decls)
        &&& forall|i: int, j: int|
            0 <= i < j < self.mutable.len() ==> (#[trigger] self.mutable@[i]).0@ != (
            #[trigger] self.mutable@[j]).0@
        &&& forall|i: int|
            0 <= i < self.mutable.len() ==> self.versions@.contains_key(
                (#[trigger] self.mutable@[i]).0@,
            ) && self.versions@[self.mutable@[i].0@] == self.mutable@[i].1 as nat
        &&& forall|k: Seq<char>|
            #[trigger] self.versions@.contains_key(k) ==> exists|i: int|
                0 <= i < self.mutable.len() && (#[trigger] self.mutable@[i]).0@ == k
    }

    fn find_decl(&self, name: &String) -> (r: Option<usize>)
        requires
            self.wf(),
        ensures
            r is None <==> !has_decl(self@.decls, name@),
            r matches Some(i) ==> i < self@.decls.len() && decl_name(self@.decls[i as int]) == name@,
    {
        let mut i: usize = 0;
        while i < self.declared.len()
            invariant
                self.wf(),
                i <= self.declared.len(),
                forall|j: int| 0 <= j < i ==> decl_name(#[trigger] self@.decls[j]) != name@,
            decreases self.declared.len() - i,
        {
            let found = match &self.declared[i] {
                SignalDeclaration::Input(s) => *s == *name,
                SignalDeclaration::Private(s) => *s == *name,
                SignalDeclaration::Output(s) => *s == *name,
            };
            assert(self@.decls[i as int] == self.declared@[i as int]@);
            if found {
                return Some(i);
            }
            i = i + 1;
        }
        None
    }

    fn find_cell(&self, name: &String) -> (r: Option<usize>)
        requires
            self.wf(),
        ensures
            r is None <==> !self@.cells.contains_key(name@),
            r matches Some(i) ==> i < self.mutable.len() && self.mutable@[i as int].0@ == name@,
    {
        let mut i: usize = 0;
        while i < self.mutable.len()
            invariant
                self.wf(),
                i <= self.mutable.len(),
                forall|j: int| 0 <= j < i ==> (#[trigger] self.mutable@[j]).0@ != name@,
            decreases self.mutable.len() - i,
        {
            if self.mutable[i].0 == *name {
                assert(self.versions@.contains_key(self.mutable@[i as int].0@));
                return Some(i);
            }
            i = i + 1;
        }
        proof {
            if self.versions@.contains_key(name@) {
                let j = choose|j: int| 0 <= j < self.mutable.len() && (#[trigger] self.mutable@[j]).0@ == name@;
                assert(self.mutable@[j].0@ != name@);
            }
        }
        None
    }

    /// Declares `d` unless a signal of its name is declared already; returns a
    /// reference to the signal of that name.
    fn declare(&mut self, d: SignalDeclaration) -> (r: Reference)
        requires
            old(self).wf(),
        ensures
            final(self).wf(),
            final(self)@.decls == with_decl(old(self)@.decls, d@),
            final(self)@.cells == old(self)@.cells,
            r@ == RefView::Signal(decl_name(d@)),
    {
        let name = match &d {
            SignalDeclaration::Input(s) => s.clone(),
            SignalDeclaration::Private(s) => s.clone(),
            SignalDeclaration::Output(s) => s.clone(),
        };
        match self.find_decl(&name) {
            Some(i) => {
                proof {
                    assert(decl_name(self@.decls[i as int]) == decl_name(d@));
                    assert(has_decl(old(self)@.decls, decl_name(d@)));
                }
                self.declared[i].reference()
            },
            None => {
                let r = d.reference();
                let ghost before = self@.decls;
                self.declared.push(d);
                proof {
                    assert(self@.decls =~= before.push(d@));
                    assert forall|i: int, j: int|
                        0 <= i < j < self@.decls.len() implies decl_name(
                        #[trigger] self@.decls[i],
                    ) != decl_name(#[trigger] self@.decls[j]) by {
                        if j == before.len() {
                            assert(self@.decls[i] == before[i]);
                        }
                    }
                    assert(unique_decls(self@.decls));
                    assert(self.mutable@ == old(self).mutable@);
                    assert(self.versions@ == old(self).versions@);
                    assert(self.wf());
                }
                r
            },
        }
    }

    /// The table of a function with these parameters (IR names): each one an
    /// input under its normal form, except `self`.
    pub fn new(parameters: &Vec<String>) -> (r: Self)
        ensures
            r.wf(),
            r@.decls == param_decls(parameters@.map_values(|p: String| p@)),
            r@.cells == Map::<Seq<char>, nat>::empty(),
    {
        let mut r = SignalDeclarations {
            declared: Vec::new(),
            mutable: Vec::new(),
            versions: Ghost(Map::empty()),
        };
        let ghost ps = parameters@.map_values(|p: String| p@);
        let mut i: usize = 0;
        proof {
            reveal_strlit("self");
            assert(r@.decls == Seq::<DeclView>::empty());
            assert(ps.subrange(0, 0) == Seq::<Seq<char>>::empty());
        }
        while i < parameters.len()
            invariant
                i <= parameters.len(),
                ps == parameters@.map_values(|p: String| p@),
                r.wf(),
                r@.decls == param_decls(ps.subrange(0, i as int)),
                r@.cells == Map::<Seq<char>, nat>::empty(),
            decreases parameters.len() - i,
        {
            let n = normalize_name(parameters[i].as_str());
            proof {
                let pre = ps.subrange(0, i + 1);
                assert(pre.drop_last() == ps.subrange(0, i as int));
                assert(pre.last() == parameters@[i as int]@);
            }
            let self_name = String::from_str("self");
            let is_self = n.eq(&self_name);
            proof {
                reveal_strlit("self");
                assert(self_name@ == "self"@);
                assert("self"@ == seq!['s', 'e', 'l', 'f']);
                assert(is_self <==> n@ == seq!['s', 'e', 'l', 'f']);
            }
            if !is_self {
                r.declare(SignalDeclaration::Input(n));
            }
            i = i + 1;
        }
        assert(ps.subrange(0, parameters.len() as int) == ps);
        r
    }

    /// A reference to the signal `name`, declared private if it is new.
    pub fn get_reference(&mut self, name: String) -> (r: Reference)
        requires
            old(self).wf(),
        ensures
            final(self).wf(),
            final(self)@.decls == with_private(old(self)@.decls, name@),
            final(self)@.cells == old(self)@.cells,
            r@ == RefView::Signal(name@),
    {
        self.declare(SignalDeclaration::Private(name))
    }

    /// Starts the mutable cell `name` at version 0 and returns the reference to
    /// `{name}_m0`; fails if the cell exists.
    pub fn declare_mutable_reference(&mut self, name: String) -> (r: Result<Reference, TranslateError>)
        requires
            old(self).wf(),
        ensures
            final(self).wf(),
            old(self)@.cells.contains_key(name@) <==> r is Err,
            r matches Err(e) ==> e@ == ErrorView::CellRedeclared(name@) && final(self)@ == old(self)@,
            r matches Ok(x) ==> {
                &&& x@ == version_ref(name@, 0)
                &&& final(self)@.cells == old(self)@.cells.insert(name@, 0)
                &&& final(self)@.decls == with_private(old(self)@.decls, version_name(name@, 0))
            },
    {
        if self.find_cell(&name).is_some() {
            return Err(TranslateError::CellRedeclared(name));
        }
        let v = version_string(name.as_str(), 0);
        let ghost before = self.mutable@;
        self.versions = Ghost(self.versions@.insert(name@, 0));
        self.mutable.push((name, 0));
        proof {
            assert forall|i: int, j: int|
                0 <= i < j < self.mutable.len() implies (#[trigger] self.mutable@[i]).0@ != (
                #[trigger] self.mutable@[j]).0@ by {
                if j == before.len() {
                    assert(self.mutable@[i] == before[i]);
                }
            }
            assert forall|k: Seq<char>| #[trigger] self.versions@.contains_key(k) implies exists|i: int|
                0 <= i < self.mutable.len() && (#[trigger] self.mutable@[i]).0@ == k by {
                if k != self.mutable@[before.len() as int].0@ {
                    let i = choose|i: int| 0 <= i < before.len() && (#[trigger] before[i]).0@ == k;
                    assert(self.mutable@[i] == before[i]);
                }
            }
        }
        Ok(self.get_reference(v))
    }

    /// Advances the cell `name` to its next version `k + 1` and returns the
    /// reference to `{name}_m{k+1}`; fails if the cell was never declared.
    pub fn increment_mutable_reference(&mut self, name: String) -> (r: Result<Reference, TranslateError>)
        requires
            old(self).wf(),
        ensures
            final(self).wf(),
            !old(self)@.cells.contains_key(name@) ==> (r matches Err(e) && e@ == ErrorView::UnknownCell(name@)),
            old(self)@.cells.contains_key(name@) && old(self)@.cells[name@] >= usize::MAX ==> (r matches Err(e) && e@ == ErrorView::VersionLimit(name@)),
            old(self)@.cells.contains_key(name@) && old(self)@.cells[name@] < usize::MAX <==> r is Ok,
            r is Err ==> final(self)@ == old(self)@,
            r matches Ok(x) ==> {
                let k = old(self)@.cells[name@] + 1;
                &&& x@ == version_ref(name@, k)
                &&& final(self)@.cells == old(self)@.cells.insert(name@, k)
                &&& final(self)@.decls == with_private(old(self)@.decls, version_name(name@, k))
            },
    {
        let i = match self.find_cell(&name) {
            None => {
                return Err(TranslateError::UnknownCell(name));
            },
            Some(i) => i,
        };
        if self.mutable[i].1 == usize::MAX {
            return Err(TranslateError::VersionLimit(name));
        }
        let count = self.mutable[i].1 + 1;
        let ghost before = self.mutable@;
        let ghost k = name@;
        self.mutable.set(i, (name, count));
        self.versions = Ghost(self.versions@.insert(k, count as nat));
        proof {
            assert forall|a: int, b: int|
                0 <= a < b < self.mutable.len() implies (#[trigger] self.mutable@[a]).0@ != (
                #[trigger] self.mutable@[b]).0@ by {
                assert(before[a].0@ != before[b].0@);
            }
            assert forall|j: int| 0 <= j < self.mutable.len() implies self.versions@.contains_key(
                (#[trigger] self.mutable@[j]).0@,
            ) && self.versions@[self.mutable@[j].0@] == self.mutable@[j].1 as nat by {
                if j != i {
                    assert(before[j].0@ != before[i as int].0@);
                }
            }
            assert forall|q: Seq<char>| #[trigger] self.versions@.contains_key(q) implies exists|j: int|
                0 <= j < self.mutable.len() && (#[trigger] self.mutable@[j]).0@ == q by {
                let j = choose|j: int| 0 <= j < before.len() && (#[trigger] before[j]).0@ == q;
                if j == i {
                    assert(self.mutable@[i as int].0@ == q);
                } else {
                    assert(self.mutable@[j] == before[j]);
                }
            }
        }
        let v = version_string(self.mutable[i].0.as_str(), count);
        Ok(self.get_reference(v))
    }

    /// An operand for the current version of the cell `name`; fails if the cell
    /// was never declared.
    pub fn read_mutable_reference(&mut self, name: String) -> (r: Result<CircomOperand, TranslateError>)
        requires
            old(self).wf(),
        ensures
            final(self).wf(),
            !old(self)@.cells.contains_key(name@) <==> r is Err,
            r matches Err(e) ==> e@ == ErrorView::UnknownCell(name@) && final(self)@ == old(self)@,
            r matches Ok(x) ==> {
                let k = old(self)@.cells[name@];
                &&& x@ == OperandView::Ref(version_ref(name@, k))
                &&& final(self)@.cells == old(self)@.cells
                &&& final(self)@.decls == with_private(old(self)@.decls, version_name(name@, k))
            },
    {
        let i = match self.find_cell(&name) {
            None => {
                return Err(TranslateError::UnknownCell(name));
            },
            Some(i) => i,
        };
        let count = self.mutable[i].1;
        let v = version_string(name.as_str(), count);
        Ok(CircomOperand::Reference(self.get_reference(v)))
    }

    /// The reserved name of the output cell and output signal.
    pub fn output_signal_name(&self) -> (r: String)
        ensures
            r@ == output_name(),
    {
        proof {
            reveal_strlit("OUTPUT_");
        }
        String::from_str("OUTPUT_")
    }

    /// The reference to the output signal, declared as output if it is new.
    pub fn output_signal_final_reference(&mut self) -> (r: Reference)
        requires
            old(self).wf(),
        ensures
            final(self).wf(),
            final(self)@.decls == with_decl(old(self)@.decls, DeclView::Output(output_name())),
            final(self)@.cells == old(self)@.cells,
            r@ == RefView::Signal(output_name()),
    {
        let name = self.output_signal_name();
        self.declare(SignalDeclaration::Output(name))
    }

    /// An operand for the current version of the output cell.
    pub fn read_output_signal(&mut self) -> (r: Result<CircomOperand, TranslateError>)
        requires
            old(self).wf(),
        ensures
            final(self).wf(),
            !old(self)@.cells.contains_key(output_name()) <==> r is Err,
            r matches Err(e) ==> e@ == ErrorView::UnknownCell(output_name()),
            r matches Ok(x) ==> {
                let k = old(self)@.cells[output_name()];
                &&& x@ == OperandView::Ref(version_ref(output_name(), k))
                &&& final(self)@.cells == old(self)@.cells
                &&& final(self)@.decls == with_private(old(self)@.decls, version_name(output_name(), k))
            },
    {
        let name = self.output_signal_name();
        self.read_mutable_reference(name)
    }

    /// One declaration instruction per declared signal, in order of declaration.
    pub fn signals_instructions(&self) -> (r: Vec<CircomInstr>)
        ensures
            r@.map_values(|i: CircomInstr| i@) == self@.decls.map_values(|d: DeclView| InstrView::Decl(d)),
    {
        let mut r: Vec<CircomInstr> = Vec::new();
        let mut i: usize = 0;
        while i < self.declared.len()
            invariant
                i <= self.declared.len(),
                r@.len() == i,
                forall|j: int| 0 <= j < i ==> (#[trigger] r@[j])@ == InstrView::Decl(self@.decls[j]),
            decreases self.declared.len() - i,
        {
            r.push(CircomInstr::SignalDeclaration(self.declared[i].clone()));
            i = i + 1;
        }
        assert(r@.map_values(|x: CircomInstr| x@) =~= self@.decls.map_values(|d: DeclView| InstrView::Decl(d)));
        r
    }
}

} // verus!

//! Failures of a translation. Every one of them ends the translation.
use vstd::prelude::*;

verus! {

#[derive(Debug, Clone, PartialEq, Eq)]
pub enum TranslateError {
    /// An instruction, terminator or operand outside the supported subset; carries
    /// its printable form.
    Unsupported(String),
    /// Two different expressions for one target; carries the target's text.
    ConflictingAssignment(String),
    /// The control-flow graph has a cycle.
    Cycle,
    /// A branch names a block that the function does not have.
    UnknownBlock(String),
    /// A mutable cell declared twice.
    CellRedeclared(String),
    /// A read or write of a mutable cell that was never declared.
    UnknownCell(String),
    /// A cell written more times than a version number can count.
    VersionLimit(String),
}

pub enum ErrorView {
    Unsupported(Seq<char>),
    ConflictingAssignment(Seq<char>),
    Cycle,
    UnknownBlock(Seq<char>),
    CellRedeclared(Seq<char>),
    UnknownCell(Seq<char>),
    VersionLimit(Seq<char>),
}

impl View for TranslateError {
    type V = ErrorView;

    open spec fn view(&self) -> ErrorView {
        match self {
            TranslateError::Unsupported(s) => ErrorView::Unsupported(s@),
            TranslateError::ConflictingAssignment(s) => ErrorView::ConflictingAssignment(s@),
            TranslateError::Cycle => ErrorView::Cycle,
            TranslateError::UnknownBlock(s) => ErrorView::UnknownBlock(s@),
            TranslateError::CellRedeclared(s) => ErrorView::CellRedeclared(s@),
            TranslateError::UnknownCell(s) => ErrorView::UnknownCell(s@),
            TranslateError::VersionLimit(s) => ErrorView::VersionLimit(s@),
        }
    }
}

} // verus!

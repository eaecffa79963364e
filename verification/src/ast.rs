//! The data model: identifiers, resolved type terms, nonterminal references,
//! template chunks, productions, and the two failure tiers.

use vstd::prelude::*;

verus! {

/// Identifier of an interned text in a `GrammarBuilder`'s text table.
#[derive(Clone, Copy, PartialEq, Eq, Structural, Debug)]
pub struct TextId(pub usize);

/// Identifier of a nonterminal name in a `GrammarBuilder`'s name table.
#[derive(Clone, Copy, PartialEq, Eq, Structural, Debug)]
pub struct NtId(pub usize);

/// A binder variable, identified by its position in the production's
/// binder list.
#[derive(Clone, Copy, PartialEq, Eq, Structural, Debug)]
pub struct VarId(pub usize);

/// Evaluation-order class of a nonterminal reference.
#[derive(Clone, Copy, PartialEq, Eq, Structural, Debug)]
pub enum Order {
    Default,
    Early,
    Late,
}

/// A resolved type term: a binder variable or a constructor application.
#[derive(Debug)]
pub enum Ty {
    Var(VarId),
    Ctor(CtorTy),
}

/// A constructor term: an interned constructor name and its arguments.
#[derive(Debug)]
pub struct CtorTy {
    pub ctor: TextId,
    pub args: Vec<Ty>,
}

/// A fully resolved nonterminal invocation.
#[derive(Debug)]
pub struct NonterminalRef {
    pub id: NtId,
    pub args: Vec<Ty>,
}

/// One piece of a production's template. `Nt(i)` points into the
/// production's nonterminal list; before `finish` the index is in insertion
/// (textual) order, after `finish` it is in evaluation order.
#[derive(Clone, Copy, PartialEq, Eq, Structural, Debug)]
pub enum Chunk {
    Text(TextId, bool),
    Nt(usize),
    Indent(isize),
    MagicNewline,
}

/// A production's left-hand side: binder names and the head nonterminal.
#[derive(Debug)]
pub struct ProductionLhs {
    pub vars: Vec<TextId>,
    pub nt: NonterminalRef,
}

/// A finished right-hand side: chunks whose `Nt` indices point into `nts`,
/// which is in final evaluation order.
#[derive(Debug)]
pub struct ProductionRhs {
    pub chunks: Vec<Chunk>,
    pub nts: Vec<(NonterminalRef, Order)>,
}

/// An in-progress right-hand side; `nts` is in insertion (textual) order
/// and `finish` reorders it.
#[derive(Debug)]
pub struct PartialProductionRhs {
    pub chunks: Vec<Chunk>,
    pub nts: Vec<(NonterminalRef, Order)>,
}

impl PartialProductionRhs {
    /// Every `Nt` chunk points into the current (insertion-order) `nts`.
    pub open spec fn wf(&self) -> bool {
        forall|j: int|
            0 <= j < self.chunks@.len() && self.chunks@[j] is Nt ==> (self.chunks@[j]->Nt_0 as int)
                < self.nts@.len()
    }

    pub fn new() -> (r: PartialProductionRhs)
        ensures
            r.chunks@.len() == 0,
            r.nts@.len() == 0,
            r.wf(),
    {
        PartialProductionRhs { chunks: Vec::new(), nts: Vec::new() }
    }
}

/// A registered production.
#[derive(Debug)]
pub struct Production {
    pub lhs: ProductionLhs,
    pub rhs: ProductionRhs,
}

/// A fatal failure: it aborts the whole grammar load.
#[derive(Clone, Copy, PartialEq, Eq, Structural, Debug)]
pub enum Fatal {
    /// The lexer met a character outside the token alphabet.
    UnexpectedChar,
    /// A left-hand side did not parse.
    MalformedLhs,
    /// A reference payload did not parse, or carried both order markers.
    MalformedRef,
    /// A binder variable reference carried type arguments.
    VarWithArgs,
}

/// A per-line diagnostic: the offending line is skipped, parsing goes on.
#[derive(Clone, Copy, PartialEq, Eq, Structural, Debug)]
pub enum DiagKind {
    IndentedOutsideBlock,
    ExpectedDelimiter,
}

/// A diagnostic with its 1-based line number.
#[derive(Clone, Copy, PartialEq, Eq, Structural, Debug)]
pub struct Diag {
    pub line: usize,
    pub kind: DiagKind,
}

} // verus!

//! The grammar builder: the text interning table, the nonterminal-name
//! registry, and the list of registered productions.

use vstd::prelude::*;

use crate::ast::{NtId, Production, ProductionLhs, ProductionRhs, TextId};
use crate::chars::{chars_eq, clone_chars};

verus! {

/// The views of the entries of an interning table.
pub open spec fn table_view(t: Seq<Vec<char>>) -> Seq<Seq<char>> {
    t.map_values(|v: Vec<char>| v@)
}

/// No two entries of the table hold the same text.
pub open spec fn table_wf(t: Seq<Seq<char>>) -> bool {
    forall|i: int, j: int| 0 <= i < t.len() && 0 <= j < t.len() && i != j ==> t[i] != t[j]
}

/// Builds a grammar: interns texts, registers nonterminal names, and
/// collects finished productions.
pub struct GrammarBuilder {
    pub texts: Vec<Vec<char>>,
    pub nt_names: Vec<Vec<char>>,
    pub prods: Vec<Production>,
}

impl GrammarBuilder {
    /// The interned texts, by id.
    pub open spec fn texts_view(&self) -> Seq<Seq<char>> {
        table_view(self.texts@)
    }

    /// The registered nonterminal names, by id.
    pub open spec fn names_view(&self) -> Seq<Seq<char>> {
        table_view(self.nt_names@)
    }

    /// Both tables hold pairwise distinct texts, so equal texts always
    /// receive equal identifiers.
    pub open spec fn wf(&self) -> bool {
        table_wf(self.texts_view()) && table_wf(self.names_view())
    }

    /// The tables of `self` extend those of `old`: identifiers stay valid
    /// and keep their meaning.
    pub open spec fn extends(&self, old: Self) -> bool {
        old.texts_view().is_prefix_of(self.texts_view()) && old.names_view().is_prefix_of(
            self.names_view(),
        )
    }

    pub fn new() -> (r: GrammarBuilder)
        ensures
            r.wf(),
            r.texts_view().len() == 0,
            r.names_view().len() == 0,
            r.prods@.len() == 0,
    {
        GrammarBuilder { texts: Vec::new(), nt_names: Vec::new(), prods: Vec::new() }
    }

    /// Canonicalizes a text: equal texts yield equal identifiers.
    pub fn intern_text(&mut self, s: &Vec<char>) -> (r: TextId)
        requires
            old(self).wf(),
        ensures
            final(self).wf(),
            final(self).extends(*old(self)),
            final(self).names_view() == old(self).names_view(),
            final(self).prods@ == old(self).prods@,
            final(self).texts_view().len() <= old(self).texts_view().len() + 1,
            r.0 < final(self).texts_view().len(),
            final(self).texts_view()[r.0 as int] == s@,
    {
        let n = self.texts.len();
        let mut i: usize = 0;
        while i < n
            invariant
                i <= n,
                n == self.texts@.len(),
                *self == *old(self),
                old(self).wf(),
                forall|j: int| 0 <= j < i ==> self.texts_view()[j] != s@,
            decreases n - i,
        {
            if chars_eq(&self.texts[i], s) {
                return TextId(i);
            }
            i += 1;
        }
        self.texts.push(clone_chars(s));
        proof {
            assert(self.texts_view() =~= old(self).texts_view().push(s@));
            assert(old(self).texts_view().is_prefix_of(self.texts_view()));
        }
        TextId(n)
    }

    /// Resolves or creates a nonterminal identifier by name: equal names
    /// yield equal identifiers.
    pub fn nt_id(&mut self, name: &Vec<char>) -> (r: NtId)
        requires
            old(self).wf(),
        ensures
            final(self).wf(),
            final(self).extends(*old(self)),
            final(self).texts_view() == old(self).texts_view(),
            final(self).prods@ == old(self).prods@,
            final(self).names_view().len() <= old(self).names_view().len() + 1,
            r.0 < final(self).names_view().len(),
            final(self).names_view()[r.0 as int] == name@,
    {
        let n = self.nt_names.len();
        let mut i: usize = 0;
        while i < n
            invariant
                i <= n,
                n == self.nt_names@.len(),
                *self == *old(self),
                old(self).wf(),
                forall|j: int| 0 <= j < i ==> self.names_view()[j] != name@,
            decreases n - i,
        {
            if chars_eq(&self.nt_names[i], name) {
                return NtId(i);
            }
            i += 1;
        }
        self.nt_names.push(clone_chars(name));
        proof {
            assert(self.names_view() =~= old(self).names_view().push(name@));
            assert(old(self).names_view().is_prefix_of(self.names_view()));
        }
        NtId(n)
    }

    /// Registers one finished production.
    pub fn add_prod(&mut self, lhs: ProductionLhs, rhs: ProductionRhs)
        ensures
            final(self).prods@ == old(self).prods@.push(Production { lhs, rhs }),
            final(self).texts_view() == old(self).texts_view(),
            final(self).names_view() == old(self).names_view(),
            final(self).wf() == old(self).wf(),
    {
        self.prods.push(Production { lhs, rhs });
    }
}

/// In a well-formed table, an interned text determines its identifier.
pub proof fn lemma_table_ids_unique(t: Seq<Seq<char>>, i: int, j: int)
    requires
        table_wf(t),
        0 <= i < t.len(),
        0 <= j < t.len(),
        t[i] == t[j],
    ensures
        i == j,
{
}

} // verus!

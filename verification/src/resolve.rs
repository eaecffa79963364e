//! Resolution of parsed terms: binder-variable lookup, type building
//! against the interning table, and the two string-to-structure entry
//! points for left-hand sides and reference payloads.

use vstd::prelude::*;

use crate::ast::{CtorTy, Fatal, NonterminalRef, Order, ProductionLhs, TextId, Ty, VarId};
use crate::builder::GrammarBuilder;
use crate::chars::{chars_eq, clone_chars};
use crate::parser::{
    char_views, spec_parse_lhs_exact, spec_parse_nt_exact, ty_views, ParsedLhsV, ParsedNtV,
    ParsedTy, ParsedTyV, Parser,
};
use crate::token::spec_tokenize;

verus! {

broadcast use vstd::std_specs::vec::axiom_vec_decreases_to_view, vstd::seq::axiom_seq_index_decreases;

/// The binder variable a name resolves to: the *last* binder of that name,
/// by its position in the binder list.
pub open spec fn vars_lookup(vars: Seq<Seq<char>>, name: Seq<char>) -> Option<VarId>
    decreases vars.len(),
{
    if vars.len() == 0 {
        None
    } else if vars.last() == name {
        Some(VarId((vars.len() - 1) as usize))
    } else {
        vars_lookup(vars.drop_last(), name)
    }
}

/// The binder names of one production, in binder-list order; a name's
/// variable identifier is its position.
pub struct VarsTable {
    pub list: Vec<Vec<char>>,
}

impl VarsTable {
    /// The binder names in order.
    pub open spec fn names(&self) -> Seq<Seq<char>> {
        char_views(self.list@)
    }

    /// Looks a name up; the last binder of that name wins.
    pub fn lookup(&self, name: &Vec<char>) -> (r: Option<VarId>)
        ensures
            r == vars_lookup(self.names(), name@),
    {
        let mut i: usize = self.list.len();
        proof {
            assert(self.names().subrange(0, i as int) =~= self.names());
        }
        while i > 0
            invariant
                i <= self.list@.len(),
                vars_lookup(self.names(), name@) == vars_lookup(
                    self.names().subrange(0, i as int),
                    name@,
                ),
            decreases i,
        {
            proof {
                assert(self.names().subrange(0, i as int).drop_last() =~= self.names().subrange(
                    0,
                    i as int - 1,
                ));
            }
            if chars_eq(&self.list[i - 1], name) {
                return Some(VarId(i - 1));
            }
            i -= 1;
        }
        None
    }
}

/// The binder table of a binder-name list: each name mapped to its
/// position.
pub fn make_vars_table(vars: &Vec<Vec<char>>) -> (r: VarsTable)
    ensures
        r.names() == char_views(vars@),
{
    let mut list: Vec<Vec<char>> = Vec::new();
    let mut i: usize = 0;
    while i < vars.len()
        invariant
            i <= vars@.len(),
            list@.len() == i,
            forall|k: int| 0 <= k < i ==> list@[k]@ == vars@[k]@,
        decreases vars@.len() - i,
    {
        list.push(clone_chars(&vars[i]));
        i += 1;
    }
    let r = VarsTable { list };
    proof {
        assert(r.names() =~= char_views(vars@));
    }
    r
}

/// A built type mirrors its parsed term: a name in the binder table becomes
/// that variable (and must carry no arguments); any other name is interned
/// as a constructor whose arguments are built recursively.
pub open spec fn ty_matches(t: Ty, p: ParsedTyV, vars: Seq<Seq<char>>, texts: Seq<Seq<char>>) -> bool
    decreases p,
{
    match t {
        Ty::Var(v) => vars_lookup(vars, p.ctor) == Some(v) && p.args.len() == 0,
        Ty::Ctor(c) => vars_lookup(vars, p.ctor) is None && (c.ctor.0 as int) < texts.len()
            && texts[c.ctor.0 as int] == p.ctor && c.args@.len() == p.args.len() && (forall|i: int|
            0 <= i < p.args.len() ==> ty_matches(c.args@[i], #[trigger] p.args[i], vars, texts)),
    }
}

/// Whether building can succeed: no binder-variable reference carries
/// arguments anywhere in the term.
pub open spec fn ty_buildable(p: ParsedTyV, vars: Seq<Seq<char>>) -> bool
    decreases p,
{
    if vars_lookup(vars, p.ctor) is Some {
        p.args.len() == 0
    } else {
        forall|i: int| 0 <= i < p.args.len() ==> ty_buildable(#[trigger] p.args[i], vars)
    }
}

/// All arguments of a reference match pointwise.
pub open spec fn args_match(
    ts: Seq<Ty>,
    ps: Seq<ParsedTyV>,
    vars: Seq<Seq<char>>,
    texts: Seq<Seq<char>>,
) -> bool {
    ts.len() == ps.len() && forall|i: int|
        0 <= i < ps.len() ==> ty_matches(ts[i], #[trigger] ps[i], vars, texts)
}

/// All arguments of a reference can be built.
pub open spec fn args_buildable(ps: Seq<ParsedTyV>, vars: Seq<Seq<char>>) -> bool {
    forall|i: int| 0 <= i < ps.len() ==> ty_buildable(#[trigger] ps[i], vars)
}

/// A resolved reference mirrors its parsed form: the name registered, the
/// arguments built.
pub open spec fn nt_ref_matches(
    nt: NonterminalRef,
    p: ParsedNtV,
    vars: Seq<Seq<char>>,
    texts: Seq<Seq<char>>,
    names: Seq<Seq<char>>,
) -> bool {
    (nt.id.0 as int) < names.len() && names[nt.id.0 as int] == p.name && args_match(
        nt.args@,
        p.args,
        vars,
        texts,
    )
}

/// Matching survives extension of the interning table.
pub proof fn lemma_ty_matches_extend(
    t: Ty,
    p: ParsedTyV,
    vars: Seq<Seq<char>>,
    texts1: Seq<Seq<char>>,
    texts2: Seq<Seq<char>>,
)
    requires
        ty_matches(t, p, vars, texts1),
        texts1.is_prefix_of(texts2),
    ensures
        ty_matches(t, p, vars, texts2),
    decreases p,
{
    match t {
        Ty::Var(_) => {},
        Ty::Ctor(c) => {
            assert(texts2.subrange(0, texts1.len() as int) == texts1);
            assert(texts2[c.ctor.0 as int] == texts2.subrange(0, texts1.len() as int)[c.ctor.0 as int]);
            assert forall|i: int| 0 <= i < p.args.len() implies ty_matches(
                c.args@[i],
                #[trigger] p.args[i],
                vars,
                texts2,
            ) by {
                lemma_ty_matches_extend(c.args@[i], p.args[i], vars, texts1, texts2);
            }
        },
    }
}

/// The parsed form of a reference payload: tokenized, then read as one
/// reference (order markers accepted) that must span all of it.
pub open spec fn spec_ref_parse(s: Seq<char>) -> Option<ParsedNtV> {
    match spec_tokenize(s, 0) {
        None => None,
        Some(ts) => spec_parse_nt_exact(ts, 0, true),
    }
}

/// The parsed form of a left-hand side: tokenized, then read as one binder
/// list and head reference that must span all of it.
pub open spec fn spec_lhs_parse(s: Seq<char>) -> Option<ParsedLhsV> {
    match spec_tokenize(s, 0) {
        None => None,
        Some(ts) => spec_parse_lhs_exact(ts, 0),
    }
}

impl GrammarBuilder {
    /// Resolves a parsed type term: a binder name becomes its variable, any
    /// other name an interned constructor with its arguments built in turn.
    /// Fails exactly when a binder-variable reference carries arguments;
    /// that failure is fatal.
    pub fn build_ty(&mut self, p: &ParsedTy, vars: &VarsTable) -> (r: Result<Ty, Fatal>)
        requires
            old(self).wf(),
        ensures
            final(self).wf(),
            final(self).extends(*old(self)),
            final(self).names_view() == old(self).names_view(),
            final(self).prods@ == old(self).prods@,
            r is Ok <==> ty_buildable(p@, vars.names()),
            r matches Ok(t) ==> ty_matches(t, p@, vars.names(), final(self).texts_view()),
            r matches Err(e) ==> e == Fatal::VarWithArgs,
        decreases *p,
    {
        let ghost pv = p@;
        match vars.lookup(&p.ctor) {
            Some(v) => {
                if p.args.len() == 0 {
                    Ok(Ty::Var(v))
                } else {
                    Err(Fatal::VarWithArgs)
                }
            },
            None => {
                let ctor = self.intern_text(&p.ctor);
                let mut args: Vec<Ty> = Vec::new();
                let mut i: usize = 0;
                while i < p.args.len()
                    invariant
                        i <= p.args@.len(),
                        args@.len() == i,
                        pv == p@,
                        vars_lookup(vars.names(), pv.ctor) is None,
                        old(self).wf(),
                        self.wf(),
                        self.extends(*old(self)),
                        self.names_view() == old(self).names_view(),
                        self.prods@ == old(self).prods@,
                        (ctor.0 as int) < self.texts_view().len(),
                        self.texts_view()[ctor.0 as int] == pv.ctor,
                        forall|k: int|
                            0 <= k < i ==> ty_buildable(#[trigger] pv.args[k], vars.names())
                                && ty_matches(args@[k], pv.args[k], vars.names(), self.texts_view()),
                    decreases p.args@.len() - i,
                {
                    let ghost texts_pre = self.texts_view();
                    match self.build_ty(&p.args[i], vars) {
                        Ok(t) => {
                            proof {
                                assert(texts_pre.is_prefix_of(self.texts_view()));
                                assert(self.texts_view()[ctor.0 as int] == self.texts_view()
                                    .subrange(0, texts_pre.len() as int)[ctor.0 as int]);
                                assert forall|k: int|
                                    0 <= k < i implies ty_matches(
                                    args@[k],
                                    #[trigger] pv.args[k],
                                    vars.names(),
                                    self.texts_view(),
                                ) by {
                                    lemma_ty_matches_extend(
                                        args@[k],
                                        pv.args[k],
                                        vars.names(),
                                        texts_pre,
                                        self.texts_view(),
                                    );
                                }
                                assert(pv.args[i as int] == p.args@[i as int]@);
                            }
                            args.push(t);
                            i += 1;
                        },
                        Err(e) => {
                            proof {
                                assert(pv.args[i as int] == p.args@[i as int]@);
                                assert(!ty_buildable(pv, vars.names()));
                            }
                            return Err(e);
                        },
                    }
                }
                let t = Ty::Ctor(CtorTy { ctor, args });
                proof {
                    assert(pv.args.len() == p.args@.len());
                    assert(ty_matches(t, pv, vars.names(), self.texts_view()));
                    assert(ty_buildable(pv, vars.names()));
                }
                Ok(t)
            },
        }
    }

    /// Resolves a parsed reference: registers the name, builds each
    /// argument. Fails exactly when an argument cannot be built.
    fn build_nt_ref(&mut self, nt: &crate::parser::ParsedNt, vars: &VarsTable) -> (r: Result<
        NonterminalRef,
        Fatal,
    >)
        requires
            old(self).wf(),
        ensures
            final(self).wf(),
            final(self).extends(*old(self)),
            final(self).prods@ == old(self).prods@,
            r is Ok <==> args_buildable(nt@.args, vars.names()),
            r matches Ok(x) ==> nt_ref_matches(
                x,
                nt@,
                vars.names(),
                final(self).texts_view(),
                final(self).names_view(),
            ),
            r matches Err(e) ==> e == Fatal::VarWithArgs,
    {
        let ghost pv = nt@;
        let id = self.nt_id(&nt.name);
        let mut args: Vec<Ty> = Vec::new();
        let mut i: usize = 0;
        while i < nt.args.len()
            invariant
                i <= nt.args@.len(),
                args@.len() == i,
                pv == nt@,
                old(self).wf(),
                self.wf(),
                self.extends(*old(self)),
                self.prods@ == old(self).prods@,
                (id.0 as int) < self.names_view().len(),
                self.names_view()[id.0 as int] == pv.name,
                forall|k: int|
                    0 <= k < i ==> ty_buildable(#[trigger] pv.args[k], vars.names()) && ty_matches(
                        args@[k],
                        pv.args[k],
                        vars.names(),
                        self.texts_view(),
                    ),
            decreases nt.args@.len() - i,
        {
            let ghost texts_pre = self.texts_view();
            match self.build_ty(&nt.args[i], vars) {
                Ok(t) => {
                    proof {
                        assert(texts_pre.is_prefix_of(self.texts_view()));
                        assert forall|k: int|
                            0 <= k < i implies ty_matches(
                            args@[k],
                            #[trigger] pv.args[k],
                            vars.names(),
                            self.texts_view(),
                        ) by {
                            lemma_ty_matches_extend(
                                args@[k],
                                pv.args[k],
                                vars.names(),
                                texts_pre,
                                self.texts_view(),
                            );
                        }
                        assert(pv.args[i as int] == nt.args@[i as int]@);
                    }
                    args.push(t);
                    i += 1;
                },
                Err(e) => {
                    proof {
                        assert(pv.args[i as int] == nt.args@[i as int]@);
                        assert(!args_buildable(pv.args, vars.names()));
                    }
                    return Err(e);
                },
            }
        }
        proof {
            assert(pv.args.len() == nt.args@.len());
        }
        Ok(NonterminalRef { id, args })
    }

    /// Parses one reference payload: tokenize, read as a single reference
    /// spanning the whole payload, resolve the name and the arguments.
    /// Every failure here is fatal to the grammar load.
    pub fn parse_nonterminal_ref(&mut self, s: &Vec<char>, vars: &VarsTable) -> (r: Result<
        (NonterminalRef, Order),
        Fatal,
    >)
        requires
            old(self).wf(),
        ensures
            final(self).wf(),
            final(self).extends(*old(self)),
            final(self).prods@ == old(self).prods@,
            r is Ok <==> (spec_ref_parse(s@) is Some && args_buildable(
                spec_ref_parse(s@)->Some_0.args,
                vars.names(),
            )),
            r matches Ok((nt, o)) ==> nt_ref_matches(
                nt,
                spec_ref_parse(s@)->Some_0,
                vars.names(),
                final(self).texts_view(),
                final(self).names_view(),
            ) && o == spec_ref_parse(s@)->Some_0.order,
            r matches Err(e) ==> (e == Fatal::UnexpectedChar && spec_tokenize(s@, 0) is None) || (e
                == Fatal::MalformedRef && spec_tokenize(s@, 0) is Some && spec_ref_parse(s@) is None)
                || (e == Fatal::VarWithArgs && spec_ref_parse(s@) is Some && !args_buildable(
                spec_ref_parse(s@)->Some_0.args,
                vars.names(),
            )),
    {
        let tokens = match crate::token::tokenize(s) {
            Ok(ts) => ts,
            Err(e) => {
                return Err(e);
            },
        };
        let mut parser = Parser::new(tokens);
        let nt = match parser.parse_nt_exact(true) {
            Ok(nt) => nt,
            Err(()) => {
                return Err(Fatal::MalformedRef);
            },
        };
        let order = nt.order;
        match self.build_nt_ref(&nt, vars) {
            Ok(x) => Ok((x, order)),
            Err(e) => Err(e),
        }
    }

    /// Parses one left-hand side: tokenize, read the optional binder list
    /// and the head reference spanning the whole text, intern the binder
    /// names, resolve the head. Every failure here is fatal.
    pub fn parse_production_lhs(&mut self, s: &Vec<char>) -> (r: Result<
        (ProductionLhs, VarsTable),
        Fatal,
    >)
        requires
            old(self).wf(),
        ensures
            final(self).wf(),
            final(self).extends(*old(self)),
            final(self).prods@ == old(self).prods@,
            r is Ok <==> (spec_lhs_parse(s@) is Some && args_buildable(
                spec_lhs_parse(s@)->Some_0.nt.args,
                spec_lhs_parse(s@)->Some_0.vars,
            )),
            r matches Ok((lhs, vt)) ==> ({
                let p = spec_lhs_parse(s@)->Some_0;
                &&& vt.names() == p.vars
                &&& lhs.vars@.len() == p.vars.len()
                &&& forall|k: int|
                    0 <= k < p.vars.len() ==> ((#[trigger] lhs.vars@[k]).0 as int)
                        < final(self).texts_view().len()
                        && final(self).texts_view()[lhs.vars@[k].0 as int] == p.vars[k]
                &&& nt_ref_matches(
                    lhs.nt,
                    p.nt,
                    p.vars,
                    final(self).texts_view(),
                    final(self).names_view(),
                )
            }),
            r matches Err(e) ==> (e == Fatal::UnexpectedChar && spec_tokenize(s@, 0) is None) || (e
                == Fatal::MalformedLhs && spec_tokenize(s@, 0) is Some && spec_lhs_parse(s@) is None)
                || (e == Fatal::VarWithArgs && spec_lhs_parse(s@) is Some && !args_buildable(
                spec_lhs_parse(s@)->Some_0.nt.args,
                spec_lhs_parse(s@)->Some_0.vars,
            )),
    {
        let tokens = match crate::token::tokenize(s) {
            Ok(ts) => ts,
            Err(e) => {
                return Err(e);
            },
        };
        let mut parser = Parser::new(tokens);
        let parsed = match parser.parse_lhs_exact() {
            Ok(x) => x,
            Err(()) => {
                return Err(Fatal::MalformedLhs);
            },
        };
        let ghost pv = parsed@;
        let vt = make_vars_table(&parsed.vars);
        let mut var_ids: Vec<TextId> = Vec::new();
        let mut i: usize = 0;
        while i < parsed.vars.len()
            invariant
                i <= parsed.vars@.len(),
                var_ids@.len() == i,
                pv == parsed@,
                old(self).wf(),
                self.wf(),
                self.extends(*old(self)),
                self.prods@ == old(self).prods@,
                forall|k: int|
                    0 <= k < i ==> ((#[trigger] var_ids@[k]).0 as int) < self.texts_view().len()
                        && self.texts_view()[var_ids@[k].0 as int] == pv.vars[k],
            decreases parsed.vars@.len() - i,
        {
            let ghost texts_pre = self.texts_view();
            let id = self.intern_text(&parsed.vars[i]);
            proof {
                assert(texts_pre.is_prefix_of(self.texts_view()));
                assert forall|k: int|
                    0 <= k < i implies ((#[trigger] var_ids@[k]).0 as int) < self.texts_view().len()
                    && self.texts_view()[var_ids@[k].0 as int] == pv.vars[k] by {
                    assert(self.texts_view()[var_ids@[k].0 as int] == self.texts_view().subrange(
                        0,
                        texts_pre.len() as int,
                    )[var_ids@[k].0 as int]);
                }
                assert(pv.vars[i as int] == parsed.vars@[i as int]@);
            }
            var_ids.push(id);
            i += 1;
        }
        let ghost texts_mid = self.texts_view();
        let nt = match self.build_nt_ref(&parsed.nt, &vt) {
            Ok(x) => x,
            Err(e) => {
                return Err(e);
            },
        };
        proof {
            assert(texts_mid.is_prefix_of(self.texts_view()));
            assert forall|k: int|
                0 <= k < pv.vars.len() implies ((#[trigger] var_ids@[k]).0 as int) < self.texts_view().len()
                && self.texts_view()[var_ids@[k].0 as int] == pv.vars[k] by {
                assert(self.texts_view()[var_ids@[k].0 as int] == self.texts_view().subrange(
                    0,
                    texts_mid.len() as int,
                )[var_ids@[k].0 as int]);
            }
        }
        Ok((ProductionLhs { vars: var_ids, nt }, vt))
    }
}

} // verus!

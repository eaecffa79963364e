//! Recursive-descent parser for the type/reference sub-language: type
//! terms, nonterminal references with order markers, and left-hand sides
//! with an optional binder list.

use vstd::prelude::*;

use crate::ast::{Fatal, Order};
use crate::chars::{chars_eq_str, clone_chars};
use crate::token::{spec_tokenize, tokenize, tokens_view, Token, TokenV};

verus! {

broadcast use vstd::std_specs::vec::axiom_vec_decreases_to_view, vstd::seq::axiom_seq_index_decreases;

/// A raw, unresolved type term: a constructor or variable name and its
/// argument terms.
#[derive(Debug)]
pub struct ParsedTy {
    pub ctor: Vec<char>,
    pub args: Vec<ParsedTy>,
}

/// The mathematical value of a `ParsedTy`.
pub struct ParsedTyV {
    pub ctor: Seq<char>,
    pub args: Seq<ParsedTyV>,
}

/// The values of a sequence of parsed type terms.
pub open spec fn ty_views(args: Seq<ParsedTy>) -> Seq<ParsedTyV>
    decreases args,
{
    Seq::new(
        args.len(),
        |i: int|
            if 0 <= i < args.len() {
                args[i]@
            } else {
                ParsedTyV { ctor: Seq::empty(), args: Seq::empty() }
            },
    )
}

impl View for ParsedTy {
    type V = ParsedTyV;

    open spec fn view(&self) -> ParsedTyV
        decreases self,
    {
        ParsedTyV { ctor: self.ctor@, args: ty_views(self.args@) }
    }
}

/// A raw nonterminal reference: name, type arguments, order class.
#[derive(Debug)]
pub struct ParsedNt {
    pub name: Vec<char>,
    pub args: Vec<ParsedTy>,
    pub order: Order,
}

/// The mathematical value of a `ParsedNt`.
pub struct ParsedNtV {
    pub name: Seq<char>,
    pub args: Seq<ParsedTyV>,
    pub order: Order,
}

impl View for ParsedNt {
    type V = ParsedNtV;

    open spec fn view(&self) -> ParsedNtV {
        ParsedNtV { name: self.name@, args: ty_views(self.args@), order: self.order }
    }
}

/// A raw left-hand side: binder names and the head reference.
#[derive(Debug)]
pub struct ParsedLhs {
    pub vars: Vec<Vec<char>>,
    pub nt: ParsedNt,
}

/// The mathematical value of a `ParsedLhs`.
pub struct ParsedLhsV {
    pub vars: Seq<Seq<char>>,
    pub nt: ParsedNtV,
}

/// The texts of a sequence of character vectors.
pub open spec fn char_views(vs: Seq<Vec<char>>) -> Seq<Seq<char>> {
    vs.map_values(|v: Vec<char>| v@)
}

impl View for ParsedLhs {
    type V = ParsedLhsV;

    open spec fn view(&self) -> ParsedLhsV {
        ParsedLhsV { vars: char_views(self.vars@), nt: self.nt@ }
    }
}

/// One type term at `i`: a word followed by an optional argument list.
pub open spec fn spec_parse_ty(ts: Seq<TokenV>, i: int) -> Option<(ParsedTyV, int)>
    decreases ts.len() - i, 0int,
{
    if 0 <= i < ts.len() && ts[i] is Word {
        match spec_parse_ty_list(ts, i + 1) {
            None => None,
            Some((args, j)) => Some((ParsedTyV { ctor: ts[i]->Word_0, args }, j)),
        }
    } else {
        None
    }
}

/// An optional bracketed, comma-separated type-term list at `i`; the empty
/// sequence if no opening bracket stands there.
pub open spec fn spec_parse_ty_list(ts: Seq<TokenV>, i: int) -> Option<(Seq<ParsedTyV>, int)>
    decreases ts.len() - i, 1int,
{
    if 0 <= i < ts.len() && ts[i] is Open {
        spec_parse_ty_items(ts, i + 1)
    } else {
        Some((Seq::empty(), i))
    }
}

/// One or more type terms separated by commas and closed by `]`, starting
/// just after the opening bracket.
pub open spec fn spec_parse_ty_items(ts: Seq<TokenV>, i: int) -> Option<(Seq<ParsedTyV>, int)>
    decreases ts.len() - i, 2int,
{
    match spec_parse_ty(ts, i) {
        None => None,
        Some((ty, j)) => if j <= i || j > ts.len() {
            None
        } else if j < ts.len() && ts[j] is Close {
            Some((seq![ty], j + 1))
        } else if j < ts.len() && ts[j] is Comma {
            match spec_parse_ty_items(ts, j + 1) {
                None => None,
                Some((rest, k)) => Some((seq![ty] + rest, k)),
            }
        } else {
            None
        },
    }
}

/// A nonterminal reference at `i`: optional `^`, optional `$`, a name, an
/// optional type-argument list. Both markers on one reference fail.
pub open spec fn spec_parse_nt(ts: Seq<TokenV>, i: int, accept_order: bool) -> Option<
    (ParsedNtV, int),
> {
    let early = accept_order && 0 <= i < ts.len() && ts[i] is Caret;
    let i1: int = if early {
        i + 1
    } else {
        i
    };
    let late = accept_order && 0 <= i1 < ts.len() && ts[i1] is Dollar;
    let i2: int = if late {
        i1 + 1
    } else {
        i1
    };
    if 0 <= i2 < ts.len() && ts[i2] is Word {
        match spec_parse_ty_list(ts, i2 + 1) {
            None => None,
            Some((args, j)) => if early && late {
                None
            } else {
                Some(
                    (
                        ParsedNtV {
                            name: ts[i2]->Word_0,
                            args,
                            order: if early {
                                Order::Early
                            } else if late {
                                Order::Late
                            } else {
                                Order::Default
                            },
                        },
                        j,
                    ),
                )
            },
        }
    } else {
        None
    }
}

/// The binder names after `for (`: words separated by commas, closed by `)`
/// (which the lexer reads as the bracket tokens).
pub open spec fn spec_parse_vars(ts: Seq<TokenV>, i: int) -> Option<(Seq<Seq<char>>, int)>
    decreases ts.len() - i,
{
    if 0 <= i < ts.len() && ts[i] is Word {
        let name = ts[i]->Word_0;
        if i + 1 < ts.len() && ts[i + 1] is Close {
            Some((seq![name], i + 2))
        } else if i + 1 < ts.len() && ts[i + 1] is Comma {
            match spec_parse_vars(ts, i + 2) {
                None => None,
                Some((rest, j)) => Some((seq![name] + rest, j)),
            }
        } else {
            None
        }
    } else {
        None
    }
}

/// A left-hand side at `i`: an optional `for` binder list, then a
/// nonterminal reference without order markers.
pub open spec fn spec_parse_lhs(ts: Seq<TokenV>, i: int) -> Option<(ParsedLhsV, int)> {
    if 0 <= i < ts.len() && ts[i] == TokenV::Word("for"@) {
        if i + 1 < ts.len() && ts[i + 1] is Open {
            match spec_parse_vars(ts, i + 2) {
                None => None,
                Some((vars, j)) => match spec_parse_nt(ts, j, false) {
                    None => None,
                    Some((nt, k)) => Some((ParsedLhsV { vars, nt }, k)),
                },
            }
        } else {
            None
        }
    } else {
        match spec_parse_nt(ts, i, false) {
            None => None,
            Some((nt, k)) => Some((ParsedLhsV { vars: Seq::empty(), nt }, k)),
        }
    }
}

/// A full-input parse: the item must consume every remaining token.
pub open spec fn spec_parse_nt_exact(ts: Seq<TokenV>, i: int, accept_order: bool) -> Option<
    ParsedNtV,
> {
    match spec_parse_nt(ts, i, accept_order) {
        None => None,
        Some((nt, j)) => if j == ts.len() {
            Some(nt)
        } else {
            None
        },
    }
}

/// A full-input left-hand-side parse: it must consume every remaining token.
pub open spec fn spec_parse_lhs_exact(ts: Seq<TokenV>, i: int) -> Option<ParsedLhsV> {
    match spec_parse_lhs(ts, i) {
        None => None,
        Some((lhs, j)) => if j == ts.len() {
            Some(lhs)
        } else {
            None
        },
    }
}

fn is_close(t: &Token) -> (r: bool)
    ensures
        r == (t@ is Close),
{
    match t {
        Token::Close => true,
        _ => false,
    }
}

fn is_comma(t: &Token) -> (r: bool)
    ensures
        r == (t@ is Comma),
{
    match t {
        Token::Comma => true,
        _ => false,
    }
}

fn parse_ty_at(tokens: &Vec<Token>, pos: usize) -> (r: Result<(ParsedTy, usize), ()>)
    requires
        pos <= tokens@.len(),
    ensures
        r matches Ok((ty, j)) ==> pos < j <= tokens@.len() && spec_parse_ty(
            tokens_view(tokens@),
            pos as int,
        ) == Some((ty@, j as int)),
        r is Err ==> spec_parse_ty(tokens_view(tokens@), pos as int) is None,
    decreases tokens@.len() - pos, 0int,
{
    if pos < tokens.len() {
        let name = match &tokens[pos] {
            Token::Word(w) => clone_chars(w),
            _ => {
                return Err(());
            },
        };
        match parse_ty_list_at(tokens, pos + 1) {
            Ok((args, j)) => Ok((ParsedTy { ctor: name, args }, j)),
            Err(()) => Err(()),
        }
    } else {
        Err(())
    }
}

fn parse_ty_list_at(tokens: &Vec<Token>, pos: usize) -> (r: Result<(Vec<ParsedTy>, usize), ()>)
    requires
        pos <= tokens@.len(),
    ensures
        r matches Ok((tys, j)) ==> pos <= j <= tokens@.len() && spec_parse_ty_list(
            tokens_view(tokens@),
            pos as int,
        ) == Some((ty_views(tys@), j as int)),
        r is Err ==> spec_parse_ty_list(tokens_view(tokens@), pos as int) is None,
    decreases tokens@.len() - pos, 1int,
{
    if pos < tokens.len() && matches!(&tokens[pos], Token::Open) {
        parse_ty_items_at(tokens, pos + 1)
    } else {
        let tys: Vec<ParsedTy> = Vec::new();
        proof {
            assert(ty_views(tys@) =~= Seq::<ParsedTyV>::empty());
        }
        Ok((tys, pos))
    }
}

fn parse_ty_items_at(tokens: &Vec<Token>, pos: usize) -> (r: Result<(Vec<ParsedTy>, usize), ()>)
    requires
        pos <= tokens@.len(),
    ensures
        r matches Ok((tys, j)) ==> pos < j <= tokens@.len() && spec_parse_ty_items(
            tokens_view(tokens@),
            pos as int,
        ) == Some((ty_views(tys@), j as int)),
        r is Err ==> spec_parse_ty_items(tokens_view(tokens@), pos as int) is None,
    decreases tokens@.len() - pos, 2int,
{
    let (ty, j) = match parse_ty_at(tokens, pos) {
        Ok(x) => x,
        Err(()) => {
            return Err(());
        },
    };
    if j < tokens.len() && is_close(&tokens[j]) {
        let mut tys: Vec<ParsedTy> = Vec::new();
        tys.push(ty);
        proof {
            assert(ty_views(tys@) =~= seq![tys@[0]@]);
        }
        Ok((tys, j + 1))
    } else if j < tokens.len() && is_comma(&tokens[j]) {
        match parse_ty_items_at(tokens, j + 1) {
            Ok((mut rest, k)) => {
                let ghost rest0 = rest@;
                rest.insert(0, ty);
                proof {
                    assert(ty_views(rest@) =~= seq![rest@[0]@] + ty_views(rest0));
                }
                Ok((rest, k))
            },
            Err(()) => Err(()),
        }
    } else {
        Err(())
    }
}

fn parse_nt_at(tokens: &Vec<Token>, pos: usize, accept_order: bool) -> (r: Result<
    (ParsedNt, usize),
    (),
>)
    requires
        pos <= tokens@.len(),
    ensures
        r matches Ok((nt, j)) ==> pos <= j <= tokens@.len() && spec_parse_nt(
            tokens_view(tokens@),
            pos as int,
            accept_order,
        ) == Some((nt@, j as int)),
        r is Err ==> spec_parse_nt(tokens_view(tokens@), pos as int, accept_order) is None,
{
    let early = accept_order && pos < tokens.len() && matches!(&tokens[pos], Token::Caret);
    let p1 = if early {
        pos + 1
    } else {
        pos
    };
    let late = accept_order && p1 < tokens.len() && matches!(&tokens[p1], Token::Dollar);
    let p2 = if late {
        p1 + 1
    } else {
        p1
    };
    if p2 < tokens.len() {
        let name = match &tokens[p2] {
            Token::Word(w) => clone_chars(w),
            _ => {
                return Err(());
            },
        };
        match parse_ty_list_at(tokens, p2 + 1) {
            Ok((args, j)) => {
                if early && late {
                    Err(())
                } else {
                    let order = if early {
                        Order::Early
                    } else if late {
                        Order::Late
                    } else {
                        Order::Default
                    };
                    Ok((ParsedNt { name, args, order }, j))
                }
            },
            Err(()) => Err(()),
        }
    } else {
        Err(())
    }
}

fn parse_vars_at(tokens: &Vec<Token>, pos: usize) -> (r: Result<(Vec<Vec<char>>, usize), ()>)
    requires
        pos <= tokens@.len(),
    ensures
        r matches Ok((vars, j)) ==> pos < j <= tokens@.len() && spec_parse_vars(
            tokens_view(tokens@),
            pos as int,
        ) == Some((char_views(vars@), j as int)),
        r is Err ==> spec_parse_vars(tokens_view(tokens@), pos as int) is None,
    decreases tokens@.len() - pos,
{
    if pos < tokens.len() {
        let name = match &tokens[pos] {
            Token::Word(w) => clone_chars(w),
            _ => {
                return Err(());
            },
        };
        if pos + 1 < tokens.len() && is_close(&tokens[pos + 1]) {
            let mut vars: Vec<Vec<char>> = Vec::new();
            vars.push(name);
            proof {
                assert(char_views(vars@) =~= seq![vars@[0]@]);
            }
            Ok((vars, pos + 2))
        } else if pos + 1 < tokens.len() && is_comma(&tokens[pos + 1]) {
            match parse_vars_at(tokens, pos + 2) {
                Ok((mut rest, k)) => {
                    let ghost rest0 = rest@;
                    rest.insert(0, name);
                    proof {
                        assert(char_views(rest@) =~= seq![rest@[0]@] + char_views(rest0));
                    }
                    Ok((rest, k))
                },
                Err(()) => Err(()),
            }
        } else {
            Err(())
        }
    } else {
        Err(())
    }
}

fn parse_lhs_at(tokens: &Vec<Token>, pos: usize) -> (r: Result<(ParsedLhs, usize), ()>)
    requires
        pos <= tokens@.len(),
    ensures
        r matches Ok((lhs, j)) ==> pos <= j <= tokens@.len() && spec_parse_lhs(
            tokens_view(tokens@),
            pos as int,
        ) == Some((lhs@, j as int)),
        r is Err ==> spec_parse_lhs(tokens_view(tokens@), pos as int) is None,
{
    let has_for = pos < tokens.len() && match &tokens[pos] {
        Token::Word(w) => chars_eq_str(w, "for"),
        _ => false,
    };
    if has_for {
        if pos + 1 < tokens.len() && matches!(&tokens[pos + 1], Token::Open) {
            match parse_vars_at(tokens, pos + 2) {
                Ok((vars, j)) => match parse_nt_at(tokens, j, false) {
                    Ok((nt, k)) => Ok((ParsedLhs { vars, nt }, k)),
                    Err(()) => Err(()),
                },
                Err(()) => Err(()),
            }
        } else {
            Err(())
        }
    } else {
        match parse_nt_at(tokens, pos, false) {
            Ok((nt, k)) => {
                let lhs = ParsedLhs { vars: Vec::new(), nt };
                proof {
                    assert(char_views(lhs.vars@) =~= Seq::<Seq<char>>::empty());
                }
                Ok((lhs, k))
            },
            Err(()) => Err(()),
        }
    }
}

/// A cursor over a token sequence.
#[derive(Debug)]
pub struct Parser {
    pub tokens: Vec<Token>,
    pub pos: usize,
}

impl Parser {
    /// The token values under the cursor.
    pub open spec fn toks(&self) -> Seq<TokenV> {
        tokens_view(self.tokens@)
    }

    /// The cursor never passes the end of the tokens.
    pub open spec fn wf(&self) -> bool {
        self.pos <= self.tokens@.len()
    }

    pub fn new(tokens: Vec<Token>) -> (r: Parser)
        ensures
            r.toks() == tokens_view(tokens@),
            r.pos == 0,
            r.wf(),
    {
        Parser { tokens, pos: 0 }
    }

    /// Tokenizes `s` and places the cursor at its start. Fails exactly when
    /// `s` holds a character outside the token alphabet.
    pub fn from_str(s: &str) -> (r: Result<Parser, Fatal>)
        ensures
            r is Ok <==> spec_tokenize(s@, 0) is Some,
            r matches Ok(p) ==> Some(p.toks()) == spec_tokenize(s@, 0) && p.pos == 0 && p.wf(),
            r matches Err(e) ==> e == Fatal::UnexpectedChar,
    {
        let cs = crate::chars::chars_of(s);
        match tokenize(&cs) {
            Ok(ts) => Ok(Parser::new(ts)),
            Err(e) => Err(e),
        }
    }

    pub fn eof(&self) -> (r: bool)
        ensures
            r == (self.pos >= self.toks().len()),
    {
        self.pos >= self.tokens.len()
    }

    pub fn peek(&self) -> (r: Result<Token, ()>)
        ensures
            r is Ok <==> self.pos < self.toks().len(),
            r matches Ok(t) ==> t@ == self.toks()[self.pos as int],
    {
        if self.pos < self.tokens.len() {
            Ok(self.tokens[self.pos].clone())
        } else {
            Err(())
        }
    }

    pub fn take(&mut self) -> (r: Result<Token, ()>)
        requires
            old(self).wf(),
        ensures
            final(self).wf(),
            final(self).toks() == old(self).toks(),
            r is Ok <==> old(self).pos < old(self).toks().len(),
            r matches Ok(t) ==> t@ == old(self).toks()[old(self).pos as int] && final(self).pos
                == old(self).pos + 1,
            r is Err ==> *final(self) == *old(self),
    {
        if self.pos < self.tokens.len() {
            let t = self.tokens[self.pos].clone();
            self.pos = self.pos + 1;
            Ok(t)
        } else {
            Err(())
        }
    }

    /// Takes one token, which must be a word; its text is returned.
    pub fn take_word(&mut self) -> (r: Result<Vec<char>, ()>)
        requires
            old(self).wf(),
        ensures
            final(self).wf(),
            final(self).toks() == old(self).toks(),
            r is Ok <==> (old(self).pos < old(self).toks().len()
                && old(self).toks()[old(self).pos as int] is Word),
            r matches Ok(w) ==> TokenV::Word(w@) == old(self).toks()[old(self).pos as int]
                && final(self).pos == old(self).pos + 1,
            r is Err && old(self).pos < old(self).toks().len() ==> final(self).pos == old(
                self,
            ).pos + 1 && !(old(self).toks()[old(self).pos as int] is Word),
            r is Err && old(self).pos >= old(self).toks().len() ==> *final(self) == *old(self),
    {
        match self.take() {
            Ok(t) => match t {
                Token::Word(w) => Ok(w),
                _ => Err(()),
            },
            Err(()) => Err(()),
        }
    }

    /// Consumes the next token exactly when it equals `t`.
    pub fn eat(&mut self, t: Token) -> (r: bool)
        requires
            old(self).wf(),
        ensures
            final(self).wf(),
            final(self).toks() == old(self).toks(),
            r == (old(self).pos < old(self).toks().len() && old(self).toks()[old(self).pos as int]
                == t@),
            r ==> final(self).pos == old(self).pos + 1,
            !r ==> *final(self) == *old(self),
    {
        if self.pos < self.tokens.len() && crate::token::token_eq(&self.tokens[self.pos], &t) {
            self.pos = self.pos + 1;
            true
        } else {
            false
        }
    }

    /// Consumes the next token exactly when it is the word `s`.
    pub fn eat_word(&mut self, s: &str) -> (r: bool)
        requires
            old(self).wf(),
        ensures
            final(self).wf(),
            final(self).toks() == old(self).toks(),
            r == (old(self).pos < old(self).toks().len() && old(self).toks()[old(self).pos as int]
                == TokenV::Word(s@)),
            r ==> final(self).pos == old(self).pos + 1,
            !r ==> *final(self) == *old(self),
    {
        let hit = self.pos < self.tokens.len() && match &self.tokens[self.pos] {
            Token::Word(w) => chars_eq_str(w, s),
            _ => false,
        };
        if hit {
            self.pos = self.pos + 1;
            true
        } else {
            false
        }
    }

    /// Demands the next token to equal `t`.
    pub fn expect(&mut self, t: Token) -> (r: Result<(), ()>)
        requires
            old(self).wf(),
        ensures
            final(self).wf(),
            final(self).toks() == old(self).toks(),
            r is Ok <==> (old(self).pos < old(self).toks().len()
                && old(self).toks()[old(self).pos as int] == t@),
            r is Ok ==> final(self).pos == old(self).pos + 1,
            r is Err ==> *final(self) == *old(self),
    {
        if !self.eat(t) {
            Err(())
        } else {
            Ok(())
        }
    }

    /// Demands that the cursor consumed every token.
    pub fn expect_eof(&self) -> (r: Result<(), ()>)
        ensures
            r is Ok <==> self.pos >= self.toks().len(),
    {
        if self.eof() {
            Ok(())
        } else {
            Err(())
        }
    }

    /// An optional bracketed type-term list at the cursor.
    pub fn parse_ty_list(&mut self) -> (r: Result<Vec<ParsedTy>, ()>)
        requires
            old(self).wf(),
        ensures
            final(self).wf(),
            final(self).toks() == old(self).toks(),
            r is Ok <==> spec_parse_ty_list(old(self).toks(), old(self).pos as int) is Some,
            r matches Ok(tys) ==> spec_parse_ty_list(old(self).toks(), old(self).pos as int)
                == Some((ty_views(tys@), final(self).pos as int)),
            r is Err ==> *final(self) == *old(self),
    {
        match parse_ty_list_at(&self.tokens, self.pos) {
            Ok((tys, j)) => {
                self.pos = j;
                Ok(tys)
            },
            Err(()) => Err(()),
        }
    }

    /// One type term at the cursor.
    pub fn parse_ty(&mut self) -> (r: Result<ParsedTy, ()>)
        requires
            old(self).wf(),
        ensures
            final(self).wf(),
            final(self).toks() == old(self).toks(),
            r is Ok <==> spec_parse_ty(old(self).toks(), old(self).pos as int) is Some,
            r matches Ok(ty) ==> spec_parse_ty(old(self).toks(), old(self).pos as int) == Some(
                (ty@, final(self).pos as int),
            ),
            r is Err ==> *final(self) == *old(self),
    {
        match parse_ty_at(&self.tokens, self.pos) {
            Ok((ty, j)) => {
                self.pos = j;
                Ok(ty)
            },
            Err(()) => Err(()),
        }
    }

    /// A nonterminal reference at the cursor; order markers are read only
    /// when `accept_order` is set.
    pub fn parse_nt(&mut self, accept_order: bool) -> (r: Result<ParsedNt, ()>)
        requires
            old(self).wf(),
        ensures
            final(self).wf(),
            final(self).toks() == old(self).toks(),
            r is Ok <==> spec_parse_nt(old(self).toks(), old(self).pos as int, accept_order)
                is Some,
            r matches Ok(nt) ==> spec_parse_nt(old(self).toks(), old(self).pos as int, accept_order)
                == Some((nt@, final(self).pos as int)),
            r is Err ==> *final(self) == *old(self),
    {
        match parse_nt_at(&self.tokens, self.pos, accept_order) {
            Ok((nt, j)) => {
                self.pos = j;
                Ok(nt)
            },
            Err(()) => Err(()),
        }
    }

    /// A nonterminal reference that must consume the whole input.
    pub fn parse_nt_exact(&mut self, accept_order: bool) -> (r: Result<ParsedNt, ()>)
        requires
            old(self).wf(),
        ensures
            final(self).wf(),
            final(self).toks() == old(self).toks(),
            r is Ok <==> spec_parse_nt_exact(
                old(self).toks(),
                old(self).pos as int,
                accept_order,
            ) is Some,
            r matches Ok(nt) ==> Some(nt@) == spec_parse_nt_exact(
                old(self).toks(),
                old(self).pos as int,
                accept_order,
            ),
            r is Ok ==> final(self).pos == final(self).toks().len(),
    {
        let nt = match self.parse_nt(accept_order) {
            Ok(x) => x,
            Err(()) => {
                return Err(());
            },
        };
        match self.expect_eof() {
            Ok(()) => Ok(nt),
            Err(()) => Err(()),
        }
    }

    /// A left-hand side at the cursor.
    pub fn parse_lhs(&mut self) -> (r: Result<ParsedLhs, ()>)
        requires
            old(self).wf(),
        ensures
            final(self).wf(),
            final(self).toks() == old(self).toks(),
            r is Ok <==> spec_parse_lhs(old(self).toks(), old(self).pos as int) is Some,
            r matches Ok(lhs) ==> spec_parse_lhs(old(self).toks(), old(self).pos as int) == Some(
                (lhs@, final(self).pos as int),
            ),
            r is Err ==> *final(self) == *old(self),
    {
        match parse_lhs_at(&self.tokens, self.pos) {
            Ok((lhs, j)) => {
                self.pos = j;
                Ok(lhs)
            },
            Err(()) => Err(()),
        }
    }

    /// A left-hand side that must consume the whole input.
    pub fn parse_lhs_exact(&mut self) -> (r: Result<ParsedLhs, ()>)
        requires
            old(self).wf(),
        ensures
            final(self).wf(),
            final(self).toks() == old(self).toks(),
            r is Ok <==> spec_parse_lhs_exact(old(self).toks(), old(self).pos as int) is Some,
            r matches Ok(lhs) ==> Some(lhs@) == spec_parse_lhs_exact(
                old(self).toks(),
                old(self).pos as int,
            ),
            r is Ok ==> final(self).pos == final(self).toks().len(),
    {
        let lhs = match self.parse_lhs() {
            Ok(x) => x,
            Err(()) => {
                return Err(());
            },
        };
        match self.expect_eof() {
            Ok(()) => Ok(lhs),
            Err(()) => Err(()),
        }
    }
}

} // verus!

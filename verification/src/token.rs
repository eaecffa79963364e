//! The lexer of the type/reference sub-language: words, brackets, comma,
//! and the two order-marker characters.

use vstd::prelude::*;

use crate::ast::Fatal;
use crate::chars::{clone_chars, is_space_char, is_word_char, space_char, word_char};

verus! {

/// A token of the sub-language.
#[derive(Debug)]
pub enum Token {
    Open,
    Close,
    Comma,
    Word(Vec<char>),
    Dollar,
    Caret,
}

/// The mathematical value of a token.
pub enum TokenV {
    Open,
    Close,
    Comma,
    Word(Seq<char>),
    Dollar,
    Caret,
}

impl View for Token {
    type V = TokenV;

    open spec fn view(&self) -> TokenV {
        match self {
            Token::Open => TokenV::Open,
            Token::Close => TokenV::Close,
            Token::Comma => TokenV::Comma,
            Token::Word(w) => TokenV::Word(w@),
            Token::Dollar => TokenV::Dollar,
            Token::Caret => TokenV::Caret,
        }
    }
}

impl Clone for Token {
    fn clone(&self) -> (r: Token)
        ensures
            r@ == self@,
    {
        match self {
            Token::Open => Token::Open,
            Token::Close => Token::Close,
            Token::Comma => Token::Comma,
            Token::Word(w) => Token::Word(clone_chars(w)),
            Token::Dollar => Token::Dollar,
            Token::Caret => Token::Caret,
        }
    }
}

/// The values of a sequence of tokens.
pub open spec fn tokens_view(ts: Seq<Token>) -> Seq<TokenV> {
    ts.map_values(|t: Token| t@)
}

/// Whether two tokens hold the same value.
pub fn token_eq(a: &Token, b: &Token) -> (r: bool)
    ensures
        r == (a@ == b@),
{
    match (a, b) {
        (Token::Open, Token::Open) => true,
        (Token::Close, Token::Close) => true,
        (Token::Comma, Token::Comma) => true,
        (Token::Word(x), Token::Word(y)) => crate::chars::chars_eq(x, y),
        (Token::Dollar, Token::Dollar) => true,
        (Token::Caret, Token::Caret) => true,
        _ => false,
    }
}

/// The length of the run of word characters starting at `i`.
pub open spec fn word_run(s: Seq<char>, i: int) -> nat
    decreases s.len() - i,
{
    if i < 0 || i >= s.len() || !is_word_char(s[i]) {
        0
    } else {
        1 + word_run(s, i + 1)
    }
}

/// The length of the run of whitespace characters starting at `i`.
pub open spec fn space_run(s: Seq<char>, i: int) -> nat
    decreases s.len() - i,
{
    if i < 0 || i >= s.len() || !is_space_char(s[i]) {
        0
    } else {
        1 + space_run(s, i + 1)
    }
}

pub proof fn lemma_word_run_bound(s: Seq<char>, i: int)
    requires
        0 <= i <= s.len(),
    ensures
        i + word_run(s, i) <= s.len(),
        forall|k: int| i <= k < i + word_run(s, i) ==> is_word_char(s[k]),
        i + word_run(s, i) < s.len() ==> !is_word_char(s[i + word_run(s, i)]),
    decreases s.len() - i,
{
    if i < s.len() && is_word_char(s[i]) {
        lemma_word_run_bound(s, i + 1);
    }
}

pub proof fn lemma_space_run_bound(s: Seq<char>, i: int)
    requires
        0 <= i <= s.len(),
    ensures
        i + space_run(s, i) <= s.len(),
        forall|k: int| i <= k < i + space_run(s, i) ==> is_space_char(s[k]),
        i + space_run(s, i) < s.len() ==> !is_space_char(s[i + space_run(s, i)]),
    decreases s.len() - i,
{
    if i < s.len() && is_space_char(s[i]) {
        lemma_space_run_bound(s, i + 1);
    }
}

/// The tokens of `s` from position `i` on: the longest run of word
/// characters is one word, whitespace separates, and each of `[`, `(`,
/// `]`, `)`, `,`, `$`, `^` is one token — a parenthesis reads as the same
/// token as the matching bracket. Any other character fails the whole scan.
pub open spec fn spec_tokenize(s: Seq<char>, i: int) -> Option<Seq<TokenV>>
    decreases s.len() - i,
    via spec_tokenize_decreases
{
    if i < 0 || i >= s.len() {
        Some(Seq::empty())
    } else if is_word_char(s[i]) {
        let w = word_run(s, i) as int;
        match spec_tokenize(s, i + w) {
            None => None,
            Some(ts) => Some(seq![TokenV::Word(s.subrange(i, i + w))] + ts),
        }
    } else if is_space_char(s[i]) {
        spec_tokenize(s, i + space_run(s, i))
    } else if s[i] == '[' || s[i] == '(' {
        match spec_tokenize(s, i + 1) {
            None => None,
            Some(ts) => Some(seq![TokenV::Open] + ts),
        }
    } else if s[i] == ']' || s[i] == ')' {
        match spec_tokenize(s, i + 1) {
            None => None,
            Some(ts) => Some(seq![TokenV::Close] + ts),
        }
    } else if s[i] == ',' {
        match spec_tokenize(s, i + 1) {
            None => None,
            Some(ts) => Some(seq![TokenV::Comma] + ts),
        }
    } else if s[i] == '$' {
        match spec_tokenize(s, i + 1) {
            None => None,
            Some(ts) => Some(seq![TokenV::Dollar] + ts),
        }
    } else if s[i] == '^' {
        match spec_tokenize(s, i + 1) {
            None => None,
            Some(ts) => Some(seq![TokenV::Caret] + ts),
        }
    } else {
        None
    }
}

#[via_fn]
proof fn spec_tokenize_decreases(s: Seq<char>, i: int) {
    if 0 <= i < s.len() {
        if is_word_char(s[i]) {
            lemma_word_run_bound(s, i);
        } else if is_space_char(s[i]) {
            lemma_space_run_bound(s, i);
        }
    }
}

/// The longest run of word characters starting at `i`, as a position.
pub fn scan_word_end(s: &Vec<char>, i: usize) -> (r: usize)
    requires
        i <= s@.len(),
    ensures
        r == i + word_run(s@, i as int),
        r <= s@.len(),
{
    proof {
        lemma_word_run_bound(s@, i as int);
    }
    let mut j: usize = i;
    while j < s.len() && word_char(s[j])
        invariant
            i <= j <= s@.len(),
            word_run(s@, i as int) == (j - i) + word_run(s@, j as int),
            j < s@.len() ==> (j - i) <= word_run(s@, i as int),
        decreases s@.len() - j,
    {
        proof {
            lemma_word_run_bound(s@, j as int);
        }
        j += 1;
    }
    j
}

/// The longest run of whitespace characters starting at `i`, as a position.
pub fn scan_space_end(s: &Vec<char>, i: usize) -> (r: usize)
    requires
        i <= s@.len(),
    ensures
        r == i + space_run(s@, i as int),
        r <= s@.len(),
{
    proof {
        lemma_space_run_bound(s@, i as int);
    }
    let mut j: usize = i;
    while j < s.len() && space_char(s[j])
        invariant
            i <= j <= s@.len(),
            space_run(s@, i as int) == (j - i) + space_run(s@, j as int),
            j < s@.len() ==> (j - i) <= space_run(s@, i as int),
        decreases s@.len() - j,
    {
        proof {
            lemma_space_run_bound(s@, j as int);
        }
        j += 1;
    }
    j
}

/// Tokenizes a text fragment. Fails exactly on a character outside the
/// token alphabet; that failure is fatal to the whole grammar load.
pub fn tokenize(s: &Vec<char>) -> (r: Result<Vec<Token>, Fatal>)
    ensures
        r is Ok <==> spec_tokenize(s@, 0) is Some,
        r matches Ok(ts) ==> Some(tokens_view(ts@)) == spec_tokenize(s@, 0),
        r matches Err(e) ==> e == Fatal::UnexpectedChar,
{
    let mut tokens: Vec<Token> = Vec::new();
    let mut i: usize = 0;
    while i < s.len()
        invariant
            i <= s@.len(),
            spec_tokenize(s@, 0) == match spec_tokenize(s@, i as int) {
                None => None::<Seq<TokenV>>,
                Some(rest) => Some(tokens_view(tokens@) + rest),
            },
        decreases s@.len() - i,
    {
        let ghost i0 = i as int;
        let ghost toks0 = tokens@;
        let c = s[i];
        if word_char(c) {
            let j = scan_word_end(s, i);
            proof {
                lemma_word_run_bound(s@, i as int);
            }
            tokens.push(Token::Word(crate::chars::subchars(s, i, j)));
            i = j;
            proof {
                let tv = TokenV::Word(s@.subrange(i0, i as int));
                assert(tokens_view(tokens@) =~= tokens_view(toks0).push(tv));
                if spec_tokenize(s@, i as int) is Some {
                    let rest = spec_tokenize(s@, i as int)->Some_0;
                    assert(tokens_view(toks0) + (seq![tv] + rest) =~= tokens_view(tokens@) + rest);
                }
            }
        } else if space_char(c) {
            let j = scan_space_end(s, i);
            proof {
                lemma_space_run_bound(s@, i as int);
            }
            i = j;
        } else if c == '[' || c == '(' || c == ']' || c == ')' || c == ',' || c == '$' || c == '^' {
            let t = if c == '[' || c == '(' {
                Token::Open
            } else if c == ']' || c == ')' {
                Token::Close
            } else if c == ',' {
                Token::Comma
            } else if c == '$' {
                Token::Dollar
            } else {
                Token::Caret
            };
            proof {
                assert(spec_tokenize(s@, i0) is Some ==> spec_tokenize(s@, i0 + 1) is Some);
            }
            tokens.push(t);
            i += 1;
            proof {
                let tv = tokens@.last()@;
                assert(tokens_view(tokens@) =~= tokens_view(toks0).push(tv));
                if spec_tokenize(s@, i as int) is Some {
                    let rest = spec_tokenize(s@, i as int)->Some_0;
                    assert(tokens_view(toks0) + (seq![tv] + rest) =~= tokens_view(tokens@) + rest);
                }
            }
        } else {
            return Err(Fatal::UnexpectedChar);
        }
    }
    proof {
        assert(tokens_view(tokens@) + Seq::<TokenV>::empty() =~= tokens_view(tokens@));
    }
    Ok(tokens)
}

} // verus!

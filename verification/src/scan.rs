//! The reference-marker scanner: finds the non-overlapping `<<…>>`
//! reference markers of a line, left to right, and recognizes standalone
//! reference lines.

use vstd::prelude::*;

use crate::chars::{bracket_char, is_bracket_char, is_marker_char, marker_char};
use crate::token::{lemma_space_run_bound, lemma_word_run_bound, scan_space_end, scan_word_end,
    space_run, word_run};

verus! {

/// The length of the run of order-marker characters starting at `i`.
pub open spec fn marker_run(s: Seq<char>, i: int) -> nat
    decreases s.len() - i,
{
    if i < 0 || i >= s.len() || !is_marker_char(s[i]) {
        0
    } else {
        1 + marker_run(s, i + 1)
    }
}

pub proof fn lemma_marker_run_bound(s: Seq<char>, i: int)
    requires
        0 <= i <= s.len(),
    ensures
        i + marker_run(s, i) <= s.len(),
    decreases s.len() - i,
{
    if i < s.len() && is_marker_char(s[i]) {
        lemma_marker_run_bound(s, i + 1);
    }
}

/// The longest run of marker characters starting at `i`, as a position.
pub fn scan_marker_end(s: &Vec<char>, i: usize) -> (r: usize)
    requires
        i <= s@.len(),
    ensures
        r == i + marker_run(s@, i as int),
        r <= s@.len(),
{
    proof {
        lemma_marker_run_bound(s@, i as int);
    }
    let mut j: usize = i;
    while j < s.len() && marker_char(s[j])
        invariant
            i <= j <= s@.len(),
            marker_run(s@, i as int) == (j - i) + marker_run(s@, j as int),
        decreases s@.len() - j,
    {
        proof {
            lemma_marker_run_bound(s@, j as int);
        }
        j += 1;
    }
    j
}

/// Whether `p` is a well-formed reference payload: a run of order markers,
/// a word of at least one character, and optionally a bracket group running
/// to the payload's end, whose inner characters are bracket characters.
pub open spec fn payload_ok(p: Seq<char>) -> bool {
    let m = marker_run(p, 0) as int;
    let w = word_run(p, m) as int;
    w >= 1 && (m + w == p.len() || (p[m + w] == '[' && p.len() >= m + w + 2 && p[p.len() - 1] == ']'
        && (forall|k: int| m + w < k < p.len() - 1 ==> is_bracket_char(#[trigger] p[k]))))
}

/// Whether the characters of `p` form a well-formed reference payload.
pub fn payload_check(p: &Vec<char>) -> (r: bool)
    ensures
        r == payload_ok(p@),
{
    let m = scan_marker_end(p, 0);
    let w_end = scan_word_end(p, m);
    proof {
        lemma_word_run_bound(p@, m as int);
    }
    if w_end == m {
        return false;
    }
    if w_end == p.len() {
        return true;
    }
    if !(p[w_end] == '[') || p.len() - w_end < 2 || !(p[p.len() - 1] == ']') {
        return false;
    }
    let mut k: usize = w_end + 1;
    while k < p.len() - 1
        invariant
            m == marker_run(p@, 0),
            w_end == m + word_run(p@, m as int),
            m < w_end < p@.len(),
            p@[w_end as int] == '[',
            p@.len() >= w_end + 2,
            p@[p@.len() - 1] == ']',
            w_end + 1 <= k <= p@.len() - 1,
            forall|t: int| w_end < t < k ==> is_bracket_char(#[trigger] p@[t]),
        decreases p@.len() - k,
    {
        if !bracket_char(p[k]) {
            return false;
        }
        k += 1;
    }
    true
}

/// The position of the first `>>` at or after `i`.
pub open spec fn find_close(s: Seq<char>, i: int) -> Option<int>
    decreases s.len() - i,
{
    if i < 0 || i + 2 > s.len() {
        None
    } else if s[i] == '>' && s[i + 1] == '>' {
        Some(i)
    } else {
        find_close(s, i + 1)
    }
}

/// The position of the first `>>` at or after `i`, executably.
pub fn find_close_at(s: &Vec<char>, i: usize) -> (r: Option<usize>)
    requires
        i <= s@.len(),
    ensures
        match r {
            Some(k) => Some(k as int) == find_close(s@, i as int) && i <= k && k + 2 <= s@.len(),
            None => find_close(s@, i as int) is None,
        },
{
    let mut j: usize = i;
    while j < s.len()
        invariant
            i <= j <= s@.len(),
            find_close(s@, i as int) == find_close(s@, j as int),
        decreases s@.len() - j,
    {
        if j + 1 < s.len() && s[j] == '>' && s[j + 1] == '>' {
            return Some(j);
        }
        j += 1;
    }
    None
}

/// The reference markers of `s` from `i` on: each is `(start, close)` where
/// `s[start..start+2]` is `<<`, `close` is the first following `>>`, and
/// the payload between is well formed. Matches never overlap: the scan
/// resumes after each match's closing `>>`.
pub open spec fn spec_matches(s: Seq<char>, i: int) -> Seq<(int, int)>
    decreases s.len() - i,
{
    if i < 0 || i + 2 > s.len() {
        Seq::empty()
    } else if s[i] == '<' && s[i + 1] == '<' && find_close(s, i + 2) is Some && payload_ok(
        s.subrange(i + 2, find_close(s, i + 2)->Some_0),
    ) {
        let k = find_close(s, i + 2)->Some_0;
        if k < i + 2 || k + 2 > s.len() {
            Seq::empty()
        } else {
            seq![(i, k)] + spec_matches(s, k + 2)
        }
    } else {
        spec_matches(s, i + 1)
    }
}

/// The first reference marker of `s` at or after `from`, executably, with
/// the rest of the match list pinned down.
pub fn find_first_match(s: &Vec<char>, from: usize) -> (r: Option<(usize, usize)>)
    requires
        from <= s@.len(),
    ensures
        match r {
            Some((st, k)) => from <= st && st + 2 <= k && k + 2 <= s@.len() && spec_matches(
                s@,
                from as int,
            ) == seq![(st as int, k as int)] + spec_matches(s@, k + 2),
            None => spec_matches(s@, from as int) == Seq::<(int, int)>::empty(),
        },
{
    let mut i: usize = from;
    while i < s.len()
        invariant
            from <= i <= s@.len(),
            spec_matches(s@, from as int) == spec_matches(s@, i as int),
        decreases s@.len() - i,
    {
        if i + 1 < s.len() && s[i] == '<' && s[i + 1] == '<' {
            match find_close_at(s, i + 2) {
                Some(k) => {
                    let payload = crate::chars::subchars(s, i + 2, k);
                    if payload_check(&payload) {
                        return Some((i, k));
                    }
                },
                None => {},
            }
        }
        i += 1;
    }
    None
}

/// A standalone reference line: optional leading whitespace, then exactly
/// one reference marker filling the rest of the line. Yields the leading
/// whitespace width.
pub open spec fn spec_standalone(line: Seq<char>) -> Option<int> {
    let a = space_run(line, 0) as int;
    if a + 4 <= line.len() && line[a] == '<' && line[a + 1] == '<' && line[line.len() - 2] == '>'
        && line[line.len() - 1] == '>' && payload_ok(line.subrange(a + 2, line.len() - 2)) {
        Some(a)
    } else {
        None
    }
}

/// Recognizes a standalone reference line; yields the leading whitespace
/// width and the payload bounds.
pub fn standalone_line(line: &Vec<char>) -> (r: Option<(usize, usize, usize)>)
    ensures
        match r {
            Some((a, ps, pe)) => Some(a as int) == spec_standalone(line@) && ps == a + 2 && pe + 2
                == line@.len() && ps <= pe,
            None => spec_standalone(line@) is None,
        },
{
    let a = scan_space_end(line, 0);
    proof {
        lemma_space_run_bound(line@, 0);
    }
    let n = line.len();
    if n >= 4 && a <= n - 4 && line[a] == '<' && line[a + 1] == '<' && line[n - 2] == '>' && line[n
        - 1] == '>' {
        let payload = crate::chars::subchars(line, a + 2, n - 2);
        if payload_check(&payload) {
            Some((a, a + 2, n - 2))
        } else {
            None
        }
    } else {
        None
    }
}

} // verus!

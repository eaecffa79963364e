//! Indentation measures of block bodies, and the law that dedenting a block
//! body by its minimum indentation is idempotent.

use vstd::prelude::*;

use crate::chars::is_space_char;
use crate::token::{lemma_space_run_bound, space_run};

verus! {

/// A line's indentation: the width of its leading whitespace.
pub open spec fn indent_of(line: Seq<char>) -> int {
    space_run(line, 0) as int
}

/// A line of whitespace alone.
pub open spec fn is_blank(line: Seq<char>) -> bool {
    space_run(line, 0) == line.len()
}

/// The minimum indentation over the non-blank lines, if any.
pub open spec fn min_indent(lines: Seq<Seq<char>>) -> Option<int>
    decreases lines.len(),
{
    if lines.len() == 0 {
        None
    } else {
        let l = lines.last();
        let rest = min_indent(lines.drop_last());
        if is_blank(l) {
            rest
        } else {
            match rest {
                None => Some(indent_of(l)),
                Some(m) => Some(
                    if indent_of(l) < m {
                        indent_of(l)
                    } else {
                        m
                    },
                ),
            }
        }
    }
}

/// One line dedented by `m`: the first `m` characters go; a shorter line
/// becomes empty.
pub open spec fn strip_line(l: Seq<char>, m: int) -> Seq<char> {
    if 0 <= m <= l.len() {
        l.skip(m)
    } else {
        Seq::empty()
    }
}

/// A body dedented by `m`, line by line.
pub open spec fn strip_lines(lines: Seq<Seq<char>>, m: int) -> Seq<Seq<char>> {
    lines.map_values(|l: Seq<char>| strip_line(l, m))
}

/// Skipping shifts the whitespace measure's origin.
pub proof fn lemma_space_run_shift(l: Seq<char>, m: int, i: int)
    requires
        0 <= m,
        0 <= i,
        m + i <= l.len(),
    ensures
        space_run(l.skip(m), i) == space_run(l, m + i),
    decreases l.len() - (m + i),
{
    assert(l.skip(m).len() == l.len() - m);
    if i < l.skip(m).len() {
        assert(l.skip(m)[i] == l[m + i]);
        if is_space_char(l[m + i]) {
            lemma_space_run_shift(l, m, i + 1);
        }
    }
}

/// Within the leading whitespace run, the measure falls linearly.
pub proof fn lemma_space_run_mid(l: Seq<char>, j: int)
    requires
        0 <= j <= space_run(l, 0),
    ensures
        space_run(l, j) == space_run(l, 0) - j,
    decreases j,
{
    lemma_space_run_bound(l, 0);
    if j > 0 {
        lemma_space_run_mid(l, j - 1);
        assert(is_space_char(l[j - 1]));
    }
}

/// The minimum indentation is what its name says: a lower bound on the
/// non-blank lines' indentations, attained by one of them; it is absent
/// exactly when every line is blank.
pub proof fn lemma_min_indent_props(lines: Seq<Seq<char>>)
    ensures
        min_indent(lines) is None <==> (forall|j: int|
            0 <= j < lines.len() ==> is_blank(#[trigger] lines[j])),
        min_indent(lines) matches Some(m) ==> {
            &&& m >= 0
            &&& forall|j: int|
                0 <= j < lines.len() && !is_blank(#[trigger] lines[j]) ==> indent_of(lines[j]) >= m
            &&& exists|j: int|
                0 <= j < lines.len() && !is_blank(#[trigger] lines[j]) && indent_of(lines[j]) == m
        },
    decreases lines.len(),
{
    if lines.len() > 0 {
        lemma_min_indent_props(lines.drop_last());
        let l = lines.last();
        assert forall|j: int| 0 <= j < lines.len() - 1 implies lines.drop_last()[j] == lines[j] by {}
        match min_indent(lines) {
            Some(m) => {
                if !is_blank(l) && indent_of(l) == m {
                    assert(0 <= lines.len() - 1 < lines.len() && !is_blank(lines[lines.len() - 1])
                        && indent_of(lines[lines.len() - 1]) == m);
                } else {
                    let j0 = choose|j: int|
                        0 <= j < lines.drop_last().len() && !is_blank(
                            #[trigger] lines.drop_last()[j],
                        ) && indent_of(lines.drop_last()[j]) == m;
                    assert(0 <= j0 < lines.len() && !is_blank(lines[j0]) && indent_of(lines[j0])
                        == m);
                }
            },
            None => {},
        }
    }
}

/// Law (idempotence of dedenting): stripping a block body's minimum
/// indentation from each line, then re-measuring the result's minimum
/// indentation, yields zero.
pub proof fn lemma_dedent_idempotent(lines: Seq<Seq<char>>)
    requires
        min_indent(lines) is Some,
    ensures
        min_indent(strip_lines(lines, min_indent(lines)->Some_0)) == Some(0int),
{
    let m = min_indent(lines)->Some_0;
    let ss = strip_lines(lines, m);
    lemma_min_indent_props(lines);
    assert(ss.len() == lines.len());
    assert forall|j: int| 0 <= j < lines.len() implies ({
        &&& is_blank(#[trigger] lines[j]) ==> is_blank(ss[j])
        &&& !is_blank(lines[j]) ==> !is_blank(ss[j]) && indent_of(ss[j]) == indent_of(lines[j]) - m
    }) by {
        let l = lines[j];
        assert(ss[j] == strip_line(l, m));
        lemma_space_run_bound(l, 0);
        if is_blank(l) {
            if m <= l.len() {
                lemma_space_run_shift(l, m, 0);
                lemma_space_run_mid(l, m);
            }
        } else {
            assert(indent_of(l) >= m);
            assert(indent_of(l) < l.len());
            lemma_space_run_shift(l, m, 0);
            lemma_space_run_mid(l, m);
        }
    }
    lemma_min_indent_props(ss);
    let j0 = choose|j: int|
        0 <= j < lines.len() && !is_blank(#[trigger] lines[j]) && indent_of(lines[j]) == m;
    assert(!is_blank(ss[j0]) && indent_of(ss[j0]) == 0);
    assert(min_indent(ss) is Some);
    let m2 = min_indent(ss)->Some_0;
    assert(m2 <= 0) by {
        assert(indent_of(ss[j0]) >= m2);
    }
    let j1 = choose|j: int|
        0 <= j < ss.len() && !is_blank(#[trigger] ss[j]) && indent_of(ss[j]) == m2;
    assert(m2 >= 0) by {
        assert(!is_blank(lines[j1]));
        assert(indent_of(ss[j1]) == indent_of(lines[j1]) - m >= 0);
    }
}

} // verus!

//! The line splitter and the block driver: they walk grammar text,
//! discover production boundaries, split right-hand-side lines into literal
//! text and reference chunks, and register finished productions.

use vstd::prelude::*;

use crate::ast::{Chunk, Diag, DiagKind, Fatal, NonterminalRef, Order, PartialProductionRhs,
    Production, ProductionLhs, ProductionRhs};
use crate::builder::GrammarBuilder;
use crate::chars::{chars_of, subchars};
use crate::resolve::{args_buildable, nt_ref_matches, spec_lhs_parse, spec_ref_parse, VarsTable};
use crate::scan::{find_first_match, spec_matches, standalone_line};
use crate::token::scan_space_end;

verus! {

/// The payload text of one reference marker.
pub open spec fn match_payload(line: Seq<char>, m: (int, int)) -> Seq<char> {
    line.subrange(m.0 + 2, m.1)
}

/// Whether one marker's payload parses and resolves against the binders.
pub open spec fn match_ok(line: Seq<char>, m: (int, int), vars: Seq<Seq<char>>) -> bool {
    &&& spec_ref_parse(match_payload(line, m)) is Some
    &&& args_buildable(spec_ref_parse(match_payload(line, m))->Some_0.args, vars)
}

/// Whether every marker of a list parses and resolves.
pub open spec fn matches_ok(line: Seq<char>, ms: Seq<(int, int)>, vars: Seq<Seq<char>>) -> bool {
    forall|j: int| 0 <= j < ms.len() ==> match_ok(line, #[trigger] ms[j], vars)
}

/// A collected nonterminal entry mirrors a payload text: the reference
/// resolved, the order class as parsed.
pub open spec fn payload_entry_ok(
    e: (NonterminalRef, Order),
    p: Seq<char>,
    vars: Seq<Seq<char>>,
    texts: Seq<Seq<char>>,
    names: Seq<Seq<char>>,
) -> bool {
    &&& spec_ref_parse(p) is Some
    &&& nt_ref_matches(e.0, spec_ref_parse(p)->Some_0, vars, texts, names)
    &&& e.1 == spec_ref_parse(p)->Some_0.order
}

/// A collected nonterminal entry mirrors its marker's payload.
pub open spec fn nt_entry_ok(
    e: (NonterminalRef, Order),
    line: Seq<char>,
    m: (int, int),
    vars: Seq<Seq<char>>,
    texts: Seq<Seq<char>>,
    names: Seq<Seq<char>>,
) -> bool {
    payload_entry_ok(e, match_payload(line, m), vars, texts, names)
}

/// The reference payloads one body line contributes, in textual order: one
/// for a standalone reference line, one per marker otherwise, none for a
/// line shorter than the indentation.
pub open spec fn line_payloads(line: Seq<char>, indent: int) -> Seq<Seq<char>> {
    if line.len() < indent {
        Seq::empty()
    } else {
        let s = line.skip(indent);
        match crate::scan::spec_standalone(s) {
            Some(a) => seq![s.subrange(a + 2, s.len() - 2)],
            None => spec_matches(s, 0).map_values(|m: (int, int)| match_payload(s, m)),
        }
    }
}

/// The payloads of the first `end` body lines, in textual order.
pub open spec fn block_payloads(lines: Seq<Seq<char>>, indent: int, end: int) -> Seq<Seq<char>>
    decreases end,
{
    if end <= 0 || end > lines.len() {
        Seq::empty()
    } else {
        block_payloads(lines, indent, end - 1) + line_payloads(lines[end - 1], indent)
    }
}

/// The chunks one line contributes, from `from` on, given its marker list:
/// for each marker, the literal text before it (when nonempty, newline
/// clear) and its `Nt` chunk with the next index; after the last marker the
/// trailing text, kept exactly when it is nonempty or `full_line` is set,
/// carrying `full_line` as its newline flag.
pub open spec fn line_chunks_ok(
    cs: Seq<Chunk>,
    line: Seq<char>,
    from: int,
    ms: Seq<(int, int)>,
    full_line: bool,
    nt0: int,
    texts: Seq<Seq<char>>,
) -> bool
    decreases ms.len(),
{
    if ms.len() == 0 {
        if from < line.len() || full_line {
            &&& cs.len() == 1
            &&& cs[0] is Text
            &&& ((cs[0]->Text_0).0 as int) < texts.len()
            &&& texts[(cs[0]->Text_0).0 as int] == line.subrange(from, line.len() as int)
            &&& cs[0]->Text_1 == full_line
        } else {
            cs.len() == 0
        }
    } else {
        let m = ms[0];
        let head: int = if m.0 > from {
            2
        } else {
            1
        };
        &&& cs.len() >= head
        &&& (m.0 > from ==> cs[0] is Text && ((cs[0]->Text_0).0 as int) < texts.len() && texts[(
            cs[0]->Text_0).0 as int] == line.subrange(from, m.0) && cs[0]->Text_1 == false)
        &&& cs[head - 1] is Nt
        &&& (cs[head - 1]->Nt_0 as int) == nt0
        &&& line_chunks_ok(cs.skip(head), line, m.1 + 2, ms.skip(1), full_line, nt0 + 1, texts)
    }
}


/// Whether every payload of a list parses and resolves against the binders.
pub open spec fn payloads_ok(pays: Seq<Seq<char>>, vars: Seq<Seq<char>>) -> bool {
    forall|j: int|
        0 <= j < pays.len() ==> spec_ref_parse(#[trigger] pays[j]) is Some && args_buildable(
            spec_ref_parse(pays[j])->Some_0.args,
            vars,
        )
}

/// The chunks one body line contributes: a line shorter than the
/// indentation becomes one empty text chunk, with a newline unless it is
/// the body's last line; a standalone reference line becomes the four
/// chunks `Indent(a)`, `Nt`, `Indent(-a)`, `MagicNewline`; any other line
/// is split by the line splitter, with a newline on every line but the
/// last.
pub open spec fn block_line_chunks_ok(
    cs: Seq<Chunk>,
    line: Seq<char>,
    indent: int,
    last: bool,
    nt0: int,
    texts: Seq<Seq<char>>,
) -> bool {
    if line.len() < indent {
        &&& cs.len() == 1
        &&& cs[0] is Text
        &&& ((cs[0]->Text_0).0 as int) < texts.len()
        &&& texts[(cs[0]->Text_0).0 as int] == Seq::<char>::empty()
        &&& cs[0]->Text_1 == !last
    } else {
        let s = line.skip(indent);
        match crate::scan::spec_standalone(s) {
            Some(a) => {
                &&& cs.len() == 4
                &&& cs[0] is Indent
                &&& cs[1] is Nt
                &&& (cs[1]->Nt_0 as int) == nt0
                &&& cs[2] is Indent
                &&& cs[3] is MagicNewline
                &&& (a <= isize::MAX as int ==> (cs[0]->Indent_0 as int) == a && (
                cs[2]->Indent_0 as int) == -a)
            },
            None => line_chunks_ok(cs, s, 0, spec_matches(s, 0), !last, nt0, texts),
        }
    }
}

/// The chunks the first `end` body lines contribute, in line order; each
/// line's `Nt` chunks continue the numbering of the payloads before it.
/// `n` is the body's full length: only its last line takes no newline.
pub open spec fn block_chunks_ok(
    cs: Seq<Chunk>,
    lines: Seq<Seq<char>>,
    indent: int,
    end: int,
    n: int,
    texts: Seq<Seq<char>>,
) -> bool
    decreases end,
{
    if end <= 0 || end > lines.len() {
        cs.len() == 0
    } else {
        exists|h: int|
            0 <= h <= cs.len() && block_chunks_ok(
                #[trigger] cs.subrange(0, h),
                lines,
                indent,
                end - 1,
                n,
                texts,
            ) && block_line_chunks_ok(
                cs.skip(h),
                lines[end - 1],
                indent,
                end - 1 == n - 1,
                block_payloads(lines, indent, end - 1).len() as int,
                texts,
            )
    }
}

/// A longer body prefix only appends payloads.
pub proof fn lemma_block_payloads_prefix(lines: Seq<Seq<char>>, indent: int, a: int, b: int)
    requires
        0 <= a <= b <= lines.len(),
    ensures
        block_payloads(lines, indent, a).is_prefix_of(block_payloads(lines, indent, b)),
    decreases b,
{
    if a < b {
        lemma_block_payloads_prefix(lines, indent, a, b - 1);
        let pa = block_payloads(lines, indent, a);
        let pb1 = block_payloads(lines, indent, b - 1);
        let pb = block_payloads(lines, indent, b);
        assert(pb1.is_prefix_of(pb)) by {
            assert(pb.subrange(0, pb1.len() as int) =~= pb1);
        }
        lemma_prefix_trans(pa, pb1, pb);
    } else {
        assert(block_payloads(lines, indent, a).is_prefix_of(block_payloads(lines, indent, b)))
            by {
            assert(block_payloads(lines, indent, b).subrange(
                0,
                block_payloads(lines, indent, a).len() as int,
            ) =~= block_payloads(lines, indent, a));
        }
    }
}

/// A table prefix keeps every entry, so an index into the prefix reads the
/// same text in the extension.
pub proof fn lemma_prefix_index(t1: Seq<Seq<char>>, t2: Seq<Seq<char>>, i: int)
    requires
        t1.is_prefix_of(t2),
        0 <= i < t1.len(),
    ensures
        t2[i] == t1[i],
{
    assert(t2.subrange(0, t1.len() as int) == t1);
    assert(t2.subrange(0, t1.len() as int)[i] == t1[i]);
}


/// The chunk shape of a line survives extension of the interning table.
pub proof fn lemma_line_chunks_extend(
    cs: Seq<Chunk>,
    line: Seq<char>,
    from: int,
    ms: Seq<(int, int)>,
    full_line: bool,
    nt0: int,
    t1: Seq<Seq<char>>,
    t2: Seq<Seq<char>>,
)
    requires
        line_chunks_ok(cs, line, from, ms, full_line, nt0, t1),
        t1.is_prefix_of(t2),
    ensures
        line_chunks_ok(cs, line, from, ms, full_line, nt0, t2),
    decreases ms.len(),
{
    if ms.len() == 0 {
        if from < line.len() || full_line {
            lemma_prefix_index(t1, t2, (cs[0]->Text_0).0 as int);
        }
    } else {
        let m = ms[0];
        let head: int = if m.0 > from {
            2
        } else {
            1
        };
        if m.0 > from {
            lemma_prefix_index(t1, t2, (cs[0]->Text_0).0 as int);
        }
        lemma_line_chunks_extend(cs.skip(head), line, m.1 + 2, ms.skip(1), full_line, nt0 + 1, t1, t2);
    }
}

/// The chunk shape of one body line survives extension of the interning
/// table.
pub proof fn lemma_block_line_chunks_extend(
    cs: Seq<Chunk>,
    line: Seq<char>,
    indent: int,
    last: bool,
    nt0: int,
    t1: Seq<Seq<char>>,
    t2: Seq<Seq<char>>,
)
    requires
        block_line_chunks_ok(cs, line, indent, last, nt0, t1),
        t1.is_prefix_of(t2),
    ensures
        block_line_chunks_ok(cs, line, indent, last, nt0, t2),
{
    if line.len() < indent {
        lemma_prefix_index(t1, t2, (cs[0]->Text_0).0 as int);
    } else {
        let s = line.skip(indent);
        match crate::scan::spec_standalone(s) {
            Some(_) => {},
            None => {
                lemma_line_chunks_extend(cs, s, 0, spec_matches(s, 0), !last, nt0, t1, t2);
            },
        }
    }
}

/// The chunk shape of a body prefix survives extension of the interning
/// table.
pub proof fn lemma_block_chunks_extend(
    cs: Seq<Chunk>,
    lines: Seq<Seq<char>>,
    indent: int,
    end: int,
    n: int,
    t1: Seq<Seq<char>>,
    t2: Seq<Seq<char>>,
)
    requires
        block_chunks_ok(cs, lines, indent, end, n, t1),
        t1.is_prefix_of(t2),
    ensures
        block_chunks_ok(cs, lines, indent, end, n, t2),
    decreases end,
{
    if 0 < end <= lines.len() {
        let h = choose|h: int|
            0 <= h <= cs.len() && block_chunks_ok(
                #[trigger] cs.subrange(0, h),
                lines,
                indent,
                end - 1,
                n,
                t1,
            ) && block_line_chunks_ok(
                cs.skip(h),
                lines[end - 1],
                indent,
                end - 1 == n - 1,
                block_payloads(lines, indent, end - 1).len() as int,
                t1,
            );
        lemma_block_chunks_extend(cs.subrange(0, h), lines, indent, end - 1, n, t1, t2);
        lemma_block_line_chunks_extend(
            cs.skip(h),
            lines[end - 1],
            indent,
            end - 1 == n - 1,
            block_payloads(lines, indent, end - 1).len() as int,
            t1,
            t2,
        );
    }
}

/// Prefix extension is transitive.
pub proof fn lemma_prefix_trans(a: Seq<Seq<char>>, b: Seq<Seq<char>>, c: Seq<Seq<char>>)
    requires
        a.is_prefix_of(b),
        b.is_prefix_of(c),
    ensures
        a.is_prefix_of(c),
{
    assert(c.subrange(0, a.len() as int) =~= a) by {
        assert forall|i: int| 0 <= i < a.len() implies c[i] == a[i] by {
            assert(b.subrange(0, a.len() as int)[i] == a[i]);
            assert(c.subrange(0, b.len() as int)[i] == b[i]);
        }
        assert forall|i: int| 0 <= i < a.len() implies c.subrange(0, a.len() as int)[i] == a[i] by {
            assert(c.subrange(0, a.len() as int)[i] == c[i]);
        }
    }
}

/// Table extension is transitive.
pub proof fn lemma_extends_trans(a: GrammarBuilder, b: GrammarBuilder, c: GrammarBuilder)
    requires
        b.extends(a),
        c.extends(b),
    ensures
        c.extends(a),
{
    lemma_prefix_trans(a.texts_view(), b.texts_view(), c.texts_view());
    lemma_prefix_trans(a.names_view(), b.names_view(), c.names_view());
}

/// A resolved entry stays resolved when both tables are extended.
pub proof fn lemma_payload_entry_extend(
    e: (NonterminalRef, Order),
    p0: Seq<char>,
    vars: Seq<Seq<char>>,
    t1: Seq<Seq<char>>,
    t2: Seq<Seq<char>>,
    n1: Seq<Seq<char>>,
    n2: Seq<Seq<char>>,
)
    requires
        payload_entry_ok(e, p0, vars, t1, n1),
        t1.is_prefix_of(t2),
        n1.is_prefix_of(n2),
    ensures
        payload_entry_ok(e, p0, vars, t2, n2),
{
    let p = spec_ref_parse(p0)->Some_0;
    lemma_prefix_index(n1, n2, e.0.id.0 as int);
    assert forall|i: int| 0 <= i < p.args.len() implies crate::resolve::ty_matches(
        e.0.args@[i],
        #[trigger] p.args[i],
        vars,
        t2,
    ) by {
        crate::resolve::lemma_ty_matches_extend(e.0.args@[i], p.args[i], vars, t1, t2);
    }
}

/// A resolved entry stays resolved when both tables are extended.
pub proof fn lemma_nt_entry_extend(
    e: (NonterminalRef, Order),
    line: Seq<char>,
    m: (int, int),
    vars: Seq<Seq<char>>,
    t1: Seq<Seq<char>>,
    t2: Seq<Seq<char>>,
    n1: Seq<Seq<char>>,
    n2: Seq<Seq<char>>,
)
    requires
        nt_entry_ok(e, line, m, vars, t1, n1),
        t1.is_prefix_of(t2),
        n1.is_prefix_of(n2),
    ensures
        nt_entry_ok(e, line, m, vars, t2, n2),
{
    lemma_payload_entry_extend(e, match_payload(line, m), vars, t1, t2, n1, n2);
}

impl GrammarBuilder {
    /// Splits `line` from `from` on into literal-text chunks and reference
    /// chunks, appending to `prod`; each reference is resolved and collected.
    /// Fails exactly when some marker's payload does not parse or resolve.
    fn parse_line_from(
        &mut self,
        prod: &mut PartialProductionRhs,
        line: &Vec<char>,
        from: usize,
        full_line: bool,
        vars: &VarsTable,
    ) -> (r: Result<(), Fatal>)
        requires
            old(self).wf(),
            old(prod).wf(),
            from <= line@.len(),
        ensures
            final(self).wf(),
            final(self).extends(*old(self)),
            final(self).prods@ == old(self).prods@,
            r is Ok <==> matches_ok(line@, spec_matches(line@, from as int), vars.names()),
            r is Ok ==> ({
                let ms = spec_matches(line@, from as int);
                &&& final(prod).wf()
                &&& final(prod).nts@.len() == old(prod).nts@.len() + ms.len()
                &&& final(prod).nts@.subrange(0, old(prod).nts@.len() as int) == old(prod).nts@
                &&& forall|j: int|
                    0 <= j < ms.len() ==> nt_entry_ok(
                        #[trigger] final(prod).nts@[old(prod).nts@.len() + j],
                        line@,
                        ms[j],
                        vars.names(),
                        final(self).texts_view(),
                        final(self).names_view(),
                    )
                &&& final(prod).chunks@.len() >= old(prod).chunks@.len()
                &&& final(prod).chunks@.subrange(0, old(prod).chunks@.len() as int) == old(
                    prod,
                ).chunks@
                &&& line_chunks_ok(
                    final(prod).chunks@.skip(old(prod).chunks@.len() as int),
                    line@,
                    from as int,
                    ms,
                    full_line,
                    old(prod).nts@.len() as int,
                    final(self).texts_view(),
                )
            }),
        decreases line@.len() - from,
    {
        let ghost ms = spec_matches(line@, from as int);
        match find_first_match(line, from) {
            None => {
                if from < line.len() || full_line {
                    let s = subchars(line, from, line.len());
                    let id = self.intern_text(&s);
                    prod.chunks.push(Chunk::Text(id, full_line));
                    proof {
                        assert(prod.chunks@.skip(old(prod).chunks@.len() as int)
                            =~= seq![Chunk::Text(id, full_line)]);
                        assert(prod.chunks@.subrange(0, old(prod).chunks@.len() as int)
                            =~= old(prod).chunks@);
                        assert(prod.nts@.subrange(0, old(prod).nts@.len() as int)
                            =~= old(prod).nts@);
                    }
                } else {
                    proof {
                        assert(prod.chunks@.skip(old(prod).chunks@.len() as int)
                            =~= Seq::<Chunk>::empty());
                        assert(prod.chunks@.subrange(0, old(prod).chunks@.len() as int)
                            =~= old(prod).chunks@);
                        assert(prod.nts@.subrange(0, old(prod).nts@.len() as int)
                            =~= old(prod).nts@);
                    }
                }
                Ok(())
            },
            Some((st, k)) => {
                let ghost tail = spec_matches(line@, k + 2);
                proof {
                    assert(ms == seq![(st as int, k as int)] + tail);
                    assert(ms[0] == (st as int, k as int));
                    assert(ms.len() == 1 + tail.len());
                }
                let n = line.len();
                proof {
                    assert(k + 2 <= n);
                }
                let ghost chunks0 = prod.chunks@;
                let ghost nts0 = prod.nts@;
                if st > from {
                    let s = subchars(line, from, st);
                    let id = self.intern_text(&s);
                    prod.chunks.push(Chunk::Text(id, false));
                }
                let nt_idx = prod.nts.len();
                prod.chunks.push(Chunk::Nt(nt_idx));
                let payload = subchars(line, st + 2, k);
                let ghost texts_a = self.texts_view();
                let ghost names_a = self.names_view();
                let entry = match self.parse_nonterminal_ref(&payload, vars) {
                    Ok(x) => x,
                    Err(e) => {
                        proof {
                            assert(payload@ == match_payload(line@, ms[0]));
                            assert(!match_ok(line@, ms[0], vars.names()));
                        }
                        return Err(e);
                    },
                };
                let ghost entry_g = entry;
                prod.nts.push((entry.0, entry.1));
                let ghost texts_b = self.texts_view();
                let ghost names_b = self.names_view();
                let ghost chunks_mid = prod.chunks@;
                let ghost nts_mid = prod.nts@;
                let res = self.parse_line_from(prod, line, k + 2, full_line, vars);
                match res {
                    Ok(()) => {
                        proof {
                            assert(texts_b.is_prefix_of(self.texts_view()));
                            assert(names_b.is_prefix_of(self.names_view()));
                            assert(texts_a.is_prefix_of(self.texts_view()));
                            assert(names_a.is_prefix_of(self.names_view()));
                            // The head entry, extended to the final tables.
                            assert(payload@ == match_payload(line@, ms[0]));
                            lemma_nt_entry_extend(
                                entry_g,
                                line@,
                                ms[0],
                                vars.names(),
                                texts_b,
                                self.texts_view(),
                                names_b,
                                self.names_view(),
                            );
                            // Old prefixes are kept through the recursion.
                            assert(prod.chunks@.subrange(0, chunks_mid.len() as int)
                                == chunks_mid);
                            assert forall|t: int| 0 <= t < chunks_mid.len() implies
                                prod.chunks@[t] == chunks_mid[t] by {
                                assert(prod.chunks@.subrange(0, chunks_mid.len() as int)[t]
                                    == chunks_mid[t]);
                            }
                            assert(prod.chunks@.subrange(0, chunks0.len() as int)
                                =~= chunks0);
                            assert(prod.nts@.subrange(0, nts_mid.len() as int) == nts_mid);
                            assert forall|t: int| 0 <= t < nts_mid.len() implies
                                prod.nts@[t] == nts_mid[t] by {
                                assert(prod.nts@.subrange(0, nts_mid.len() as int)[t]
                                    == nts_mid[t]);
                            }
                            assert(prod.nts@.subrange(0, nts0.len() as int) =~= nts0);
                            // The collected entries line up with the match list.
                            assert(nts_mid == nts0.push(entry_g));
                            assert(prod.nts@.len() == nts0.len() + ms.len());
                            assert(nts_mid[nts0.len() as int] == entry_g);
                            assert(prod.nts@.subrange(0, nts_mid.len() as int)[nts0.len() as int]
                                == nts_mid[nts0.len() as int]);
                            assert(prod.nts@[nts0.len() as int] == entry_g);
                            assert forall|j: int| 0 <= j < ms.len() implies nt_entry_ok(
                                #[trigger] prod.nts@[nts0.len() + j],
                                line@,
                                ms[j],
                                vars.names(),
                                self.texts_view(),
                                self.names_view(),
                            ) by {
                                if j > 0 {
                                    assert(ms[j] == tail[j - 1]);
                                    assert(prod.nts@[nts_mid.len() + (j - 1)]
                                        == prod.nts@[nts0.len() + j]);
                                }
                            }
                            // The appended chunks have the required shape.
                            let appended = prod.chunks@.skip(chunks0.len() as int);
                            let head: int = if st > from { 2int } else { 1int };
                            assert(chunks_mid.len() == chunks0.len() + head);
                            assert(appended.len() >= head);
                            if st > from {
                                assert(appended[0] == prod.chunks@[chunks0.len() as int]);
                                assert(appended[0] == chunks_mid[chunks0.len() as int]);
                                lemma_prefix_index(texts_a, self.texts_view(),
                                    (appended[0]->Text_0).0 as int);
                            }
                            assert(appended[head - 1] == prod.chunks@[chunks0.len() + head
                                - 1]);
                            assert(appended[head - 1] == chunks_mid[chunks0.len() + head - 1]);
                            assert(appended.skip(head) =~= prod.chunks@.skip(
                                chunks_mid.len() as int,
                            ));
                            assert(ms.skip(1) =~= tail);
                            assert(line_chunks_ok(appended, line@, from as int, ms, full_line,
                                nts0.len() as int, self.texts_view()));
                            assert(matches_ok(line@, ms, vars.names()));
                        }
                        Ok(())
                    },
                    Err(e) => {
                        proof {
                            let bad = choose|j: int|
                                0 <= j < tail.len() && !match_ok(line@, #[trigger] tail[j], vars.names());
                            assert(ms[bad + 1] == tail[bad]);
                            assert(!matches_ok(line@, ms, vars.names()));
                        }
                        Err(e)
                    },
                }
            },
        }
    }

    /// Splits one line into literal-text chunks and reference chunks,
    /// appending to `prod`. When `full_line` is set the line always ends
    /// with a text chunk whose newline flag is set, even an empty one.
    pub fn parse_line(
        &mut self,
        prod: &mut PartialProductionRhs,
        line: &Vec<char>,
        full_line: bool,
        vars: &VarsTable,
    ) -> (r: Result<(), Fatal>)
        requires
            old(self).wf(),
            old(prod).wf(),
        ensures
            final(self).wf(),
            final(self).extends(*old(self)),
            final(self).prods@ == old(self).prods@,
            r is Ok <==> matches_ok(line@, spec_matches(line@, 0), vars.names()),
            r is Ok ==> ({
                let ms = spec_matches(line@, 0);
                &&& final(prod).wf()
                &&& final(prod).nts@.len() == old(prod).nts@.len() + ms.len()
                &&& final(prod).nts@.subrange(0, old(prod).nts@.len() as int) == old(prod).nts@
                &&& forall|j: int|
                    0 <= j < ms.len() ==> nt_entry_ok(
                        #[trigger] final(prod).nts@[old(prod).nts@.len() + j],
                        line@,
                        ms[j],
                        vars.names(),
                        final(self).texts_view(),
                        final(self).names_view(),
                    )
                &&& final(prod).chunks@.len() >= old(prod).chunks@.len()
                &&& final(prod).chunks@.subrange(0, old(prod).chunks@.len() as int) == old(
                    prod,
                ).chunks@
                &&& line_chunks_ok(
                    final(prod).chunks@.skip(old(prod).chunks@.len() as int),
                    line@,
                    0,
                    ms,
                    full_line,
                    old(prod).nts@.len() as int,
                    final(self).texts_view(),
                )
            }),
    {
        self.parse_line_from(prod, line, 0, full_line, vars)
    }
}



/// A resolved reference stays resolved when both tables are extended.
pub proof fn lemma_nt_ref_matches_extend(
    nt: NonterminalRef,
    p: crate::parser::ParsedNtV,
    vars: Seq<Seq<char>>,
    t1: Seq<Seq<char>>,
    t2: Seq<Seq<char>>,
    n1: Seq<Seq<char>>,
    n2: Seq<Seq<char>>,
)
    requires
        nt_ref_matches(nt, p, vars, t1, n1),
        t1.is_prefix_of(t2),
        n1.is_prefix_of(n2),
    ensures
        nt_ref_matches(nt, p, vars, t2, n2),
{
    lemma_prefix_index(n1, n2, nt.id.0 as int);
    assert forall|i: int| 0 <= i < p.args.len() implies crate::resolve::ty_matches(
        nt.args@[i],
        #[trigger] p.args[i],
        vars,
        t2,
    ) by {
        crate::resolve::lemma_ty_matches_extend(nt.args@[i], p.args[i], vars, t1, t2);
    }
}

/// A built left-hand side mirrors its parsed form: the binder names
/// interned in order, the head reference resolved against the binders.
pub open spec fn lhs_matches(
    lhs: ProductionLhs,
    p: crate::parser::ParsedLhsV,
    texts: Seq<Seq<char>>,
    names: Seq<Seq<char>>,
) -> bool {
    &&& lhs.vars@.len() == p.vars.len()
    &&& forall|k: int|
        0 <= k < p.vars.len() ==> ((#[trigger] lhs.vars@[k]).0 as int) < texts.len()
            && texts[lhs.vars@[k].0 as int] == p.vars[k]
    &&& nt_ref_matches(lhs.nt, p.nt, p.vars, texts, names)
}

/// A built left-hand side stays built when both tables are extended.
pub proof fn lemma_lhs_matches_extend(
    lhs: ProductionLhs,
    p: crate::parser::ParsedLhsV,
    t1: Seq<Seq<char>>,
    t2: Seq<Seq<char>>,
    n1: Seq<Seq<char>>,
    n2: Seq<Seq<char>>,
)
    requires
        lhs_matches(lhs, p, t1, n1),
        t1.is_prefix_of(t2),
        n1.is_prefix_of(n2),
    ensures
        lhs_matches(lhs, p, t2, n2),
{
    assert forall|k: int|
        0 <= k < p.vars.len() implies ((#[trigger] lhs.vars@[k]).0 as int) < t2.len()
        && t2[lhs.vars@[k].0 as int] == p.vars[k] by {
        lemma_prefix_index(t1, t2, lhs.vars@[k].0 as int);
    }
    lemma_nt_ref_matches_extend(lhs.nt, p.nt, p.vars, t1, t2, n1, n2);
}

/// A finished right-hand side arises from pre-reorder parts: the
/// nonterminals are the stable three-way partition of `pn`, and the chunks
/// are `pc` with every `Nt` index remapped into the new order.
pub open spec fn rhs_from_parts(
    rhs: ProductionRhs,
    pc: Seq<Chunk>,
    pn: Seq<crate::reorder::NtEntry>,
) -> bool {
    &&& rhs.nts@ == crate::reorder::reordered(pn)
    &&& rhs.chunks@.len() == pc.len()
    &&& forall|j: int| 0 <= j < pc.len() && !(pc[j] is Nt) ==> rhs.chunks@[j] == pc[j]
    &&& forall|j: int|
        0 <= j < pc.len() && pc[j] is Nt ==> rhs.chunks@[j] is Nt && (
        rhs.chunks@[j]->Nt_0 as int) == crate::reorder::new_index_of(pn, pc[j]->Nt_0 as int)
}

/// A finished right-hand side built by the line splitter from one line of
/// text, then reordered.
pub open spec fn rhs_matches_single(
    rhs: ProductionRhs,
    after: Seq<char>,
    vars: Seq<Seq<char>>,
    texts: Seq<Seq<char>>,
    names: Seq<Seq<char>>,
) -> bool {
    exists|pc: Seq<Chunk>, pn: Seq<crate::reorder::NtEntry>|
        {
            &&& line_chunks_ok(pc, after, 0, spec_matches(after, 0), false, 0, texts)
            &&& pn.len() == spec_matches(after, 0).len()
            &&& forall|j: int|
                0 <= j < pn.len() ==> nt_entry_ok(
                    #[trigger] pn[j],
                    after,
                    spec_matches(after, 0)[j],
                    vars,
                    texts,
                    names,
                )
            &&& rhs_from_parts(rhs, pc, pn)
        }
}

/// A finished right-hand side built from a dedented block body, then
/// reordered.
pub open spec fn rhs_matches_block(
    rhs: ProductionRhs,
    body: Seq<Seq<char>>,
    indent: int,
    vars: Seq<Seq<char>>,
    texts: Seq<Seq<char>>,
    names: Seq<Seq<char>>,
) -> bool {
    exists|pc: Seq<Chunk>, pn: Seq<crate::reorder::NtEntry>|
        {
            &&& block_chunks_ok(pc, body, indent, body.len() as int, body.len() as int, texts)
            &&& pn.len() == block_payloads(body, indent, body.len() as int).len()
            &&& forall|j: int|
                0 <= j < pn.len() ==> payload_entry_ok(
                    #[trigger] pn[j],
                    block_payloads(body, indent, body.len() as int)[j],
                    vars,
                    texts,
                    names,
                )
            &&& rhs_from_parts(rhs, pc, pn)
        }
}

/// A single-line right-hand side stays built when the tables are extended.
pub proof fn lemma_rhs_matches_single_extend(
    rhs: ProductionRhs,
    after: Seq<char>,
    vars: Seq<Seq<char>>,
    t1: Seq<Seq<char>>,
    t2: Seq<Seq<char>>,
    n1: Seq<Seq<char>>,
    n2: Seq<Seq<char>>,
)
    requires
        rhs_matches_single(rhs, after, vars, t1, n1),
        t1.is_prefix_of(t2),
        n1.is_prefix_of(n2),
    ensures
        rhs_matches_single(rhs, after, vars, t2, n2),
{
    let (pc, pn) = choose|pc: Seq<Chunk>, pn: Seq<crate::reorder::NtEntry>|
        {
            &&& line_chunks_ok(pc, after, 0, spec_matches(after, 0), false, 0, t1)
            &&& pn.len() == spec_matches(after, 0).len()
            &&& forall|j: int|
                0 <= j < pn.len() ==> nt_entry_ok(
                    #[trigger] pn[j],
                    after,
                    spec_matches(after, 0)[j],
                    vars,
                    t1,
                    n1,
                )
            &&& rhs_from_parts(rhs, pc, pn)
        };
    lemma_line_chunks_extend(pc, after, 0, spec_matches(after, 0), false, 0, t1, t2);
    assert forall|j: int|
        0 <= j < pn.len() implies nt_entry_ok(
        #[trigger] pn[j],
        after,
        spec_matches(after, 0)[j],
        vars,
        t2,
        n2,
    ) by {
        lemma_nt_entry_extend(pn[j], after, spec_matches(after, 0)[j], vars, t1, t2, n1, n2);
    }
}

/// A block right-hand side stays built when the tables are extended.
pub proof fn lemma_rhs_matches_block_extend(
    rhs: ProductionRhs,
    body: Seq<Seq<char>>,
    indent: int,
    vars: Seq<Seq<char>>,
    t1: Seq<Seq<char>>,
    t2: Seq<Seq<char>>,
    n1: Seq<Seq<char>>,
    n2: Seq<Seq<char>>,
)
    requires
        rhs_matches_block(rhs, body, indent, vars, t1, n1),
        t1.is_prefix_of(t2),
        n1.is_prefix_of(n2),
    ensures
        rhs_matches_block(rhs, body, indent, vars, t2, n2),
{
    let (pc, pn) = choose|pc: Seq<Chunk>, pn: Seq<crate::reorder::NtEntry>|
        {
            &&& block_chunks_ok(pc, body, indent, body.len() as int, body.len() as int, t1)
            &&& pn.len() == block_payloads(body, indent, body.len() as int).len()
            &&& forall|j: int|
                0 <= j < pn.len() ==> payload_entry_ok(
                    #[trigger] pn[j],
                    block_payloads(body, indent, body.len() as int)[j],
                    vars,
                    t1,
                    n1,
                )
            &&& rhs_from_parts(rhs, pc, pn)
        };
    lemma_block_chunks_extend(pc, body, indent, body.len() as int, body.len() as int, t1, t2);
    assert forall|j: int|
        0 <= j < pn.len() implies payload_entry_ok(
        #[trigger] pn[j],
        block_payloads(body, indent, body.len() as int)[j],
        vars,
        t2,
        n2,
    ) by {
        lemma_payload_entry_extend(
            pn[j],
            block_payloads(body, indent, body.len() as int)[j],
            vars,
            t1,
            t2,
            n1,
            n2,
        );
    }
}

/// One discovered production: the trimmed left-hand-side text, and either a
/// trimmed single-line right-hand side or a block body with its dedent
/// width.
pub struct ProdShape {
    pub lhs: Seq<char>,
    pub single: Option<Seq<char>>,
    pub body: Seq<Seq<char>>,
    pub indent: int,
}

/// A registered production mirrors its source: the left-hand side built
/// from the lhs text, and the right-hand side built from the single-line
/// text or the dedented block body.
pub open spec fn prod_matches_shape(
    pr: Production,
    sh: ProdShape,
    texts: Seq<Seq<char>>,
    names: Seq<Seq<char>>,
) -> bool {
    &&& spec_lhs_parse(sh.lhs) is Some
    &&& lhs_matches(pr.lhs, spec_lhs_parse(sh.lhs)->Some_0, texts, names)
    &&& match sh.single {
        Some(after) => rhs_matches_single(
            pr.rhs,
            after,
            spec_lhs_parse(sh.lhs)->Some_0.vars,
            texts,
            names,
        ),
        None => rhs_matches_block(
            pr.rhs,
            sh.body,
            sh.indent,
            spec_lhs_parse(sh.lhs)->Some_0.vars,
            texts,
            names,
        ),
    }
}

/// A registered production stays mirrored when the tables are extended.
pub proof fn lemma_prod_matches_shape_extend(
    pr: Production,
    sh: ProdShape,
    t1: Seq<Seq<char>>,
    t2: Seq<Seq<char>>,
    n1: Seq<Seq<char>>,
    n2: Seq<Seq<char>>,
)
    requires
        prod_matches_shape(pr, sh, t1, n1),
        t1.is_prefix_of(t2),
        n1.is_prefix_of(n2),
    ensures
        prod_matches_shape(pr, sh, t2, n2),
{
    let p = spec_lhs_parse(sh.lhs)->Some_0;
    lemma_lhs_matches_extend(pr.lhs, p, t1, t2, n1, n2);
    match sh.single {
        Some(after) => {
            lemma_rhs_matches_single_extend(pr.rhs, after, p.vars, t1, t2, n1, n2);
        },
        None => {
            lemma_rhs_matches_block_extend(pr.rhs, sh.body, sh.indent, p.vars, t1, t2, n1, n2);
        },
    }
}

/// A run of registered productions stays mirrored when the tables are
/// extended.
pub proof fn lemma_prods_shapes_extend(
    prods: Seq<Production>,
    base: int,
    shapes: Seq<ProdShape>,
    t1: Seq<Seq<char>>,
    t2: Seq<Seq<char>>,
    n1: Seq<Seq<char>>,
    n2: Seq<Seq<char>>,
)
    requires
        0 <= base,
        base + shapes.len() <= prods.len(),
        forall|k: int|
            0 <= k < shapes.len() ==> prod_matches_shape(
                #[trigger] prods[base + k],
                shapes[k],
                t1,
                n1,
            ),
        t1.is_prefix_of(t2),
        n1.is_prefix_of(n2),
    ensures
        forall|k: int|
            0 <= k < shapes.len() ==> prod_matches_shape(
                #[trigger] prods[base + k],
                shapes[k],
                t2,
                n2,
            ),
{
    assert forall|k: int|
        0 <= k < shapes.len() implies prod_matches_shape(
        #[trigger] prods[base + k],
        shapes[k],
        t2,
        n2,
    ) by {
        lemma_prod_matches_shape_extend(prods[base + k], shapes[k], t1, t2, n1, n2);
    }
}

/// The views of the input lines.
pub open spec fn string_views(ls: Seq<String>) -> Seq<Seq<char>> {
    ls.map_values(|l: String| l@)
}

/// An open block in the driver's state: the trimmed left-hand-side text and
/// the extent gathered so far.
pub struct BlockSt {
    pub lhs: Seq<char>,
    pub start: int,
    pub end: int,
    pub min: int,
}

/// Whether closing a block succeeds: every payload of the dedented body
/// parses and resolves against the left-hand side's binders.
pub open spec fn close_ok(lv: Seq<Seq<char>>, b: BlockSt) -> bool {
    let body = lv.subrange(b.start, b.end);
    payloads_ok(
        block_payloads(body, b.min, body.len() as int),
        spec_lhs_parse(b.lhs)->Some_0.vars,
    )
}

/// The production a closed block yields: its lhs text and its body, the
/// lines of the gathered extent, to be dedented by the gathered minimum.
pub open spec fn block_shape(lv: Seq<Seq<char>>, b: BlockSt) -> ProdShape {
    ProdShape { lhs: b.lhs, single: None, body: lv.subrange(b.start, b.end), indent: b.min }
}

/// The block driver as a fold over the lines from `i` on: which productions
/// it registers, each with its source text, and which diagnostics it emits,
/// or `None` for a fatal failure. Blank lines inside a block are absorbed without widening
/// it; indented lines widen it and may lower its minimum indentation; the
/// first unindented line closes it and is processed again at top level,
/// where blank and comment lines are skipped, an indented line and a line
/// without the delimiter each earn a diagnostic, and a production line
/// either registers at once or opens a block. At end of input an open block
/// is closed with the extent gathered.
#[verifier::opaque]
pub open spec fn spec_drive(lv: Seq<Seq<char>>, i: int, blk: Option<BlockSt>) -> Option<
    (Seq<ProdShape>, Seq<Diag>),
>
    decreases lv.len() - i, (if blk is Some { 1int } else { 0int }),
{
    if i < 0 || i >= lv.len() {
        match blk {
            None => Some((Seq::empty(), Seq::empty())),
            Some(b) => if close_ok(lv, b) {
                Some((seq![block_shape(lv, b)], Seq::empty()))
            } else {
                None
            },
        }
    } else {
        let line = lv[i];
        let t0 = crate::token::space_run(line, 0) as int;
        match blk {
            Some(b) => {
                if t0 == line.len() {
                    spec_drive(lv, i + 1, blk)
                } else if t0 > 0 {
                    spec_drive(
                        lv,
                        i + 1,
                        Some(
                            BlockSt {
                                lhs: b.lhs,
                                start: b.start,
                                end: i + 1,
                                min: if t0 < b.min {
                                    t0
                                } else {
                                    b.min
                                },
                            },
                        ),
                    )
                } else if close_ok(lv, b) {
                    match spec_drive(lv, i, None) {
                        None => None,
                        Some((ps, ds)) => Some((seq![block_shape(lv, b)] + ps, ds)),
                    }
                } else {
                    None
                }
            },
            None => {
                if t0 == line.len() || (line.len() - t0 >= 2 && line[t0] == '/' && line[t0 + 1]
                    == '/') {
                    spec_drive(lv, i + 1, None)
                } else if t0 > 0 {
                    match spec_drive(lv, i + 1, None) {
                        None => None,
                        Some((ps, ds)) => Some(
                            (
                                ps,
                                seq![
                                    Diag {
                                        line: (i + 1) as usize,
                                        kind: DiagKind::IndentedOutsideBlock,
                                    },
                                ] + ds,
                            ),
                        ),
                    }
                } else {
                    match find_delim(line, 0) {
                        None => match spec_drive(lv, i + 1, None) {
                            None => None,
                            Some((ps, ds)) => Some(
                                (
                                    ps,
                                    seq![
                                        Diag {
                                            line: (i + 1) as usize,
                                            kind: DiagKind::ExpectedDelimiter,
                                        },
                                    ] + ds,
                                ),
                            ),
                        },
                        Some(d) => {
                            let before = trim_view(line, 0, d);
                            let after = trim_view(line, d + 3, line.len() as int);
                            match spec_lhs_parse(before) {
                                None => None,
                                Some(p) => if !args_buildable(p.nt.args, p.vars) {
                                    None
                                } else if after.len() == 0 {
                                    spec_drive(
                                        lv,
                                        i + 1,
                                        Some(
                                            BlockSt {
                                                lhs: before,
                                                start: i + 1,
                                                end: i + 1,
                                                min: usize::MAX as int,
                                            },
                                        ),
                                    )
                                } else if matches_ok(after, spec_matches(after, 0), p.vars) {
                                    match spec_drive(lv, i + 1, None) {
                                        None => None,
                                        Some((ps, ds)) => Some(
                                            (
                                                seq![
                                                    ProdShape {
                                                        lhs: before,
                                                        single: Some(after),
                                                        body: Seq::empty(),
                                                        indent: 0,
                                                    },
                                                ] + ps,
                                                ds,
                                            ),
                                        ),
                                    }
                                } else {
                                    None
                                },
                            }
                        },
                    }
                }
            },
        }
    }
}

/// A finished right-hand side's nonterminal list is a stable three-way
/// partition of some insertion-ordered list.
pub open spec fn rhs_reordered(p: Production) -> bool {
    exists|pn: Seq<crate::reorder::NtEntry>| p.rhs.nts@ == crate::reorder::reordered(pn)
}

/// A finished right-hand side is well formed: every `Nt` chunk points into
/// its nonterminal list.
pub open spec fn rhs_wf(rhs: ProductionRhs) -> bool {
    forall|j: int|
        0 <= j < rhs.chunks@.len() && rhs.chunks@[j] is Nt ==> (rhs.chunks@[j]->Nt_0 as int)
            < rhs.nts@.len()
}

/// The position of the first production delimiter at or after `i`.
pub open spec fn find_delim(s: Seq<char>, i: int) -> Option<int>
    decreases s.len() - i,
{
    if i < 0 || i + 3 > s.len() {
        None
    } else if s[i] == ':' && s[i + 1] == ':' && s[i + 2] == '=' {
        Some(i)
    } else {
        find_delim(s, i + 1)
    }
}

/// The position of the first production delimiter, executably.
pub fn find_delim_at(s: &Vec<char>) -> (r: Option<usize>)
    ensures
        match r {
            Some(d) => Some(d as int) == find_delim(s@, 0) && d + 3 <= s@.len() && s@[d as int]
                == ':' && s@[d as int + 1] == ':' && s@[d as int + 2] == '=',
            None => find_delim(s@, 0) is None,
        },
{
    let mut j: usize = 0;
    while j < s.len()
        invariant
            j <= s@.len(),
            find_delim(s@, 0) == find_delim(s@, j as int),
        decreases s@.len() - j,
    {
        if s.len() - j > 2 && s[j] == ':' && s[j + 1] == ':' && s[j + 2] == '=' {
            return Some(j);
        }
        j += 1;
    }
    None
}

/// Where the trimmed text begins: the first non-whitespace position of the
/// range, or its end.
pub open spec fn trim_lo(s: Seq<char>, from: int, to: int) -> int
    decreases to - from,
{
    if from >= to || !crate::chars::is_space_char(s[from]) {
        from
    } else {
        trim_lo(s, from + 1, to)
    }
}

/// Where the trimmed text ends: just past the last non-whitespace position
/// at or after `from`, or `from` itself.
pub open spec fn trim_hi(s: Seq<char>, from: int, to: int) -> int
    decreases to - from,
{
    if to <= from || !crate::chars::is_space_char(s[to - 1]) {
        to
    } else {
        trim_hi(s, from, to - 1)
    }
}

/// The text of `s[from .. to]` with leading and trailing whitespace removed.
pub open spec fn trim_view(s: Seq<char>, from: int, to: int) -> Seq<char> {
    s.subrange(trim_lo(s, from, to), trim_hi(s, trim_lo(s, from, to), to))
}

/// A copy of `v[from .. to]` with leading and trailing whitespace removed.
pub fn trim_slice(v: &Vec<char>, from: usize, to: usize) -> (r: Vec<char>)
    requires
        from <= to <= v@.len(),
    ensures
        r@ == trim_view(v@, from as int, to as int),
{
    let mut a: usize = from;
    while a < to && crate::chars::space_char(v[a])
        invariant
            from <= a <= to <= v@.len(),
            trim_lo(v@, from as int, to as int) == trim_lo(v@, a as int, to as int),
        decreases to - a,
    {
        a += 1;
    }
    proof {
        assert(trim_lo(v@, from as int, to as int) == a);
    }
    let mut b: usize = to;
    while b > a && crate::chars::space_char(v[b - 1])
        invariant
            a <= b <= to <= v@.len(),
            trim_hi(v@, a as int, to as int) == trim_hi(v@, a as int, b as int),
        decreases b,
    {
        b -= 1;
    }
    proof {
        assert(trim_hi(v@, a as int, to as int) == b);
    }
    subchars(v, a, b)
}

/// A production left-hand side waiting for its indented block body.
pub struct PendingBlock {
    pub lhs: ProductionLhs,
    pub vars: VarsTable,
    pub start_line: usize,
    pub end_line: usize,
    pub min_indent: usize,
    pub lhs_text: Ghost<Seq<char>>,
}

impl GrammarBuilder {
    /// The production list after one registration keeps the old entries and
    /// adds one whose right-hand side is well formed and already reordered.
    proof fn lemma_prods_extended(
        self,
        prev: Seq<Production>,
        base: int,
        rhs_nts: Seq<crate::reorder::NtEntry>,
    )
        requires
            0 <= base <= prev.len(),
            self.prods@.len() == prev.len() + 1,
            forall|p: int| 0 <= p < prev.len() ==> self.prods@[p] == prev[p],
            forall|p: int|
                base <= p < prev.len() ==> rhs_wf((#[trigger] prev[p]).rhs) && rhs_reordered(
                    prev[p],
                ),
            rhs_wf(self.prods@.last().rhs),
            self.prods@.last().rhs.nts@ == crate::reorder::reordered(rhs_nts),
        ensures
            forall|p: int|
                base <= p < self.prods@.len() ==> rhs_wf((#[trigger] self.prods@[p]).rhs)
                    && rhs_reordered(self.prods@[p]),
    {
        assert forall|p: int|
            base <= p < self.prods@.len() implies rhs_wf((#[trigger] self.prods@[p]).rhs)
            && rhs_reordered(self.prods@[p]) by {
            if p < prev.len() {
                assert(self.prods@[p] == prev[p]);
            } else {
                assert(self.prods@[p] == self.prods@.last());
                assert(self.prods@[p].rhs.nts@ == crate::reorder::reordered(rhs_nts));
            }
        }
    }

    /// Parses one block body, already dedented by `indent`: a line shorter
    /// than the indentation becomes an empty text chunk; a standalone
    /// reference line becomes `Indent`, `Nt`, `Indent`, `MagicNewline`
    /// chunks; any other line is split by the line splitter, with a newline
    /// on every line but the last. The collected references are reordered
    /// into their final evaluation order.
    #[verifier::rlimit(100)]
    pub fn parse_block(&mut self, lines: &Vec<Vec<char>>, indent: usize, vars: &VarsTable) -> (r:
        Result<ProductionRhs, Fatal>)
        requires
            old(self).wf(),
        ensures
            final(self).wf(),
            final(self).extends(*old(self)),
            final(self).prods@ == old(self).prods@,
            r is Ok <==> payloads_ok(
                block_payloads(crate::parser::char_views(lines@), indent as int, lines@.len() as int),
                vars.names(),
            ),
            r matches Ok(rhs) ==> (exists|pn: Seq<crate::reorder::NtEntry>|
                rhs.nts@ == crate::reorder::reordered(pn)),
            r matches Ok(rhs) ==> rhs_wf(rhs) && rhs_matches_block(
                rhs,
                crate::parser::char_views(lines@),
                indent as int,
                vars.names(),
                final(self).texts_view(),
                final(self).names_view(),
            ),
    {
        let ghost lv = crate::parser::char_views(lines@);
        let mut prod = PartialProductionRhs::new();
        let mut i: usize = 0;
        while i < lines.len()
            invariant
                i <= lines@.len(),
                lv == crate::parser::char_views(lines@),
                prod.wf(),
                old(self).wf(),
                self.wf(),
                self.extends(*old(self)),
                self.prods@ == old(self).prods@,
                prod.nts@.len() == block_payloads(lv, indent as int, i as int).len(),
                forall|j: int|
                    0 <= j < prod.nts@.len() ==> payload_entry_ok(
                        #[trigger] prod.nts@[j],
                        block_payloads(lv, indent as int, i as int)[j],
                        vars.names(),
                        self.texts_view(),
                        self.names_view(),
                    ),
                payloads_ok(block_payloads(lv, indent as int, i as int), vars.names()),
                block_chunks_ok(
                    prod.chunks@,
                    lv,
                    indent as int,
                    i as int,
                    lv.len() as int,
                    self.texts_view(),
                ),
            decreases lines@.len() - i,
        {
            let line = &lines[i];
            let newline = i < lines.len() - 1;
            let ghost self_iter = *self;
            let ghost nts_a = prod.nts@;
            let ghost pays_a = block_payloads(lv, indent as int, i as int);
            proof {
                assert(lv[i as int] == line@);
            }
            let ghost chunks_a = prod.chunks@;
            if line.len() < indent {
                let empty_text: Vec<char> = Vec::new();
                let id = self.intern_text(&empty_text);
                prod.chunks.push(Chunk::Text(id, newline));
                proof {
                    lemma_extends_trans(*old(self), self_iter, *self);
                    assert(line_payloads(lv[i as int], indent as int) =~= Seq::<Seq<char>>::empty());
                    assert(block_payloads(lv, indent as int, i + 1) =~= pays_a);
                    assert forall|j: int| 0 <= j < prod.nts@.len() implies payload_entry_ok(
                        #[trigger] prod.nts@[j],
                        pays_a[j],
                        vars.names(),
                        self.texts_view(),
                        self.names_view(),
                    ) by {
                        lemma_payload_entry_extend(
                            prod.nts@[j],
                            pays_a[j],
                            vars.names(),
                            self_iter.texts_view(),
                            self.texts_view(),
                            self_iter.names_view(),
                            self.names_view(),
                        );
                    }
                    lemma_block_chunks_extend(
                        chunks_a,
                        lv,
                        indent as int,
                        i as int,
                        lv.len() as int,
                        self_iter.texts_view(),
                        self.texts_view(),
                    );
                    assert(empty_text@ =~= Seq::<char>::empty());
                    assert(prod.chunks@.subrange(0, chunks_a.len() as int) =~= chunks_a);
                    assert(prod.chunks@.skip(chunks_a.len() as int) =~= seq![Chunk::Text(id, newline)]);
                    assert(block_line_chunks_ok(
                        prod.chunks@.skip(chunks_a.len() as int),
                        lv[i as int],
                        indent as int,
                        i + 1 == lv.len(),
                        pays_a.len() as int,
                        self.texts_view(),
                    ));
                    assert(block_chunks_ok(
                        prod.chunks@,
                        lv,
                        indent as int,
                        i + 1,
                        lv.len() as int,
                        self.texts_view(),
                    )) by {
                        let h = chunks_a.len() as int;
                        assert(block_chunks_ok(
                            prod.chunks@.subrange(0, h),
                            lv,
                            indent as int,
                            i as int,
                            lv.len() as int,
                            self.texts_view(),
                        ));
                        assert(block_line_chunks_ok(
                            prod.chunks@.skip(h),
                            lv[i as int],
                            indent as int,
                            i + 1 == lv.len(),
                            block_payloads(lv, indent as int, i as int).len() as int,
                            self.texts_view(),
                        ));
                    }
                }
            } else {
                let stripped = subchars(line, indent, line.len());
                proof {
                    assert(stripped@ == lv[i as int].skip(indent as int));
                }
                match standalone_line(&stripped) {
                    Some((amount, ps, pe)) => {
                        let payload = subchars(&stripped, ps, pe);
                        let entry = match self.parse_nonterminal_ref(&payload, vars) {
                            Ok(x) => {
                                proof {
                                    lemma_extends_trans(*old(self), self_iter, *self);
                                }
                                x
                            },
                            Err(e) => {
                                proof {
                                    lemma_extends_trans(*old(self), self_iter, *self);
                                    let pays_b = block_payloads(lv, indent as int, i + 1);
                                    assert(line_payloads(lv[i as int], indent as int)
                                        =~= seq![payload@]);
                                    assert(pays_b =~= pays_a.push(payload@));
                                    lemma_block_payloads_prefix(
                                        lv,
                                        indent as int,
                                        i + 1,
                                        lv.len() as int,
                                    );
                                    let pays_n = block_payloads(
                                        lv,
                                        indent as int,
                                        lv.len() as int,
                                    );
                                    lemma_prefix_index(pays_b, pays_n, pays_a.len() as int);
                                    assert(pays_n[pays_a.len() as int] == payload@);
                                    assert(!payloads_ok(pays_n, vars.names()));
                                }
                                return Err(e);
                            },
                        };
                        let ia: isize = #[verifier::truncate] (amount as isize);
                        let neg: isize = if ia == isize::MIN {
                            isize::MIN
                        } else {
                            -ia
                        };
                        let nt_idx = prod.nts.len();
                        prod.chunks.push(Chunk::Indent(ia));
                        prod.chunks.push(Chunk::Nt(nt_idx));
                        let ghost entry_g = entry;
                        prod.nts.push(entry);
                        prod.chunks.push(Chunk::Indent(neg));
                        prod.chunks.push(Chunk::MagicNewline);
                        proof {
                            let pays_b = block_payloads(lv, indent as int, i + 1);
                            assert(line_payloads(lv[i as int], indent as int) =~= seq![payload@]);
                            assert(pays_b =~= pays_a.push(payload@));
                            assert(prod.nts@ == nts_a.push(entry_g));
                            lemma_block_chunks_extend(
                                chunks_a,
                                lv,
                                indent as int,
                                i as int,
                                lv.len() as int,
                                self_iter.texts_view(),
                                self.texts_view(),
                            );
                            assert(prod.chunks@.subrange(0, chunks_a.len() as int) =~= chunks_a);
                            assert(prod.chunks@.skip(chunks_a.len() as int) =~= seq![
                                Chunk::Indent(ia),
                                Chunk::Nt(nt_idx),
                                Chunk::Indent(neg),
                                Chunk::MagicNewline,
                            ]);
                            assert(block_line_chunks_ok(
                                prod.chunks@.skip(chunks_a.len() as int),
                                lv[i as int],
                                indent as int,
                                i + 1 == lv.len(),
                                pays_a.len() as int,
                                self.texts_view(),
                            ));
                            assert(block_chunks_ok(
                                prod.chunks@,
                                lv,
                                indent as int,
                                i + 1,
                                lv.len() as int,
                                self.texts_view(),
                            )) by {
                                let h = chunks_a.len() as int;
                                assert(block_chunks_ok(
                                    prod.chunks@.subrange(0, h),
                                    lv,
                                    indent as int,
                                    i as int,
                                    lv.len() as int,
                                    self.texts_view(),
                                ));
                                assert(block_line_chunks_ok(
                                    prod.chunks@.skip(h),
                                    lv[i as int],
                                    indent as int,
                                    i + 1 == lv.len(),
                                    block_payloads(lv, indent as int, i as int).len() as int,
                                    self.texts_view(),
                                ));
                            }
                            assert forall|j: int| 0 <= j < prod.nts@.len() implies payload_entry_ok(
                                #[trigger] prod.nts@[j],
                                pays_b[j],
                                vars.names(),
                                self.texts_view(),
                                self.names_view(),
                            ) by {
                                if j < nts_a.len() {
                                    assert(prod.nts@[j] == nts_a[j]);
                                    assert(pays_b[j] == pays_a[j]);
                                    lemma_payload_entry_extend(
                                        nts_a[j],
                                        pays_a[j],
                                        vars.names(),
                                        self_iter.texts_view(),
                                        self.texts_view(),
                                        self_iter.names_view(),
                                        self.names_view(),
                                    );
                                } else {
                                    assert(prod.nts@[j] == entry_g);
                                    assert(pays_b[j] == payload@);
                                }
                            }
                        }
                    },
                    None => {
                        let ghost texts_b = self.texts_view();
                        let ghost names_b = self.names_view();
                        match self.parse_line(&mut prod, &stripped, newline, vars) {
                            Ok(()) => {
                                proof {
                                    lemma_extends_trans(*old(self), self_iter, *self);
                                    let ms = spec_matches(stripped@, 0);
                                    let pays_l = line_payloads(lv[i as int], indent as int);
                                    let pays_b = block_payloads(lv, indent as int, i + 1);
                                    assert(pays_l =~= ms.map_values(
                                        |m: (int, int)| match_payload(stripped@, m),
                                    ));
                                    assert(pays_b =~= pays_a + pays_l);
                                    assert(prod.nts@.len() == nts_a.len() + ms.len());
                                    assert forall|j: int| 0 <= j < prod.nts@.len() implies
                                        payload_entry_ok(
                                        #[trigger] prod.nts@[j],
                                        pays_b[j],
                                        vars.names(),
                                        self.texts_view(),
                                        self.names_view(),
                                    ) by {
                                        if j < nts_a.len() {
                                            assert(prod.nts@[j] == prod.nts@.subrange(
                                                0,
                                                nts_a.len() as int,
                                            )[j]);
                                            assert(prod.nts@[j] == nts_a[j]);
                                            assert(pays_b[j] == pays_a[j]);
                                            lemma_payload_entry_extend(
                                                nts_a[j],
                                                pays_a[j],
                                                vars.names(),
                                                texts_b,
                                                self.texts_view(),
                                                names_b,
                                                self.names_view(),
                                            );
                                        } else {
                                            let k = j - nts_a.len();
                                            assert(nt_entry_ok(
                                                prod.nts@[nts_a.len() + k],
                                                stripped@,
                                                ms[k],
                                                vars.names(),
                                                self.texts_view(),
                                                self.names_view(),
                                            ));
                                            assert(pays_b[j] == pays_l[k]);
                                            assert(pays_l[k] == match_payload(stripped@, ms[k]));
                                        }
                                    }
                                    assert forall|j: int|
                                        0 <= j < pays_b.len() implies spec_ref_parse(
                                        #[trigger] pays_b[j],
                                    ) is Some && args_buildable(
                                        spec_ref_parse(pays_b[j])->Some_0.args,
                                        vars.names(),
                                    ) by {
                                        if j >= pays_a.len() {
                                            let k = j - pays_a.len();
                                            assert(match_ok(stripped@, ms[k], vars.names()));
                                            assert(pays_b[j] == match_payload(stripped@, ms[k]));
                                        } else {
                                            assert(pays_b[j] == pays_a[j]);
                                        }
                                    }
                                    lemma_block_chunks_extend(
                                        chunks_a,
                                        lv,
                                        indent as int,
                                        i as int,
                                        lv.len() as int,
                                        texts_b,
                                        self.texts_view(),
                                    );
                                    assert(prod.chunks@.subrange(0, chunks_a.len() as int)
                                        == chunks_a);
                                    assert(block_line_chunks_ok(
                                        prod.chunks@.skip(chunks_a.len() as int),
                                        lv[i as int],
                                        indent as int,
                                        i + 1 == lv.len(),
                                        pays_a.len() as int,
                                        self.texts_view(),
                                    ));
                                    assert(block_chunks_ok(
                                        prod.chunks@,
                                        lv,
                                        indent as int,
                                        i + 1,
                                        lv.len() as int,
                                        self.texts_view(),
                                    )) by {
                                        let h = chunks_a.len() as int;
                                        assert(0 <= h <= prod.chunks@.len());
                                        assert(0 < i + 1 <= lv.len());
                                        assert(block_chunks_ok(
                                            prod.chunks@.subrange(0, h),
                                            lv,
                                            indent as int,
                                            i as int,
                                            lv.len() as int,
                                            self.texts_view(),
                                        ));
                                        assert(block_line_chunks_ok(
                                            prod.chunks@.skip(h),
                                            lv[i as int],
                                            indent as int,
                                            i + 1 == lv.len(),
                                            block_payloads(
                                                lv,
                                                indent as int,
                                                i as int,
                                            ).len() as int,
                                            self.texts_view(),
                                        ));
                                    }
                                }
                            },
                            Err(e) => {
                                proof {
                                    lemma_extends_trans(*old(self), self_iter, *self);
                                    let ms = spec_matches(stripped@, 0);
                                    let pays_l = line_payloads(lv[i as int], indent as int);
                                    let pays_b = block_payloads(lv, indent as int, i + 1);
                                    assert(pays_l =~= ms.map_values(
                                        |m: (int, int)| match_payload(stripped@, m),
                                    ));
                                    assert(pays_b =~= pays_a + pays_l);
                                    let bad = choose|k: int|
                                        0 <= k < ms.len() && !match_ok(
                                            stripped@,
                                            #[trigger] ms[k],
                                            vars.names(),
                                        );
                                    assert(pays_b[pays_a.len() + bad] == match_payload(
                                        stripped@,
                                        ms[bad],
                                    ));
                                    lemma_block_payloads_prefix(
                                        lv,
                                        indent as int,
                                        i + 1,
                                        lv.len() as int,
                                    );
                                    let pays_n = block_payloads(
                                        lv,
                                        indent as int,
                                        lv.len() as int,
                                    );
                                    lemma_prefix_index(
                                        pays_b,
                                        pays_n,
                                        pays_a.len() + bad,
                                    );
                                    assert(!payloads_ok(pays_n, vars.names()));
                                }
                                return Err(e);
                            },
                        }
                    },
                }
            }
            i += 1;
        }
        let ghost pn = prod.nts@;
        let ghost pc = prod.chunks@;
        let nts_total = prod.nts.len();
        let rhs = prod.finish();
        proof {
            assert(rhs.nts@ == crate::reorder::reordered(pn));
            assert(block_chunks_ok(
                pc,
                lv,
                indent as int,
                lv.len() as int,
                lv.len() as int,
                self.texts_view(),
            ));
            assert(rhs_wf(rhs));
            assert forall|j: int| 0 <= j < pc.len() && pc[j] is Nt implies rhs.chunks@[j] is Nt
                && (rhs.chunks@[j]->Nt_0 as int) == crate::reorder::new_index_of(
                pn,
                pc[j]->Nt_0 as int,
            ) by {
                crate::reorder::lemma_reorder_round_trip(pn, pc[j]->Nt_0 as int);
                assert(pn.len() == nts_total);
                assert(0 <= crate::reorder::new_index_of(pn, pc[j]->Nt_0 as int) < pn.len());
                assert(rhs.chunks@[j] == Chunk::Nt(
                    crate::reorder::new_index_of(pn, pc[j]->Nt_0 as int) as usize,
                ));
            }
            assert(rhs_from_parts(rhs, pc, pn));
            assert(rhs_matches_block(
                rhs,
                lv,
                indent as int,
                vars.names(),
                self.texts_view(),
                self.names_view(),
            ));
        }
        Ok(rhs)
    }

    /// Walks the grammar text line by line: it skips blank and comment
    /// lines, reports (and skips past) an indented line outside any block
    /// and a production line without the delimiter, parses each left-hand
    /// side, reads a single-line right-hand side directly, gathers an
    /// indented block for an empty one, and registers every finished
    /// production. The `spec_drive` fold fixes exactly when the load fails,
    /// which diagnostics come back, and which productions are registered;
    /// each registered production mirrors its source text.
    #[verifier::rlimit(100)]
    pub fn parse_grammar(&mut self, lines: &Vec<String>) -> (r: Result<Vec<Diag>, Fatal>)
        requires
            old(self).wf(),
        ensures
            final(self).wf(),
            final(self).extends(*old(self)),
            final(self).prods@.len() >= old(self).prods@.len(),
            final(self).prods@.subrange(0, old(self).prods@.len() as int) == old(self).prods@,
            forall|p: int|
                old(self).prods@.len() <= p < final(self).prods@.len() ==> rhs_wf(
                    (#[trigger] final(self).prods@[p]).rhs,
                ) && rhs_reordered(final(self).prods@[p]),
            r is Ok <==> spec_drive(string_views(lines@), 0, None) is Some,
            r matches Ok(ds_out) ==> spec_drive(string_views(lines@), 0, None) matches Some(cd)
                && ds_out@ == cd.1 && final(self).prods@.len() == old(self).prods@.len()
                + cd.0.len() && (forall|k: int|
                0 <= k < cd.0.len() ==> prod_matches_shape(
                    #[trigger] final(self).prods@[old(self).prods@.len() + k],
                    cd.0[k],
                    final(self).texts_view(),
                    final(self).names_view(),
                )),
            r matches Ok(diags) ==> forall|d: int|
                0 <= d < diags@.len() ==> 1 <= (#[trigger] diags@[d]).line <= lines@.len(),
    {
        let ghost lv0 = string_views(lines@);
        let ghost prods0 = self.prods@;
        let ghost mut blk_g: Option<BlockSt> = None;
        let ghost mut shapes: Seq<ProdShape> = Seq::empty();
        let mut diags: Vec<Diag> = Vec::new();
        let mut cur: Option<PendingBlock> = None;
        let mut i: usize = 0;
        while i < lines.len()
            invariant
                i <= lines@.len(),
                lv0 == string_views(lines@),
                old(self).wf(),
                self.wf(),
                self.extends(*old(self)),
                prods0 == old(self).prods@,
                self.prods@.len() == prods0.len() + shapes.len(),
                self.prods@.subrange(0, prods0.len() as int) == prods0,
                forall|p: int|
                    prods0.len() <= p < self.prods@.len() ==> rhs_wf(
                        (#[trigger] self.prods@[p]).rhs,
                    ) && rhs_reordered(self.prods@[p]),
                forall|k: int|
                    0 <= k < shapes.len() ==> prod_matches_shape(
                        #[trigger] self.prods@[prods0.len() + k],
                        shapes[k],
                        self.texts_view(),
                        self.names_view(),
                    ),
                forall|d: int|
                    0 <= d < diags@.len() ==> 1 <= (#[trigger] diags@[d]).line <= lines@.len(),
                cur is Some <==> blk_g is Some,
                cur matches Some(pb) ==> ({
                    let bs = blk_g->Some_0;
                    &&& bs.lhs == pb.lhs_text@
                    &&& bs.start == pb.start_line as int
                    &&& bs.end == pb.end_line as int
                    &&& bs.min == pb.min_indent as int
                    &&& spec_lhs_parse(bs.lhs) is Some
                    &&& args_buildable(
                        spec_lhs_parse(bs.lhs)->Some_0.nt.args,
                        spec_lhs_parse(bs.lhs)->Some_0.vars,
                    )
                    &&& pb.vars.names() == spec_lhs_parse(bs.lhs)->Some_0.vars
                    &&& lhs_matches(
                        pb.lhs,
                        spec_lhs_parse(bs.lhs)->Some_0,
                        self.texts_view(),
                        self.names_view(),
                    )
                    &&& pb.start_line <= pb.end_line <= i
                }),
                spec_drive(lv0, 0, None) == (match spec_drive(lv0, i as int, blk_g) {
                    None => None::<(Seq<ProdShape>, Seq<Diag>)>,
                    Some((ps, ds)) => Some((shapes + ps, diags@ + ds)),
                }),
            decreases lines@.len() - i,
        {
            let ghost self_iter = *self;
            let line = chars_of(self.line_at(lines, i));
            let t0 = scan_space_end(&line, 0);
            proof {
                assert(line@ == lv0[i as int]);
                assert(t0 == crate::token::space_run(lv0[i as int], 0));
            }
            let mut close_block = false;
            match &cur {
                Some(_) => {
                    if t0 == line.len() {
                        // A blank line inside a block: absorbed, the extent
                        // is not widened.
                        proof {
                            reveal_with_fuel(spec_drive, 1);
                            assert(spec_drive(lv0, i as int, blk_g) == spec_drive(
                                lv0,
                                i + 1,
                                blk_g,
                            ));
                        }
                        i += 1;
                        continue ;
                    }
                    if t0 > 0 {
                        // An indented line widens the block and may lower
                        // its minimum indentation.
                        proof {
                            reveal_with_fuel(spec_drive, 1);
                            let bs = blk_g->Some_0;
                            let bs2 = BlockSt {
                                lhs: bs.lhs,
                                start: bs.start,
                                end: i + 1,
                                min: if t0 < bs.min {
                                    t0 as int
                                } else {
                                    bs.min
                                },
                            };
                            assert(spec_drive(lv0, i as int, blk_g) == spec_drive(
                                lv0,
                                i + 1,
                                Some(bs2),
                            ));
                            blk_g = Some(bs2);
                        }
                        match &mut cur {
                            Some(block) => {
                                if t0 < block.min_indent {
                                    block.min_indent = t0;
                                }
                                block.end_line = i + 1;
                            },
                            None => {},
                        }
                        i += 1;
                        continue ;
                    }
                    close_block = true;
                },
                None => {},
            }
            if close_block {
                // The first non-indented line closes the block; it is then
                // processed again as a fresh top-level line.
                let block = match cur {
                    Some(b) => b,
                    None => {
                        proof {
                            assert(false);
                        }
                        unreached()
                    },
                };
                cur = None;
                let body = self.lines_between(lines, block.start_line, block.end_line);
                proof {
                    let bs = blk_g->Some_0;
                    assert(crate::parser::char_views(body@) =~= lv0.subrange(bs.start, bs.end));
                }
                let ghost s1 = *self;
                let rhs = match self.parse_block(&body, block.min_indent, &block.vars) {
                    Ok(x) => {
                        proof {
                            reveal_with_fuel(spec_drive, 1);
                            lemma_extends_trans(*old(self), s1, *self);
                            let bs = blk_g->Some_0;
                            assert(close_ok(lv0, bs));
                            assert(spec_drive(lv0, i as int, blk_g) == (match spec_drive(
                                lv0,
                                i as int,
                                None::<BlockSt>,
                            ) {
                                None => None::<(Seq<ProdShape>, Seq<Diag>)>,
                                Some((ps, ds)) => Some((seq![block_shape(lv0, bs)] + ps, ds)),
                            }));
                        }
                        x
                    },
                    Err(e) => {
                        proof {
                            reveal_with_fuel(spec_drive, 1);
                            lemma_extends_trans(*old(self), s1, *self);
                            let bs = blk_g->Some_0;
                            assert(!close_ok(lv0, bs));
                            assert(spec_drive(lv0, i as int, blk_g) is None);
                            assert(spec_drive(lv0, 0, None::<BlockSt>) is None);
                        }
                        return Err(e);
                    },
                };
                let ghost prev = self.prods@;
                let ghost shapes_old = shapes;
                let ghost lhs_g = block.lhs;
                let ghost rhs_g = rhs;
                let ghost pn_w = choose|pn: Seq<crate::reorder::NtEntry>|
                    rhs_g.nts@ == crate::reorder::reordered(pn);
                self.add_prod(block.lhs, rhs);
                proof {
                    assert(self.prods@.subrange(0, prods0.len() as int) =~= prods0);
                    self.lemma_prods_extended(prev, prods0.len() as int, pn_w);
                    let bs = blk_g->Some_0;
                    let sh = block_shape(lv0, bs);
                    let p = spec_lhs_parse(bs.lhs)->Some_0;
                    lemma_prods_shapes_extend(
                        prev,
                        prods0.len() as int,
                        shapes_old,
                        s1.texts_view(),
                        self.texts_view(),
                        s1.names_view(),
                        self.names_view(),
                    );
                    lemma_lhs_matches_extend(
                        lhs_g,
                        p,
                        s1.texts_view(),
                        self.texts_view(),
                        s1.names_view(),
                        self.names_view(),
                    );
                    assert(self.prods@.last().lhs == lhs_g);
                    assert(self.prods@.last().rhs == rhs_g);
                    assert(rhs_matches_block(
                        rhs_g,
                        sh.body,
                        sh.indent,
                        p.vars,
                        self.texts_view(),
                        self.names_view(),
                    ));
                    assert(prod_matches_shape(
                        self.prods@.last(),
                        sh,
                        self.texts_view(),
                        self.names_view(),
                    ));
                    shapes = shapes_old.push(sh);
                    assert forall|k: int|
                        0 <= k < shapes.len() implies prod_matches_shape(
                        #[trigger] self.prods@[prods0.len() + k],
                        shapes[k],
                        self.texts_view(),
                        self.names_view(),
                    ) by {
                        if k < shapes_old.len() {
                            assert(self.prods@[prods0.len() + k] == prev[prods0.len() + k]);
                        } else {
                            assert(self.prods@[prods0.len() + k] == self.prods@.last());
                        }
                    }
                    if spec_drive(lv0, i as int, None::<BlockSt>) is Some {
                        let ps = spec_drive(lv0, i as int, None::<BlockSt>)->Some_0.0;
                        assert(shapes_old + (seq![sh] + ps) =~= shapes + ps);
                    }
                    blk_g = None;
                }
            }
            if t0 == line.len() || self.comment_at(&line, t0) {
                proof {
                    reveal_with_fuel(spec_drive, 1);
                    assert(spec_drive(lv0, i as int, None::<BlockSt>) == spec_drive(
                        lv0,
                        i + 1,
                        None::<BlockSt>,
                    ));
                }
                i += 1;
                continue ;
            }
            if t0 > 0 {
                let ghost diags_old = diags@;
                diags.push(Diag { line: i + 1, kind: DiagKind::IndentedOutsideBlock });
                proof {
                    reveal_with_fuel(spec_drive, 1);
                    let dg = Diag { line: (i + 1) as usize, kind: DiagKind::IndentedOutsideBlock };
                    assert(spec_drive(lv0, i as int, None::<BlockSt>) == (match spec_drive(
                        lv0,
                        i + 1,
                        None::<BlockSt>,
                    ) {
                        None => None::<(Seq<ProdShape>, Seq<Diag>)>,
                        Some((ps, ds)) => Some((ps, seq![dg] + ds)),
                    }));
                    if spec_drive(lv0, i + 1, None::<BlockSt>) is Some {
                        let ds = spec_drive(lv0, i + 1, None::<BlockSt>)->Some_0.1;
                        assert(diags_old + (seq![dg] + ds) =~= diags@ + ds);
                    }
                }
                i += 1;
                continue ;
            }
            match find_delim_at(&line) {
                Some(d) => {
                    let before = trim_slice(&line, 0, d);
                    let after = trim_slice(&line, d + 3, line.len());
                    proof {
                        assert(before@ == trim_view(lv0[i as int], 0, d as int));
                        assert(after@ == trim_view(
                            lv0[i as int],
                            d + 3,
                            lv0[i as int].len() as int,
                        ));
                    }
                    let ghost s2 = *self;
                    let (lhs, vars) = match self.parse_production_lhs(&before) {
                        Ok(x) => {
                            proof {
                                lemma_extends_trans(*old(self), s2, *self);
                            }
                            x
                        },
                        Err(e) => {
                            proof {
                                reveal_with_fuel(spec_drive, 1);
                                lemma_extends_trans(*old(self), s2, *self);
                                assert(spec_drive(lv0, i as int, None::<BlockSt>) is None);
                                assert(spec_drive(lv0, 0, None::<BlockSt>) is None);
                            }
                            return Err(e);
                        },
                    };
                    if after.len() == 0 {
                        proof {
                            reveal_with_fuel(spec_drive, 1);
                            lemma_prods_shapes_extend(
                                self.prods@,
                                prods0.len() as int,
                                shapes,
                                s2.texts_view(),
                                self.texts_view(),
                                s2.names_view(),
                                self.names_view(),
                            );
                            let bs2 = BlockSt {
                                lhs: before@,
                                start: i + 1,
                                end: i + 1,
                                min: usize::MAX as int,
                            };
                            assert(spec_drive(lv0, i as int, None::<BlockSt>) == spec_drive(
                                lv0,
                                i + 1,
                                Some(bs2),
                            ));
                            blk_g = Some(bs2);
                            assert(lhs_matches(
                                lhs,
                                spec_lhs_parse(before@)->Some_0,
                                self.texts_view(),
                                self.names_view(),
                            ));
                        }
                        cur = Some(
                            PendingBlock {
                                lhs,
                                vars,
                                start_line: i + 1,
                                end_line: i + 1,
                                min_indent: usize::MAX,
                                lhs_text: Ghost(before@),
                            },
                        );
                    } else {
                        let mut prod = PartialProductionRhs::new();
                        let ghost s3 = *self;
                        let ghost lhs_g = lhs;
                        match self.parse_line(&mut prod, &after, false, &vars) {
                            Ok(()) => {
                                proof {
                                    reveal_with_fuel(spec_drive, 1);
                                    lemma_extends_trans(*old(self), s3, *self);
                                    let p = spec_lhs_parse(before@)->Some_0;
                                    let sh = ProdShape {
                                        lhs: before@,
                                        single: Some(after@),
                                        body: Seq::empty(),
                                        indent: 0,
                                    };
                                    assert(spec_drive(lv0, i as int, None::<BlockSt>) == (
                                    match spec_drive(lv0, i + 1, None::<BlockSt>) {
                                        None => None::<(Seq<ProdShape>, Seq<Diag>)>,
                                        Some((ps, ds)) => Some((seq![sh] + ps, ds)),
                                    }));
                                }
                            },
                            Err(e) => {
                                proof {
                                    reveal_with_fuel(spec_drive, 1);
                                    lemma_extends_trans(*old(self), s3, *self);
                                    assert(spec_drive(lv0, i as int, None::<BlockSt>) is None);
                                    assert(spec_drive(lv0, 0, None::<BlockSt>) is None);
                                }
                                return Err(e);
                            },
                        }
                        let ghost pn_line = prod.nts@;
                        let ghost pc_line = prod.chunks@;
                        let nts_total = prod.nts.len();
                        let rhs = prod.finish();
                        proof {
                            assert(rhs_wf(rhs));
                            assert(rhs.nts@ == crate::reorder::reordered(pn_line));
                        }
                        let ghost prev = self.prods@;
                        let ghost shapes_old = shapes;
                        let ghost rhs_g = rhs;
                        self.add_prod(lhs, rhs);
                        proof {
                            assert(self.prods@.subrange(0, prods0.len() as int) =~= prods0);
                            self.lemma_prods_extended(prev, prods0.len() as int, pn_line);
                            let p = spec_lhs_parse(before@)->Some_0;
                            let sh = ProdShape {
                                lhs: before@,
                                single: Some(after@),
                                body: Seq::empty(),
                                indent: 0,
                            };
                            let ms = spec_matches(after@, 0);
                            lemma_prods_shapes_extend(
                                prev,
                                prods0.len() as int,
                                shapes_old,
                                s2.texts_view(),
                                self.texts_view(),
                                s2.names_view(),
                                self.names_view(),
                            );
                            lemma_lhs_matches_extend(
                                lhs_g,
                                p,
                                s3.texts_view(),
                                self.texts_view(),
                                s3.names_view(),
                                self.names_view(),
                            );
                            // The line splitter's output, as the pre-reorder
                            // parts of the finished right-hand side.
                            assert(pc_line.skip(0) =~= pc_line);
                            assert(line_chunks_ok(
                                pc_line,
                                after@,
                                0,
                                ms,
                                false,
                                0,
                                self.texts_view(),
                            ));
                            assert(pn_line.len() == ms.len());
                            assert forall|j: int|
                                0 <= j < pn_line.len() implies nt_entry_ok(
                                #[trigger] pn_line[j],
                                after@,
                                ms[j],
                                p.vars,
                                self.texts_view(),
                                self.names_view(),
                            ) by {
                                assert(nt_entry_ok(
                                    pn_line[0 + j],
                                    after@,
                                    ms[j],
                                    vars.names(),
                                    self.texts_view(),
                                    self.names_view(),
                                ));
                            }
                            assert(rhs_from_parts(rhs_g, pc_line, pn_line)) by {
                                assert forall|j: int|
                                    0 <= j < pc_line.len() && pc_line[j] is Nt implies rhs_g.chunks@[j] is Nt
                                    && (rhs_g.chunks@[j]->Nt_0 as int)
                                    == crate::reorder::new_index_of(
                                    pn_line,
                                    pc_line[j]->Nt_0 as int,
                                ) by {
                                    crate::reorder::lemma_reorder_round_trip(
                                        pn_line,
                                        pc_line[j]->Nt_0 as int,
                                    );
                                    assert(pn_line.len() == nts_total);
                                    assert(rhs_g.chunks@[j] == Chunk::Nt(
                                        crate::reorder::new_index_of(
                                            pn_line,
                                            pc_line[j]->Nt_0 as int,
                                        ) as usize,
                                    ));
                                }
                            }
                            assert(rhs_matches_single(
                                rhs_g,
                                after@,
                                p.vars,
                                self.texts_view(),
                                self.names_view(),
                            ));
                            assert(self.prods@.last().lhs == lhs_g);
                            assert(self.prods@.last().rhs == rhs_g);
                            assert(prod_matches_shape(
                                self.prods@.last(),
                                sh,
                                self.texts_view(),
                                self.names_view(),
                            ));
                            shapes = shapes_old.push(sh);
                            assert forall|k: int|
                                0 <= k < shapes.len() implies prod_matches_shape(
                                #[trigger] self.prods@[prods0.len() + k],
                                shapes[k],
                                self.texts_view(),
                                self.names_view(),
                            ) by {
                                if k < shapes_old.len() {
                                    assert(self.prods@[prods0.len() + k] == prev[prods0.len()
                                        + k]);
                                } else {
                                    assert(self.prods@[prods0.len() + k] == self.prods@.last());
                                }
                            }
                            if spec_drive(lv0, i + 1, None::<BlockSt>) is Some {
                                let ps = spec_drive(lv0, i + 1, None::<BlockSt>)->Some_0.0;
                                assert(shapes_old + (seq![sh] + ps) =~= shapes + ps);
                            }
                        }
                    }
                },
                None => {
                    let ghost diags_old = diags@;
                    diags.push(Diag { line: i + 1, kind: DiagKind::ExpectedDelimiter });
                    proof {
                        reveal_with_fuel(spec_drive, 1);
                        let dg = Diag { line: (i + 1) as usize, kind: DiagKind::ExpectedDelimiter };
                        assert(spec_drive(lv0, i as int, None::<BlockSt>) == (match spec_drive(
                            lv0,
                            i + 1,
                            None::<BlockSt>,
                        ) {
                            None => None::<(Seq<ProdShape>, Seq<Diag>)>,
                            Some((ps, ds)) => Some((ps, seq![dg] + ds)),
                        }));
                        if spec_drive(lv0, i + 1, None::<BlockSt>) is Some {
                            let ds = spec_drive(lv0, i + 1, None::<BlockSt>)->Some_0.1;
                            assert(diags_old + (seq![dg] + ds) =~= diags@ + ds);
                        }
                    }
                },
            }
            i += 1;
        }
        if let Some(block) = cur {
            // End of input with a block still open: close it with the
            // extent gathered so far.
            let body = self.lines_between(lines, block.start_line, block.end_line);
            proof {
                let bs = blk_g->Some_0;
                assert(crate::parser::char_views(body@) =~= lv0.subrange(bs.start, bs.end));
            }
            let ghost s4 = *self;
            let rhs = match self.parse_block(&body, block.min_indent, &block.vars) {
                Ok(x) => {
                    proof {
                        reveal_with_fuel(spec_drive, 1);
                        lemma_extends_trans(*old(self), s4, *self);
                        let bs = blk_g->Some_0;
                        assert(close_ok(lv0, bs));
                        assert(spec_drive(lv0, lv0.len() as int, blk_g) == Some(
                            (seq![block_shape(lv0, bs)], Seq::<Diag>::empty()),
                        ));
                    }
                    x
                },
                Err(e) => {
                    proof {
                        reveal_with_fuel(spec_drive, 1);
                        lemma_extends_trans(*old(self), s4, *self);
                        let bs = blk_g->Some_0;
                        assert(!close_ok(lv0, bs));
                        assert(spec_drive(lv0, lv0.len() as int, blk_g) is None);
                        assert(spec_drive(lv0, 0, None::<BlockSt>) is None);
                    }
                    return Err(e);
                },
            };
            let ghost prev = self.prods@;
            let ghost shapes_old = shapes;
            let ghost lhs_g = block.lhs;
            let ghost rhs_g = rhs;
            let ghost pn_w = choose|pn: Seq<crate::reorder::NtEntry>|
                rhs_g.nts@ == crate::reorder::reordered(pn);
            self.add_prod(block.lhs, rhs);
            proof {
                assert(self.prods@.subrange(0, prods0.len() as int) =~= prods0);
                self.lemma_prods_extended(prev, prods0.len() as int, pn_w);
                let bs = blk_g->Some_0;
                let sh = block_shape(lv0, bs);
                let p = spec_lhs_parse(bs.lhs)->Some_0;
                lemma_prods_shapes_extend(
                    prev,
                    prods0.len() as int,
                    shapes_old,
                    s4.texts_view(),
                    self.texts_view(),
                    s4.names_view(),
                    self.names_view(),
                );
                lemma_lhs_matches_extend(
                    lhs_g,
                    p,
                    s4.texts_view(),
                    self.texts_view(),
                    s4.names_view(),
                    self.names_view(),
                );
                assert(self.prods@.last().lhs == lhs_g);
                assert(self.prods@.last().rhs == rhs_g);
                assert(rhs_matches_block(
                    rhs_g,
                    sh.body,
                    sh.indent,
                    p.vars,
                    self.texts_view(),
                    self.names_view(),
                ));
                assert(prod_matches_shape(
                    self.prods@.last(),
                    sh,
                    self.texts_view(),
                    self.names_view(),
                ));
                shapes = shapes_old.push(sh);
                assert forall|k: int|
                    0 <= k < shapes.len() implies prod_matches_shape(
                    #[trigger] self.prods@[prods0.len() + k],
                    shapes[k],
                    self.texts_view(),
                    self.names_view(),
                ) by {
                    if k < shapes_old.len() {
                        assert(self.prods@[prods0.len() + k] == prev[prods0.len() + k]);
                    } else {
                        assert(self.prods@[prods0.len() + k] == self.prods@.last());
                    }
                }
                assert(shapes_old + seq![sh] =~= shapes);
                assert(diags@ + Seq::<Diag>::empty() =~= diags@);
            }
        } else {
            proof {
                reveal_with_fuel(spec_drive, 1);
                assert(spec_drive(lv0, lv0.len() as int, blk_g) == Some(
                    (Seq::<ProdShape>::empty(), Seq::<Diag>::empty()),
                ));
                assert(shapes + Seq::<ProdShape>::empty() =~= shapes);
                assert(diags@ + Seq::<Diag>::empty() =~= diags@);
            }
        }
        Ok(diags)
    }

    /// One line of the input, as a string slice.
    fn line_at<'a>(&self, lines: &'a Vec<String>, i: usize) -> (r: &'a str)
        requires
            i < lines@.len(),
        ensures
            r@ == lines@[i as int]@,
    {
        lines[i].as_str()
    }

    /// The lines of the half-open range, as character vectors.
    fn lines_between(&self, lines: &Vec<String>, from: usize, to: usize) -> (r: Vec<Vec<char>>)
        requires
            from <= to <= lines@.len(),
        ensures
            r@.len() == to - from,
            forall|k: int| 0 <= k < r@.len() ==> (#[trigger] r@[k])@ == lines@[from + k]@,
    {
        let mut out: Vec<Vec<char>> = Vec::new();
        let mut j: usize = from;
        while j < to
            invariant
                from <= j <= to <= lines@.len(),
                out@.len() == j - from,
                forall|k: int| 0 <= k < out@.len() ==> (#[trigger] out@[k])@ == lines@[from + k]@,
            decreases to - j,
        {
            out.push(chars_of(lines[j].as_str()));
            j += 1;
        }
        out
    }

    /// Whether the line's first non-whitespace characters, standing at
    /// `t0`, open a comment.
    fn comment_at(&self, line: &Vec<char>, t0: usize) -> (r: bool)
        requires
            t0 <= line@.len(),
        ensures
            r == (line@.len() - t0 >= 2 && line@[t0 as int] == '/' && line@[t0 as int + 1] == '/'),
    {
        line.len() - t0 >= 2 && line[t0] == '/' && line[t0 + 1] == '/'
    }
}

} // verus!

//! The chunk reorderer: `finish` turns a builder's insertion-ordered
//! nonterminal list into the final evaluation order — a stable three-way
//! partition by order class — and rewrites every `Nt` chunk index from the
//! old (textual) index space into the new (evaluation) one.

use vstd::prelude::*;

use crate::ast::{Chunk, NonterminalRef, Order, PartialProductionRhs, ProductionRhs};

verus! {

/// One collected nonterminal reference with its order class.
pub type NtEntry = (NonterminalRef, Order);

/// The entries of class `o` among `nts[0 .. end]`, in their original order.
pub open spec fn sel_elems(nts: Seq<NtEntry>, o: Order, end: int) -> Seq<NtEntry>
    decreases end,
{
    if end <= 0 || end > nts.len() {
        Seq::empty()
    } else if nts[end - 1].1 == o {
        sel_elems(nts, o, end - 1).push(nts[end - 1])
    } else {
        sel_elems(nts, o, end - 1)
    }
}

/// How many entries of class `o` stand before position `end`.
pub open spec fn count_lt(nts: Seq<NtEntry>, o: Order, end: int) -> int {
    sel_elems(nts, o, end).len() as int
}

/// The finished nonterminal list: all `Early` entries, then all `Default`
/// entries, then all `Late` entries, each bucket in original relative order.
pub open spec fn reordered(nts: Seq<NtEntry>) -> Seq<NtEntry> {
    sel_elems(nts, Order::Early, nts.len() as int) + sel_elems(nts, Order::Default, nts.len() as int)
        + sel_elems(nts, Order::Late, nts.len() as int)
}

/// Where the entry at old (textual) index `i` stands in `reordered(nts)`.
pub open spec fn new_index_of(nts: Seq<NtEntry>, i: int) -> int {
    let n = nts.len() as int;
    if nts[i].1 == Order::Early {
        count_lt(nts, Order::Early, i)
    } else if nts[i].1 == Order::Default {
        count_lt(nts, Order::Early, n) + count_lt(nts, Order::Default, i)
    } else {
        count_lt(nts, Order::Early, n) + count_lt(nts, Order::Default, n) + count_lt(
            nts,
            Order::Late,
            i,
        )
    }
}

/// Class counts are bounded by the range, and every selected entry has the
/// selecting class.
pub proof fn lemma_sel_bounds(nts: Seq<NtEntry>, o: Order, end: int)
    requires
        0 <= end <= nts.len(),
    ensures
        0 <= count_lt(nts, o, end) <= end,
        forall|k: int| 0 <= k < count_lt(nts, o, end) ==> (#[trigger] sel_elems(nts, o, end)[k]).1
            == o,
    decreases end,
{
    if end > 0 {
        lemma_sel_bounds(nts, o, end - 1);
    }
}

/// Class counts grow with the range.
pub proof fn lemma_count_monotone(nts: Seq<NtEntry>, o: Order, a: int, b: int)
    requires
        0 <= a <= b <= nts.len(),
    ensures
        count_lt(nts, o, a) <= count_lt(nts, o, b),
    decreases b,
{
    if a < b {
        lemma_count_monotone(nts, o, a, b - 1);
    }
}

/// An entry of class `o` at position `i` stands at rank `count_lt(o, i)` of
/// its bucket, and the earlier bucket entries are untouched by extension.
pub proof fn lemma_sel_at(nts: Seq<NtEntry>, o: Order, end: int, i: int)
    requires
        0 <= i < end <= nts.len(),
        nts[i].1 == o,
    ensures
        count_lt(nts, o, i) < count_lt(nts, o, end),
        sel_elems(nts, o, end)[count_lt(nts, o, i)] == nts[i],
    decreases end,
{
    if i == end - 1 {
    } else {
        lemma_sel_at(nts, o, end - 1, i);
    }
}

/// The three class counts of a range sum to its length.
pub proof fn lemma_counts_sum(nts: Seq<NtEntry>, end: int)
    requires
        0 <= end <= nts.len(),
    ensures
        count_lt(nts, Order::Early, end) + count_lt(nts, Order::Default, end) + count_lt(
            nts,
            Order::Late,
            end,
        ) == end,
    decreases end,
{
    if end > 0 {
        lemma_counts_sum(nts, end - 1);
    }
}

/// Law (round-trip on index spaces): the remapped index of every entry is a
/// valid index into the finished list, and it points at the very entry that
/// stood at the old index, so `Nt` chunks keep their referents; the finished
/// list is exactly the three buckets, concatenated.
pub proof fn lemma_reorder_round_trip(nts: Seq<NtEntry>, i: int)
    requires
        0 <= i < nts.len(),
    ensures
        0 <= new_index_of(nts, i) < reordered(nts).len(),
        reordered(nts)[new_index_of(nts, i)] == nts[i],
        reordered(nts).len() == nts.len(),
{
    let n = nts.len() as int;
    let o = nts[i].1;
    lemma_counts_sum(nts, n);
    lemma_sel_at(nts, o, n, i);
    lemma_count_monotone(nts, o, i, n);
    lemma_sel_bounds(nts, Order::Early, n);
    lemma_sel_bounds(nts, Order::Default, n);
    lemma_sel_bounds(nts, Order::Late, n);
    lemma_sel_bounds(nts, o, i);
}

/// Law (bucket consistency): the class of each finished entry matches the
/// bucket it stands in — `Early` first, then `Default`, then `Late`.
pub proof fn lemma_reorder_partition(nts: Seq<NtEntry>, k: int)
    requires
        0 <= k < reordered(nts).len(),
    ensures
        reordered(nts)[k].1 == (if k < count_lt(nts, Order::Early, nts.len() as int) {
            Order::Early
        } else if k < count_lt(nts, Order::Early, nts.len() as int) + count_lt(
            nts,
            Order::Default,
            nts.len() as int,
        ) {
            Order::Default
        } else {
            Order::Late
        }),
{
    let n = nts.len() as int;
    lemma_sel_bounds(nts, Order::Early, n);
    lemma_sel_bounds(nts, Order::Default, n);
    lemma_sel_bounds(nts, Order::Late, n);
}

/// Law (stability): two entries of the same order class keep their relative
/// order across reordering.
pub proof fn lemma_reorder_stable(nts: Seq<NtEntry>, i: int, j: int)
    requires
        0 <= i < j < nts.len(),
        nts[i].1 == nts[j].1,
    ensures
        new_index_of(nts, i) < new_index_of(nts, j),
{
    let o = nts[i].1;
    lemma_sel_at(nts, o, j, i);
}

fn count_class_before(nts: &Vec<NtEntry>, o: Order, end: usize) -> (r: usize)
    requires
        end <= nts@.len(),
    ensures
        r == count_lt(nts@, o, end as int),
{
    let mut r: usize = 0;
    let mut i: usize = 0;
    while i < end
        invariant
            i <= end <= nts@.len(),
            r == count_lt(nts@, o, i as int),
            r <= i,
        decreases end - i,
    {
        proof {
            lemma_sel_bounds(nts@, o, i as int);
        }
        if nts[i].1 == o {
            r += 1;
        }
        i += 1;
    }
    r
}

fn new_index_for(nts: &Vec<NtEntry>, i: usize) -> (r: usize)
    requires
        i < nts@.len(),
    ensures
        r == new_index_of(nts@, i as int),
        r < nts@.len(),
{
    let n = nts.len();
    proof {
        lemma_reorder_round_trip(nts@, i as int);
        lemma_counts_sum(nts@, n as int);
        lemma_sel_bounds(nts@, Order::Early, n as int);
        lemma_sel_bounds(nts@, Order::Default, n as int);
        lemma_sel_bounds(nts@, Order::Late, n as int);
    }
    let o = nts[i].1;
    if o == Order::Early {
        count_class_before(nts, Order::Early, i)
    } else if o == Order::Default {
        let a = count_class_before(nts, Order::Early, n);
        let b = count_class_before(nts, Order::Default, i);
        a + b
    } else {
        let a = count_class_before(nts, Order::Early, n);
        let b = count_class_before(nts, Order::Default, n);
        let c = count_class_before(nts, Order::Late, i);
        a + b + c
    }
}

impl PartialProductionRhs {
    /// Computes the final evaluation order of the nonterminals — a stable
    /// three-way partition by order class — and rewrites every `Nt` chunk
    /// from the old (insertion-order) index space into the new one. Each
    /// rewritten chunk points at the entry it pointed at before.
    pub fn finish(self) -> (r: ProductionRhs)
        requires
            self.wf(),
        ensures
            r.nts@ == reordered(self.nts@),
            r.nts@.len() == self.nts@.len(),
            r.chunks@.len() == self.chunks@.len(),
            forall|j: int|
                0 <= j < self.chunks@.len() && !(self.chunks@[j] is Nt) ==> r.chunks@[j]
                    == self.chunks@[j],
            forall|j: int|
                0 <= j < self.chunks@.len() && self.chunks@[j] is Nt ==> r.chunks@[j] == Chunk::Nt(
                    new_index_of(self.nts@, self.chunks@[j]->Nt_0 as int) as usize,
                ),
            forall|j: int|
                0 <= j < self.chunks@.len() && self.chunks@[j] is Nt ==> (r.chunks@[j]->Nt_0 as int)
                    < r.nts@.len() && r.nts@[r.chunks@[j]->Nt_0 as int]
                    == self.nts@[self.chunks@[j]->Nt_0 as int],
    {
        let PartialProductionRhs { chunks, mut nts } = self;
        let ghost nts0 = nts@;
        let ghost chunks0 = chunks@;
        let n = nts.len();

        // Remap the chunks first, while the old list is still whole.
        let mut new_chunks: Vec<Chunk> = Vec::new();
        let mut j: usize = 0;
        while j < chunks.len()
            invariant
                j <= chunks@.len(),
                chunks@ == chunks0,
                nts@ == nts0,
                n == nts0.len(),
                new_chunks@.len() == j,
                forall|k: int|
                    0 <= k < chunks0.len() && chunks0[k] is Nt ==> (chunks0[k]->Nt_0 as int)
                        < nts0.len(),
                forall|k: int|
                    0 <= k < j && !(chunks0[k] is Nt) ==> new_chunks@[k] == chunks0[k],
                forall|k: int|
                    0 <= k < j && chunks0[k] is Nt ==> new_chunks@[k] == Chunk::Nt(
                        new_index_of(nts0, chunks0[k]->Nt_0 as int) as usize,
                    ),
            decreases chunks@.len() - j,
        {
            let c = chunks[j];
            match c {
                Chunk::Nt(i) => {
                    let k = new_index_for(&nts, i);
                    new_chunks.push(Chunk::Nt(k));
                },
                _ => {
                    new_chunks.push(c);
                },
            }
            j += 1;
        }

        // Reverse the old list, then drain it back in original order into
        // the three class buckets.
        let mut rev: Vec<NtEntry> = Vec::new();
        while nts.len() > 0
            invariant
                rev@.len() + nts@.len() == n,
                forall|k: int| 0 <= k < nts@.len() ==> nts@[k] == nts0[k],
                forall|k: int| 0 <= k < rev@.len() ==> rev@[k] == nts0[n - 1 - k],
            decreases nts@.len(),
        {
            let p = match nts.pop() {
                Some(p) => p,
                None => {
                    proof {
                        assert(false);
                    }
                    unreached()
                },
            };
            rev.push(p);
        }

        let mut ev_early: Vec<NtEntry> = Vec::new();
        let mut ev_default: Vec<NtEntry> = Vec::new();
        let mut ev_late: Vec<NtEntry> = Vec::new();
        proof {
            assert(rev@.len() == n);
            assert(ev_early@ =~= sel_elems(nts0, Order::Early, 0));
            assert(ev_default@ =~= sel_elems(nts0, Order::Default, 0));
            assert(ev_late@ =~= sel_elems(nts0, Order::Late, 0));
        }
        while rev.len() > 0
            invariant
                rev@.len() <= n == nts0.len(),
                forall|k: int| 0 <= k < rev@.len() ==> rev@[k] == nts0[n - 1 - k],
                ev_early@ == sel_elems(nts0, Order::Early, n - rev@.len()),
                ev_default@ == sel_elems(nts0, Order::Default, n - rev@.len()),
                ev_late@ == sel_elems(nts0, Order::Late, n - rev@.len()),
            decreases rev@.len(),
        {
            let ghost m = n - rev@.len();
            let p = match rev.pop() {
                Some(p) => p,
                None => {
                    proof {
                        assert(false);
                    }
                    unreached()
                },
            };
            proof {
                assert(p == nts0[m]);
            }
            if p.1 == Order::Early {
                ev_early.push(p);
            } else if p.1 == Order::Default {
                ev_default.push(p);
            } else {
                ev_late.push(p);
            }
        }

        let mut new_nts = ev_early;
        new_nts.append(&mut ev_default);
        new_nts.append(&mut ev_late);
        proof {
            lemma_counts_sum(nts0, n as int);
            assert(new_nts@ == reordered(nts0));
            assert forall|j2: int|
                0 <= j2 < chunks0.len() && chunks0[j2] is Nt implies (new_chunks@[j2]->Nt_0 as int)
                < new_nts@.len() && new_nts@[new_chunks@[j2]->Nt_0 as int] == nts0[chunks0[j2]->Nt_0 as int] by {
                lemma_reorder_round_trip(nts0, chunks0[j2]->Nt_0 as int);
            }
        }
        ProductionRhs { chunks: new_chunks, nts: new_nts }
    }
}

} // verus!

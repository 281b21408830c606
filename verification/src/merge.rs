use vstd::prelude::*;
use ahash::AHashMap;
use crate::aln::Record;
use crate::cluster::{is_endpoint, node_of, offset, Graph, Pos};
use crate::error::GcmError;
use crate::naive_upgma::{edges_of, triplet_fault, triplet_ok, triplets_to_sims};
use crate::maps::{entries_get, entries_insert, entries_keys, entries_new, entries_of};
use crate::sims::{Sims, NODE_CAP, WEIGHT_CAP};
use crate::sums::{grid_total, lemma_grid_le, lemma_grid_nonneg, lemma_grid_point, lemma_grid_same};
use crate::state::{row_fits, row_in_constraint, AlnState};
use crate::frames::{frames_view, row_view};
use crate::weave::{is_gap, record_text, weave_row, woven, write_record};

pub use crate::frames::build_frames;

verus! {

/// The columns in which a row of constraint `k` has residues, among its first `n` columns.
pub open spec fn coords_upto(k: u32, seq: Seq<u8>, n: int) -> Seq<Pos>
    decreases n,
{
    if n <= 0 {
        Seq::empty()
    } else if is_gap(seq[n - 1]) {
        coords_upto(k, seq, n - 1)
    } else {
        coords_upto(k, seq, n - 1).push((k, (n - 1) as u32))
    }
}

/// The columns in which a row of constraint `k` has residues.
pub open spec fn coords_of(k: u32, seq: Seq<u8>) -> Seq<Pos> {
    coords_upto(k, seq, seq.len() as int)
}

pub proof fn lemma_coords(k: u32, seq: Seq<u8>, n: int)
    requires
        0 <= n <= seq.len(),
        seq.len() <= u32::MAX,
    ensures
        row_in_constraint(coords_upto(k, seq, n), k as int, n),
    decreases n,
{
    if n > 0 {
        lemma_coords(k, seq, n - 1);
        let c0 = coords_upto(k, seq, n - 1);
        let c1 = coords_upto(k, seq, n);
        assert forall|i: int| 0 <= i < c1.len() implies (#[trigger] c1[i]).0 == k && c1[i].1 < n by {
            if i < c0.len() {
                assert(c1[i] == c0[i]);
            }
        }
        assert forall|i: int, j: int| 0 <= i < j < c1.len() implies c1[i].1 < c1[j].1 by {
            assert(c0[i].0 == k && c0[i].1 < n - 1);
            if j < c0.len() {
                assert(c1[j] == c0[j]);
            }
        }
    }
}

/// Builds the state from the rows of the constraints, one alignment after the other.
pub struct StateFromConstraints {
    pub state: AlnState,
    pub sequence_id: usize,
    pub columns: usize,
    pub cid: usize,
    pub records: usize,
}

impl StateFromConstraints {
    /// What holds while the state is built: the constraints taken so far are complete, and
    /// the rows of the one at hand all have `columns` columns.
    pub open spec fn inv(&self) -> bool {
        &&& self.state.names_wf()
        &&& self.state.names@.len() == self.sequence_id
        &&& self.state.s@.len() == self.sequence_id
        &&& self.state.column_counts@.len() == self.cid
        &&& self.cid <= u32::MAX
        &&& self.columns <= u32::MAX
        &&& self.records <= self.sequence_id
        &&& (self.records == 0 ==> self.columns == 0)
        &&& forall|k: int|
            0 <= k < self.cid ==> #[trigger] self.state.column_counts@[k] <= u32::MAX
        &&& forall|i: int|
            0 <= i < self.sequence_id - self.records ==> row_fits(
                (#[trigger] self.state.s@[i])@,
                self.state.column_counts@,
            )
        &&& forall|i: int|
            self.sequence_id - self.records <= i < self.sequence_id ==> row_in_constraint(
                (#[trigger] self.state.s@[i])@,
                self.cid as int,
                self.columns as int,
            )
    }

    /// A builder that has seen nothing.
    pub fn new() -> (r: Self)
        ensures
            r.inv(),
            r.sequence_id == 0,
            r.cid == 0,
            r.records == 0,
            r.columns == 0,
            forall|k: Seq<char>| !r.state.knows(k),
    {
        Self { state: AlnState::new(), sequence_id: 0, columns: 0, cid: 0, records: 0 }
    }

    /// Takes one row of the alignment at hand: registers its name and records the columns of
    /// its residues. A name that is taken fails with `DuplicateName`; a row whose length
    /// differs from the rows before it in this alignment fails with `RaggedAlignment`. A
    /// failed row leaves the builder as it was.
    pub fn on_record(&mut self, name: &str, seq: &[u8]) -> (r: Result<(), GcmError>)
        requires
            old(self).inv(),
            seq@.len() <= u32::MAX,
            old(self).cid < u32::MAX,
        ensures
            final(self).inv(),
            old(self).state.knows(name@) <==> r == Err::<(), GcmError>(GcmError::DuplicateName),
            !old(self).state.knows(name@) && old(self).records > 0 && seq@.len() != old(
                self,
            ).columns <==> r == Err::<(), GcmError>(GcmError::RaggedAlignment),
            r.is_err() ==> *final(self) == *old(self),
            r.is_err() ==> r == Err::<(), GcmError>(GcmError::DuplicateName) || r == Err::<
                (),
                GcmError,
            >(GcmError::RaggedAlignment),
            r.is_ok() ==> {
                &&& final(self).cid == old(self).cid
                &&& final(self).columns == seq@.len()
                &&& final(self).records == old(self).records + 1
                &&& final(self).sequence_id == old(self).sequence_id + 1
                &&& final(self).state.column_counts == old(self).state.column_counts
                &&& final(self).state.names@.len() == old(self).state.names@.len() + 1
                &&& final(self).state.names@.last()@ == name@
                &&& forall|i: int|
                    0 <= i < old(self).state.names@.len() ==> final(self).state.names@[i] == old(
                        self,
                    ).state.names@[i]
                &&& final(self).state.s@.len() == old(self).state.s@.len() + 1
                &&& final(self).state.s@.last()@ == coords_of(old(self).cid as u32, seq@)
                &&& forall|i: int|
                    0 <= i < old(self).state.s@.len() ==> final(self).state.s@[i] == old(
                        self,
                    ).state.s@[i]
                &&& forall|k: Seq<char>|
                    final(self).state.knows(k) <==> old(self).state.knows(k) || k == name@
                &&& final(self).state.id_of(name@) == old(self).sequence_id
                &&& forall|k: Seq<char>|
                    old(self).state.knows(k) ==> final(self).state.id_of(k) == old(
                        self,
                    ).state.id_of(k)
            },
    {
        if self.state.lookup(name).is_some() {
            return Err(GcmError::DuplicateName);
        }
        if self.records > 0 && seq.len() != self.columns {
            return Err(GcmError::RaggedAlignment);
        }
        let mut s_slice: Vec<(u32, u32)> = Vec::new();
        let mut column: usize = 0;
        while column < seq.len()
            invariant
                column <= seq@.len(),
                seq@.len() <= u32::MAX,
                self.cid < u32::MAX,
                s_slice@ == coords_upto(self.cid as u32, seq@, column as int),
            decreases seq.len() - column,
        {
            let c = seq[column];
            if c != crate::weave::GAP && c != crate::weave::DOT {
                s_slice.push((self.cid as u32, column as u32));
            }
            column += 1;
        }
        proof {
            lemma_coords(self.cid as u32, seq@, seq@.len() as int);
        }
        let ghost before = *self;
        let id = self.state.request_name(name);
        self.state.s.push(s_slice);
        self.columns = column;
        self.sequence_id = self.sequence_id + 1;
        self.records = self.records + 1;
        proof {
            assert forall|i: int| 0 <= i < self.sequence_id - self.records implies row_fits(
                (#[trigger] self.state.s@[i])@,
                self.state.column_counts@,
            ) by {
                assert(self.state.s@[i] == before.state.s@[i]);
            }
            assert forall|i: int|
                self.sequence_id - self.records <= i < self.sequence_id implies row_in_constraint(
                (#[trigger] self.state.s@[i])@,
                self.cid as int,
                self.columns as int,
            ) by {
                if i < before.sequence_id {
                    assert(self.state.s@[i] == before.state.s@[i]);
                }
            }
        }
        Ok(())
    }

    /// Ends the alignment at hand: its number of columns is recorded, and the next row
    /// starts a new constraint.
    pub fn next_aln(&mut self)
        requires
            old(self).inv(),
            old(self).cid < u32::MAX,
        ensures
            final(self).inv(),
            final(self).cid == old(self).cid + 1,
            final(self).records == 0,
            final(self).columns == 0,
            final(self).sequence_id == old(self).sequence_id,
            final(self).state.names == old(self).state.names,
            final(self).state.names2id == old(self).state.names2id,
            final(self).state.s == old(self).state.s,
            final(self).state.column_counts@ == old(self).state.column_counts@.push(
                old(self).columns,
            ),
    {
        let ghost before = *self;
        self.state.column_counts.push(self.columns);
        self.columns = 0;
        self.records = 0;
        self.cid = self.cid + 1;
        proof {
            assert forall|i: int| 0 <= i < self.sequence_id implies row_fits(
                (#[trigger] self.state.s@[i])@,
                self.state.column_counts@,
            ) by {
                if i < before.sequence_id - before.records {
                    assert(row_fits(before.state.s@[i]@, before.state.column_counts@));
                    let k = choose|k: int|
                        0 <= k < before.cid && #[trigger] row_in_constraint(
                            before.state.s@[i]@,
                            k,
                            before.state.column_counts@[k] as int,
                        );
                    assert(self.state.column_counts@[k] == before.state.column_counts@[k]);
                    assert(row_in_constraint(
                        self.state.s@[i]@,
                        k,
                        self.state.column_counts@[k] as int,
                    ));
                } else {
                    assert(row_in_constraint(
                        self.state.s@[i]@,
                        before.cid as int,
                        self.state.column_counts@[before.cid as int] as int,
                    ));
                }
            }
        }
    }

    /// Hands the state out and starts afresh. The state is complete where no alignment is
    /// still at hand.
    pub fn take(&mut self) -> (r: AlnState)
        requires
            old(self).inv(),
        ensures
            r == old(self).state,
            old(self).records == 0 ==> r.wf(),
            final(self).inv(),
            final(self).sequence_id == 0,
            final(self).cid == 0,
            final(self).records == 0,
    {
        let mut fresh = Self::new();
        core::mem::swap(self, &mut fresh);
        fresh.state
    }
}


/// The number of rows in the alignments before alignment `a`.
pub open spec fn rows_before(alns: Seq<Vec<Record>>, a: int) -> int
    decreases a,
{
    if a <= 0 {
        0
    } else {
        rows_before(alns, a - 1) + alns[a - 1]@.len()
    }
}

/// Whether row `j` of alignment `b` comes before row `i` of alignment `a`.
pub open spec fn comes_before(b: int, j: int, a: int, i: int) -> bool {
    b < a || (b == a && j < i)
}

/// Whether `(a, i)` names a row.
pub open spec fn is_row(alns: Seq<Vec<Record>>, a: int, i: int) -> bool {
    0 <= a < alns.len() && 0 <= i < alns[a]@.len()
}

/// Whether the name of the row was given to a row before it.
pub open spec fn dup_at(alns: Seq<Vec<Record>>, a: int, i: int) -> bool {
    exists|b: int, j: int|
        #![trigger alns[b]@[j]]
        is_row(alns, b, j) && comes_before(b, j, a, i) && alns[b]@[j].name@ == alns[a]@[i].name@
}

/// Whether the row is not as long as the first row of its alignment.
pub open spec fn ragged_at(alns: Seq<Vec<Record>>, a: int, i: int) -> bool {
    i > 0 && alns[a]@[i].seq@.len() != alns[a]@[0].seq@.len()
}

/// Whether the row neither repeats a name nor differs in length.
pub open spec fn row_clean(alns: Seq<Vec<Record>>, a: int, i: int) -> bool {
    !dup_at(alns, a, i) && !ragged_at(alns, a, i)
}

/// Whether no row before row `i` of alignment `a` repeats a name or differs in length.
pub open spec fn clean_before(alns: Seq<Vec<Record>>, a: int, i: int) -> bool {
    forall|b: int, j: int|
        is_row(alns, b, j) && comes_before(b, j, a, i) ==> #[trigger] row_clean(alns, b, j)
}

/// The number of columns of alignment `a`: the length of its first row, or none.
pub open spec fn width_of(alns: Seq<Vec<Record>>, a: int) -> int {
    if alns[a]@.len() > 0 {
        alns[a]@[0].seq@.len() as int
    } else {
        0
    }
}

/// The state holds row `j` of alignment `b` at its place and under its name.
pub open spec fn row_held(st: AlnState, alns: Seq<Vec<Record>>, b: int, j: int) -> bool {
    let at = rows_before(alns, b) + j;
    &&& 0 <= at < st.names@.len()
    &&& at < st.s@.len()
    &&& st.names@[at]@ == alns[b]@[j].name@
    &&& st.s@[at]@ == coords_of(b as u32, alns[b]@[j].seq@)
    &&& st.knows(alns[b]@[j].name@)
    &&& st.id_of(alns[b]@[j].name@) == at
}

/// A row before row `i` of alignment `a` has the name.
pub open spec fn named_before(alns: Seq<Vec<Record>>, a: int, i: int, k: Seq<char>) -> bool {
    exists|b: int, j: int|
        #![trigger alns[b]@[j]]
        is_row(alns, b, j) && comes_before(b, j, a, i) && alns[b]@[j].name@ == k
}

/// The state holds the rows before row `i` of alignment `a`, each under its name.
pub open spec fn holds_rows(st: AlnState, alns: Seq<Vec<Record>>, a: int, i: int) -> bool {
    &&& st.names@.len() == rows_before(alns, a) + i
    &&& st.s@.len() == rows_before(alns, a) + i
    &&& forall|b: int, j: int|
        is_row(alns, b, j) && comes_before(b, j, a, i) ==> #[trigger] row_held(st, alns, b, j)
    &&& forall|k: Seq<char>| #[trigger] st.knows(k) ==> named_before(alns, a, i, k)
}

proof fn lemma_rows_before_nonneg(alns: Seq<Vec<Record>>, a: int)
    ensures
        0 <= rows_before(alns, a),
    decreases a,
{
    if a > 0 {
        lemma_rows_before_nonneg(alns, a - 1);
    }
}

/// A state that holds the rows before a row holds that row too once it was taken.
proof fn lemma_row_taken(st0: AlnState, st1: AlnState, alns: Seq<Vec<Record>>, a: int, i: int)
    requires
        holds_rows(st0, alns, a, i),
        is_row(alns, a, i),
        a <= u32::MAX,
        st1.names@.len() == st0.names@.len() + 1,
        st1.names@.last()@ == alns[a]@[i].name@,
        forall|x: int| 0 <= x < st0.names@.len() ==> st1.names@[x] == st0.names@[x],
        st1.s@.len() == st0.s@.len() + 1,
        st1.s@.last()@ == coords_of(a as u32, alns[a]@[i].seq@),
        forall|x: int| 0 <= x < st0.s@.len() ==> st1.s@[x] == st0.s@[x],
        forall|k: Seq<char>| st1.knows(k) <==> st0.knows(k) || k == alns[a]@[i].name@,
        st1.id_of(alns[a]@[i].name@) == st0.names@.len(),
        forall|k: Seq<char>| st0.knows(k) ==> st1.id_of(k) == st0.id_of(k),
        !st0.knows(alns[a]@[i].name@),
    ensures
        holds_rows(st1, alns, a, i + 1),
{
    lemma_rows_before_nonneg(alns, a);
    assert forall|b: int, j: int|
        is_row(alns, b, j) && comes_before(b, j, a, i + 1) implies #[trigger] row_held(
        st1,
        alns,
        b,
        j,
    ) by {
        let at = rows_before(alns, b) + j;
        if comes_before(b, j, a, i) {
            assert(row_held(st0, alns, b, j));
            assert(st1.names@[at] == st0.names@[at]);
            assert(st1.s@[at] == st0.s@[at]);
        } else {
            assert(b == a && j == i);
            assert(at == st0.names@.len());
        }
    }
    assert forall|k: Seq<char>| #[trigger] st1.knows(k) implies named_before(alns, a, i + 1, k) by {
        if st0.knows(k) {
            assert(named_before(alns, a, i, k));
            let (b, j) = choose|b: int, j: int|
                #![trigger alns[b]@[j]]
                is_row(alns, b, j) && comes_before(b, j, a, i) && alns[b]@[j].name@ == k;
            assert(is_row(alns, b, j) && comes_before(b, j, a, i + 1) && alns[b]@[j].name@ == k);
        } else {
            assert(is_row(alns, a, i) && comes_before(a, i, a, i + 1) && alns[a]@[i].name@ == k);
        }
    }
}

/// A state that holds all rows of an alignment holds the rows before the next.
proof fn lemma_rows_next(st0: AlnState, st1: AlnState, alns: Seq<Vec<Record>>, a: int)
    requires
        0 <= a < alns.len(),
        holds_rows(st0, alns, a, alns[a]@.len() as int),
        st1.names == st0.names,
        st1.s == st0.s,
        st1.names2id == st0.names2id,
    ensures
        holds_rows(st1, alns, a + 1, 0),
{
    let m = alns[a]@.len() as int;
    assert forall|b: int, j: int|
        is_row(alns, b, j) && comes_before(b, j, a + 1, 0) implies #[trigger] row_held(
        st1,
        alns,
        b,
        j,
    ) by {
        assert(comes_before(b, j, a, m));
        assert(row_held(st0, alns, b, j));
    }
    assert forall|k: Seq<char>| #[trigger] st1.knows(k) implies named_before(alns, a + 1, 0, k) by {
        assert(st0.knows(k));
        assert(named_before(alns, a, m, k));
        let (b, j) = choose|b: int, j: int|
            #![trigger alns[b]@[j]]
            is_row(alns, b, j) && comes_before(b, j, a, m) && alns[b]@[j].name@ == k;
        assert(is_row(alns, b, j) && comes_before(b, j, a + 1, 0) && alns[b]@[j].name@ == k);
    }
}

/// The state of the constraints, from their rows: alignment after alignment, row after
/// row. The first row whose name is taken fails with `DuplicateName`, the first whose
/// length differs within its alignment with `RaggedAlignment`.
pub fn state_from_constraints(constraint_alns: &Vec<Vec<Record>>) -> (r: Result<AlnState, GcmError>)
    requires
        constraint_alns@.len() < u32::MAX,
        forall|a: int, i: int|
            is_row(constraint_alns@, a, i) ==> (#[trigger] constraint_alns@[a]@[i]).seq@.len()
                <= u32::MAX,
    ensures
        match r {
            Ok(st) => {
                &&& clean_before(constraint_alns@, constraint_alns@.len() as int, 0)
                &&& st.wf()
                &&& st.column_counts@.len() == constraint_alns@.len()
                &&& forall|a: int|
                    0 <= a < constraint_alns@.len() ==> #[trigger] st.column_counts@[a] == width_of(
                        constraint_alns@,
                        a,
                    )
                &&& holds_rows(st, constraint_alns@, constraint_alns@.len() as int, 0)
            },
            Err(e) => exists|a: int, i: int|
                #![trigger is_row(constraint_alns@, a, i)]
                is_row(constraint_alns@, a, i) && clean_before(constraint_alns@, a, i) && !row_clean(
                    constraint_alns@,
                    a,
                    i,
                ) && e == (if dup_at(constraint_alns@, a, i) {
                    GcmError::DuplicateName
                } else {
                    GcmError::RaggedAlignment
                }),
        },
{
    let ghost alns = constraint_alns@;
    let mut p = StateFromConstraints::new();
    let n = constraint_alns.len();
    let mut a: usize = 0;
    while a < n
        invariant
            a <= n,
            n == alns.len(),
            alns == constraint_alns@,
            n < u32::MAX,
            forall|b: int, j: int| is_row(alns, b, j) ==> (#[trigger] alns[b]@[j]).seq@.len() <= u32::MAX,
            p.inv(),
            p.cid == a,
            p.records == 0,
            clean_before(alns, a as int, 0),
            holds_rows(p.state, alns, a as int, 0),
            forall|b: int| 0 <= b < a ==> #[trigger] p.state.column_counts@[b] == width_of(alns, b),
        decreases n - a,
    {
        let aln = &constraint_alns[a];
        let m = aln.len();
        let mut i: usize = 0;
        while i < m
            invariant
                i <= m,
                a < n,
                n == alns.len(),
                alns == constraint_alns@,
                n < u32::MAX,
                aln@ == alns[a as int]@,
                m == aln@.len(),
                forall|b: int, j: int|
                    is_row(alns, b, j) ==> (#[trigger] alns[b]@[j]).seq@.len() <= u32::MAX,
                p.inv(),
                p.cid == a,
                p.records == i,
                i > 0 ==> p.columns == alns[a as int]@[0].seq@.len(),
                clean_before(alns, a as int, i as int),
                holds_rows(p.state, alns, a as int, i as int),
                forall|b: int| 0 <= b < a ==> #[trigger] p.state.column_counts@[b] == width_of(alns, b),
            decreases m - i,
        {
            let rec = &aln[i];
            assert(is_row(alns, a as int, i as int));
            assert(rec == alns[a as int]@[i as int]);
            let ghost before = p;
            let outcome = p.on_record(rec.name.as_str(), rec.seq.as_slice());
            proof {
                // the name is taken exactly where a row before has it
                if before.state.knows(rec.name@) {
                    assert(named_before(alns, a as int, i as int, rec.name@));
                    let (b, j) = choose|b: int, j: int|
                        #![trigger alns[b]@[j]]
                        is_row(alns, b, j) && comes_before(b, j, a as int, i as int)
                            && alns[b]@[j].name@ == rec.name@;
                    assert(dup_at(alns, a as int, i as int));
                } else if dup_at(alns, a as int, i as int) {
                    let (b, j) = choose|b: int, j: int|
                        #![trigger alns[b]@[j]]
                        is_row(alns, b, j) && comes_before(b, j, a as int, i as int)
                            && alns[b]@[j].name@ == alns[a as int]@[i as int].name@;
                    assert(row_held(before.state, alns, b, j));
                }
                assert(dup_at(alns, a as int, i as int) == before.state.knows(rec.name@));
            }
            match outcome {
                Err(e) => {
                    assert(is_row(alns, a as int, i as int) && clean_before(alns, a as int, i as int)
                        && !row_clean(alns, a as int, i as int));
                    return Err(e);
                },
                Ok(()) => {
                    proof {
                        assert(row_clean(alns, a as int, i as int));
                        assert forall|b: int, j: int|
                            is_row(alns, b, j) && comes_before(
                                b,
                                j,
                                a as int,
                                i as int + 1,
                            ) implies #[trigger] row_clean(alns, b, j) by {
                            if comes_before(b, j, a as int, i as int) {
                            } else {
                                assert(b == a && j == i);
                            }
                        }
                        lemma_row_taken(before.state, p.state, alns, a as int, i as int);
                    }
                },
            }
            i += 1;
        }
        let ghost before = p;
        p.next_aln();
        proof {
            assert(rows_before(alns, a as int + 1) == rows_before(alns, a as int) + m);
            assert forall|b: int, j: int|
                is_row(alns, b, j) && comes_before(b, j, a as int + 1, 0) implies #[trigger] row_clean(
                alns,
                b,
                j,
            ) by {
                assert(comes_before(b, j, a as int, m as int));
            }
            lemma_rows_next(before.state, p.state, alns, a as int);
            assert forall|b: int| 0 <= b < a + 1 implies #[trigger] p.state.column_counts@[b]
                == width_of(alns, b) by {
                if b < a {
                    assert(before.state.column_counts@[b] == width_of(alns, b));
                }
            }
        }
        a += 1;
    }
    Ok(p.take())
}


/// The number of the first column of each constraint, and after them the number of all
/// columns; fails where there are more than a graph can have nodes.
pub fn column_offsets(counts: &Vec<usize>) -> (r: Result<Vec<usize>, GcmError>)
    ensures
        match r {
            Ok(offs) => {
                &&& offset(counts@, counts@.len() as int) <= NODE_CAP
                &&& offs@.len() == counts@.len() + 1
                &&& forall|k: int| 0 <= k <= counts@.len() ==> #[trigger] offs@[k] == offset(counts@, k)
            },
            Err(e) => e == GcmError::TooManyColumns && offset(counts@, counts@.len() as int)
                > NODE_CAP,
        },
{
    let mut offs: Vec<usize> = Vec::new();
    offs.push(0);
    let mut k: usize = 0;
    while k < counts.len()
        invariant
            k <= counts@.len(),
            offs@.len() == k + 1,
            forall|j: int| 0 <= j <= k ==> #[trigger] offs@[j] == offset(counts@, j),
            offset(counts@, k as int) <= NODE_CAP,
        decreases counts.len() - k,
    {
        let c = counts[k];
        let cur = offs[k];
        if c > NODE_CAP - cur {
            proof {
                crate::naive_upgma::lemma_offset_rises(counts@, k as int + 1, counts@.len() as int);
            }
            return Err(GcmError::TooManyColumns);
        }
        offs.push(cur + c);
        k += 1;
    }
    Ok(offs)
}

impl Graph {
    /// The graph over the columns of the constraints that has no edge yet.
    pub fn with_nodes(counts: &Vec<usize>) -> (r: Result<Graph, GcmError>)
        requires
            counts@.len() <= u32::MAX,
            forall|k: int| 0 <= k < counts@.len() ==> #[trigger] counts@[k] <= u32::MAX,
        ensures
            match r {
                Ok(g) => g.wf(counts@) && g.sims.edges@.len() == 0,
                Err(e) => e == GcmError::TooManyColumns && offset(counts@, counts@.len() as int)
                    > NODE_CAP,
            },
    {
        let offs = match column_offsets(counts) {
            Ok(o) => o,
            Err(e) => {
                return Err(e);
            },
        };
        let mut node_pos: Vec<(u32, u32)> = Vec::new();
        let mut k: usize = 0;
        while k < counts.len()
            invariant
                k <= counts@.len(),
                counts@.len() <= u32::MAX,
                forall|j: int| 0 <= j < counts@.len() ==> #[trigger] counts@[j] <= u32::MAX,
                offs@.len() == counts@.len() + 1,
                forall|j: int| 0 <= j <= counts@.len() ==> #[trigger] offs@[j] == offset(counts@, j),
                node_pos@.len() == offset(counts@, k as int),
                forall|id: int|
                    0 <= id < node_pos@.len() ==> {
                        let p = #[trigger] node_pos@[id];
                        p.0 < k && p.1 < counts@[p.0 as int] && node_of(counts@, p) == id
                    },
            decreases counts.len() - k,
        {
            let c = counts[k];
            let mut i: usize = 0;
            while i < c
                invariant
                    i <= c,
                    k < counts@.len(),
                    c == counts@[k as int],
                    c <= u32::MAX,
                    counts@.len() <= u32::MAX,
                    node_pos@.len() == offset(counts@, k as int) + i,
                    forall|id: int|
                        0 <= id < node_pos@.len() ==> {
                            let p = #[trigger] node_pos@[id];
                            p.0 <= k && p.1 < counts@[p.0 as int] && node_of(counts@, p) == id
                        },
                decreases c - i,
            {
                node_pos.push((k as u32, i as u32));
                i += 1;
            }
            k += 1;
        }
        let size = node_pos.len();
        let g = Graph { size, labels: Vec::new(), sims: Sims::new(), node_pos };
        proof {
            assert forall|id: usize| g.labels@.contains(id) <==> is_endpoint(g.sims.edges@, id) by {
                if g.labels@.contains(id) {
                    let k = choose|k: int| 0 <= k < g.labels@.len() && g.labels@[k] == id;
                }
            }
        }
        Ok(g)
    }

    /// Lists the nodes that have an edge, in rising order.
    pub(crate) fn refresh_labels(&mut self, Ghost(counts): Ghost<Seq<usize>>)
        requires
            old(self).size == offset(counts, counts.len() as int),
            old(self).size <= NODE_CAP,
            old(self).node_pos@.len() == old(self).size,
            forall|id: int|
                0 <= id < old(self).size ==> {
                    let p = #[trigger] old(self).node_pos@[id];
                    p.0 < counts.len() && p.1 < counts[p.0 as int] && node_of(counts, p) == id
                },
            old(self).sims.wf(),
            forall|i: int|
                0 <= i < old(self).sims.edges@.len() ==> (#[trigger] old(self).sims.edges@[i]).v
                    < old(self).size,
        ensures
            final(self).wf(counts),
            final(self).size == old(self).size,
            final(self).sims == old(self).sims,
            final(self).node_pos == old(self).node_pos,
    {
        let n = self.size;
        let mut marked: Vec<bool> = Vec::new();
        let mut k: usize = 0;
        while k < n
            invariant
                k <= n,
                marked@.len() == k,
                forall|j: int| 0 <= j < k ==> !(#[trigger] marked@[j]),
            decreases n - k,
        {
            marked.push(false);
            k += 1;
        }
        let ghost edges = self.sims.edges@;
        let m = self.sims.edges.len();
        let mut e: usize = 0;
        while e < m
            invariant
                e <= m,
                m == edges.len(),
                edges == self.sims.edges@,
                self.sims.wf(),
                n == self.size,
                forall|i: int| 0 <= i < edges.len() ==> (#[trigger] edges[i]).v < n,
                marked@.len() == n,
                forall|id: usize|
                    id < n ==> (#[trigger] marked@[id as int] <==> is_endpoint(
                        edges.take(e as int),
                        id,
                    )),
            decreases m - e,
        {
            let edge = self.sims.edges[e];
            assert(edge == edges[e as int]);
            assert(edge.u < edge.v);
            let ghost m0 = marked@;
            marked[edge.u] = true;
            marked[edge.v] = true;
            proof {
                let t0 = edges.take(e as int);
                let t1 = edges.take(e as int + 1);
                assert(t1[e as int] == edge);
                assert forall|id: usize| id < n implies (#[trigger] marked@[id as int] <==> is_endpoint(
                    t1,
                    id,
                )) by {
                    if is_endpoint(t1, id) {
                        let i = choose|i: int|
                            0 <= i < t1.len() && ((#[trigger] t1[i]).u == id || t1[i].v == id);
                        if i < e {
                            assert(t0[i] == t1[i]);
                            assert(is_endpoint(t0, id));
                        }
                    }
                    if is_endpoint(t0, id) {
                        let i = choose|i: int|
                            0 <= i < t0.len() && ((#[trigger] t0[i]).u == id || t0[i].v == id);
                        assert(t1[i] == t0[i]);
                    }
                    if id == edge.u || id == edge.v {
                        assert(t1[e as int].u == id || t1[e as int].v == id);
                    }
                }
            }
            e += 1;
        }
        assert(edges.take(m as int) =~= edges);
        let mut labels: Vec<usize> = Vec::new();
        let mut id: usize = 0;
        while id < n
            invariant
                id <= n,
                marked@.len() == n,
                forall|a: int, b: int| 0 <= a < b < labels@.len() ==> labels@[a] < labels@[b],
                forall|a: int| 0 <= a < labels@.len() ==> #[trigger] labels@[a] < id,
                forall|x: usize| labels@.contains(x) <==> x < id && marked@[x as int],
            decreases n - id,
        {
            if marked[id] {
                let ghost l0 = labels@;
                labels.push(id);
                proof {
                    assert(labels@[labels@.len() - 1] == id);
                    assert forall|x: usize| labels@.contains(x) <==> x < id + 1 && marked@[x as int] by {
                        if labels@.contains(x) {
                            let k = choose|k: int| 0 <= k < labels@.len() && labels@[k] == x;
                            if k < l0.len() {
                                assert(l0[k] == x);
                                assert(l0.contains(x));
                            }
                        }
                        if x < id && marked@[x as int] {
                            assert(l0.contains(x));
                            let k = choose|k: int| 0 <= k < l0.len() && l0[k] == x;
                            assert(labels@[k] == x);
                        }
                    }
                }
            }
            id += 1;
        }
        self.labels = labels;
        proof {
            assert forall|x: usize| self.labels@.contains(x) <==> is_endpoint(self.sims.edges@, x) by {
                if is_endpoint(edges, x) {
                    let i = choose|i: int|
                        0 <= i < edges.len() && ((#[trigger] edges[i]).u == x || edges[i].v == x);
                    assert(edges[i].u < edges[i].v < n);
                }
            }
        }
    }
}


/// The number of residues among the first `n` columns of a row.
pub open spec fn residues_upto(seq: Seq<u8>, n: int) -> int
    decreases n,
{
    if n <= 0 {
        0
    } else {
        residues_upto(seq, n - 1) + (if is_gap(seq[n - 1]) {
            0int
        } else {
            1int
        })
    }
}

/// Whether the sequence of the row is known and has as many residues as the row, at least.
pub open spec fn row_matches(state: AlnState, rec: Record) -> bool {
    state.knows(rec.name@) && residues_upto(rec.seq@, rec.seq@.len() as int)
        <= state.s@[state.id_of(rec.name@) as int]@.len()
}

/// What the first faulty row of a glue fails with: an unknown name, a length unlike that
/// of the first row, or more residues than its sequence has, in this order.
pub open spec fn glue_fault(state: AlnState, glue: Seq<Record>, i: int) -> Option<GcmError> {
    if !state.knows(glue[i].name@) {
        Some(GcmError::UnknownSequence)
    } else if glue[i].seq@.len() != glue[0].seq@.len() {
        Some(GcmError::RaggedAlignment)
    } else if !row_matches(state, glue[i]) {
        Some(GcmError::ResidueMismatch)
    } else {
        None
    }
}

/// Whether no row of the glue before row `i` is faulty.
pub open spec fn glue_clean_before(state: AlnState, glue: Seq<Record>, i: int) -> bool {
    forall|j: int| 0 <= j < i ==> (#[trigger] glue_fault(state, glue, j)).is_none()
}

/// The column of its constraint in which the row has the residue that stands in column
/// `col` of the alignment.
pub open spec fn coord_at(state: AlnState, rec: Record, col: int) -> Pos {
    state.s@[state.id_of(rec.name@) as int]@[residues_upto(rec.seq@, col)]
}

/// Whether the row has, in column `col` of the glue, the residue of node `u`.
pub open spec fn stands_at(state: AlnState, rec: Record, col: int, u: int) -> bool {
    col < rec.seq@.len() && !is_gap(rec.seq@[col]) && node_of(
        state.column_counts@,
        coord_at(state, rec, col),
    ) == u
}

/// How many of the first `n` rows of the glue have the residue of node `u` in column `col`.
pub open spec fn count_in(state: AlnState, glue: Seq<Record>, n: int, col: int, u: int) -> nat
    decreases n,
{
    if n <= 0 {
        0
    } else {
        count_in(state, glue, n - 1, col, u) + (if stands_at(state, glue[n - 1], col, u) {
            1nat
        } else {
            0nat
        })
    }
}

/// What column `col` of a glue gives to the weight between two nodes: the product of how
/// often each stands in it.
pub open spec fn col_weight(state: AlnState, glue: Seq<Record>, col: int, u: int, v: int) -> int {
    count_in(state, glue, glue.len() as int, col, u) as int * count_in(
        state,
        glue,
        glue.len() as int,
        col,
        v,
    ) as int
}

/// What the first `w` columns of a glue give to the weight between two nodes.
pub open spec fn glue_weight(state: AlnState, glue: Seq<Record>, w: int, u: int, v: int) -> int
    decreases w,
{
    if w <= 0 {
        0
    } else {
        glue_weight(state, glue, w - 1, u, v) + col_weight(state, glue, w - 1, u, v)
    }
}

/// The number of columns of a glue: the length of its first row, or none.
pub open spec fn glue_width(glue: Seq<Record>) -> int {
    if glue.len() > 0 {
        glue[0].seq@.len() as int
    } else {
        0
    }
}

/// The map tells of node `u` how often it stands in the column: the count of the first `n`
/// rows, and nothing where that is none.
pub open spec fn tells(m: Map<u64, u64>, state: AlnState, glue: Seq<Record>, n: int, col: int, u: u64) -> bool {
    (m.contains_key(u) <==> count_in(state, glue, n, col, u as int) > 0) && (m.contains_key(u)
        ==> m[u] == count_in(state, glue, n, col, u as int))
}

/// The map holds, for column `col`, how often each node stands in it among the first `n`
/// rows.
pub open spec fn colored(m: Map<u64, u64>, state: AlnState, glue: Seq<Record>, n: int, col: int) -> bool {
    forall|u: u64| #[trigger] tells(m, state, glue, n, col, u)
}

proof fn lemma_count_bound(state: AlnState, glue: Seq<Record>, n: int, col: int, u: int)
    requires
        0 <= n,
    ensures
        count_in(state, glue, n, col, u) <= n,
    decreases n,
{
    if n > 0 {
        lemma_count_bound(state, glue, n - 1, col, u);
    }
}

/// For each column of a glue, how often each node stands in it.
fn color_columns(state: &AlnState, glue: &Vec<Record>, offs: &Vec<usize>) -> (r: Result<
    Vec<AHashMap<u64, u64>>,
    GcmError,
>)
    requires
        state.wf(),
        offs@.len() == state.column_counts@.len() + 1,
        forall|k: int|
            0 <= k <= state.column_counts@.len() ==> #[trigger] offs@[k] == offset(
                state.column_counts@,
                k,
            ),
        offset(state.column_counts@, state.column_counts@.len() as int) <= NODE_CAP,
    ensures
        match r {
            Ok(colors) => {
                &&& glue_clean_before(*state, glue@, glue@.len() as int)
                &&& colors@.len() == glue_width(glue@)
                &&& forall|c: int|
                    0 <= c < colors@.len() ==> colored(
                        #[trigger] entries_of(colors@[c]),
                        *state,
                        glue@,
                        glue@.len() as int,
                        c,
                    )
                &&& forall|c: int, k: u64|
                    0 <= c < colors@.len() && #[trigger] entries_of(colors@[c]).contains_key(k)
                        ==> k < offset(state.column_counts@, state.column_counts@.len() as int)
            },
            Err(e) => exists|i: int|
                0 <= i < glue@.len() && glue_clean_before(*state, glue@, i) && #[trigger] glue_fault(
                    *state,
                    glue@,
                    i,
                ) == Some(e),
        },
{
    let ghost counts = state.column_counts@;
    let ghost size = offset(counts, counts.len() as int);
    let mut colors: Vec<AHashMap<u64, u64>> = Vec::new();
    let n = glue.len();
    let mut i: usize = 0;
    while i < n
        invariant
            i <= n,
            n == glue@.len(),
            state.wf(),
            counts == state.column_counts@,
            size == offset(counts, counts.len() as int),
            size <= NODE_CAP,
            offs@.len() == counts.len() + 1,
            forall|k: int| 0 <= k <= counts.len() ==> #[trigger] offs@[k] == offset(counts, k),
            glue_clean_before(*state, glue@, i as int),
            i > 0 ==> colors@.len() == glue@[0].seq@.len(),
            i == 0 ==> colors@.len() == 0,
            forall|c: int|
                0 <= c < colors@.len() ==> colored(
                    #[trigger] entries_of(colors@[c]),
                    *state,
                    glue@,
                    i as int,
                    c,
                ),
            forall|c: int, k: u64|
                0 <= c < colors@.len() && #[trigger] entries_of(colors@[c]).contains_key(k) ==> k
                    < size,
        decreases n - i,
    {
        let rec = &glue[i];
        let id = match state.lookup(rec.name.as_str()) {
            Some(id) => id,
            None => {
                assert(glue_fault(*state, glue@, i as int) == Some(GcmError::UnknownSequence));
                return Err(GcmError::UnknownSequence);
            },
        };
        let width = rec.seq.len();
        if i == 0 {
            let mut c: usize = 0;
            while c < width
                invariant
                    c <= width,
                    colors@.len() == c,
                    forall|x: int, k: u64|
                        0 <= x < c ==> !(#[trigger] entries_of(colors@[x]).contains_key(k)),
                decreases width - c,
            {
                colors.push(entries_new());
                c += 1;
            }
            proof {
                assert forall|c: int| 0 <= c < colors@.len() implies colored(
                    #[trigger] entries_of(colors@[c]),
                    *state,
                    glue@,
                    0,
                    c,
                ) by {
                    assert forall|u: u64| #[trigger]
                        tells(entries_of(colors@[c]), *state, glue@, 0, c, u) by {}
                }
            }
        } else if width != colors.len() {
            assert(glue_fault(*state, glue@, i as int) == Some(GcmError::RaggedAlignment));
            return Err(GcmError::RaggedAlignment);
        }
        assert(state.names_wf());
        assert(id < state.s@.len());
        let row = &state.s[id];
        proof {
            assert(row_fits(state.s@[id as int]@, counts));
        }
        // a row with more residues than its sequence is refused before it is counted
        let mut residues: usize = 0;
        let mut col: usize = 0;
        while col < width
            invariant
                col <= width,
                width == rec.seq@.len(),
                residues == residues_upto(rec.seq@, col as int),
                residues <= col,
            decreases width - col,
        {
            if rec.seq[col] != crate::weave::GAP && rec.seq[col] != crate::weave::DOT {
                residues += 1;
            }
            col += 1;
        }
        if residues > row.len() {
            assert(glue_fault(*state, glue@, i as int) == Some(GcmError::ResidueMismatch));
            return Err(GcmError::ResidueMismatch);
        }
        assert(glue_fault(*state, glue@, i as int).is_none());
        let mut non_gap: usize = 0;
        let mut col: usize = 0;
        while col < width
            invariant
                col <= width,
                width == rec.seq@.len(),
                width == colors@.len(),
                i < n,
                n == glue@.len(),
                rec == glue@[i as int],
                id == state.id_of(rec.name@),
                non_gap == residues_upto(rec.seq@, col as int),
                residues == residues_upto(rec.seq@, width as int),
                residues <= row@.len(),
                row@ == state.s@[id as int]@,
                row_fits(row@, counts),
                counts == state.column_counts@,
                size == offset(counts, counts.len() as int),
                size <= NODE_CAP,
                offs@.len() == counts.len() + 1,
                forall|k: int| 0 <= k <= counts.len() ==> #[trigger] offs@[k] == offset(counts, k),
                forall|c: int|
                    0 <= c < colors@.len() ==> colored(
                        #[trigger] entries_of(colors@[c]),
                        *state,
                        glue@,
                        if c < col {
                            i + 1
                        } else {
                            i as int
                        },
                        c,
                    ),
                forall|c: int, k: u64|
                    0 <= c < colors@.len() && #[trigger] entries_of(colors@[c]).contains_key(k)
                        ==> k < size,
            decreases width - col,
        {
            let ghost all0 = colors@;
            let ghost c0 = entries_of(colors@[col as int]);
            assert(colored(c0, *state, glue@, i as int, col as int));
            if rec.seq[col] != crate::weave::GAP && rec.seq[col] != crate::weave::DOT {
                proof {
                    lemma_residues_rise(rec.seq@, col as int + 1, width as int);
                }
                let p = row[non_gap];
                assert(p == coord_at(*state, *rec, col as int));
                proof {
                    let k = choose|k: int|
                        0 <= k < counts.len() && #[trigger] row_in_constraint(
                            row@,
                            k,
                            counts[k] as int,
                        );
                    assert(p.0 == k && p.1 < counts[k]);
                    crate::naive_upgma::lemma_offset_rises(counts, k + 1, counts.len() as int);
                }
                let node = offs[p.0 as usize] + p.1 as usize;
                assert(node == node_of(counts, p));
                let seen = match entries_get(&colors[col], node as u64) {
                    Some(v) => v,
                    None => 0,
                };
                proof {
                    assert(tells(c0, *state, glue@, i as int, col as int, node as u64));
                    lemma_count_bound(*state, glue@, i as int, col as int, node as int);
                }
                entries_insert(&mut colors[col], node as u64, seen + 1);
                proof {
                    let c1 = entries_of(colors@[col as int]);
                    assert forall|u: u64| #[trigger]
                        tells(c1, *state, glue@, i + 1, col as int, u) by {
                        assert(tells(c0, *state, glue@, i as int, col as int, u));
                        assert(stands_at(*state, glue@[i as int], col as int, u as int) <==> u
                            == node as u64);
                    }
                }
                non_gap += 1;
            } else {
                proof {
                    assert forall|u: u64| #[trigger]
                        tells(c0, *state, glue@, i + 1, col as int, u) by {
                        assert(tells(c0, *state, glue@, i as int, col as int, u));
                        assert(!stands_at(*state, glue@[i as int], col as int, u as int));
                    }
                }
            }
            proof {
                assert forall|c: int| 0 <= c < colors@.len() implies colored(
                    #[trigger] entries_of(colors@[c]),
                    *state,
                    glue@,
                    if c < col + 1 {
                        i + 1
                    } else {
                        i as int
                    },
                    c,
                ) by {
                    if c != col {
                        assert(colors@[c] == all0[c]);
                        assert(colored(entries_of(all0[c]), *state, glue@, if c < col {
                            i + 1
                        } else {
                            i as int
                        }, c));
                    }
                }
                assert forall|c: int, k: u64|
                    0 <= c < colors@.len() && #[trigger] entries_of(colors@[c]).contains_key(
                        k,
                    ) implies k < size by {
                    if c != col {
                        assert(colors@[c] == all0[c]);
                    } else {
                        if k != node_key(state, rec, col as int) {
                            assert(c0.contains_key(k) || !c0.contains_key(k));
                        }
                    }
                }
            }
            col += 1;
        }
        i += 1;
    }
    Ok(colors)
}

/// The key of the node whose residue the row has in a column.
pub open spec fn node_key(state: &AlnState, rec: &Record, col: int) -> u64 {
    node_of(state.column_counts@, coord_at(*state, *rec, col)) as u64
}

pub proof fn lemma_residues_rise(seq: Seq<u8>, a: int, b: int)
    requires
        0 <= a <= b,
    ensures
        0 <= residues_upto(seq, a) <= residues_upto(seq, b),
    decreases b,
{
    if a < b {
        lemma_residues_rise(seq, a, b - 1);
    } else {
        lemma_residues_nonneg(seq, a);
    }
}

proof fn lemma_residues_nonneg(seq: Seq<u8>, a: int)
    ensures
        0 <= residues_upto(seq, a),
    decreases a,
{
    if a > 0 {
        lemma_residues_nonneg(seq, a - 1);
    }
}

/// Whether the pair of nodes has been dealt with in the column at hand: the two are keys,
/// and their places come before places `x` and `y`.
pub open spec fn pair_done(keys: Seq<u64>, x: int, y: int, u: int, v: int) -> bool {
    exists|i: int, j: int|
        #![trigger keys[i], keys[j]]
        0 <= i < j < keys.len() && (i < x || (i == x && j < y)) && ((keys[i] == u && keys[j] == v)
            || (keys[i] == v && keys[j] == u))
}

/// The store holds, between nodes `u` and `v`, what the first `c` columns of the glue give
/// them, and what column `c` gives them where the pair has been dealt with.
pub open spec fn pair_settled(
    g: Sims,
    state: AlnState,
    glue: Seq<Record>,
    c: int,
    keys: Seq<u64>,
    x: int,
    y: int,
    u: usize,
    v: usize,
) -> bool {
    g.weight(u, v) == glue_weight(state, glue, c, u as int, v as int) + (if pair_done(
        keys,
        x,
        y,
        u as int,
        v as int,
    ) {
        col_weight(state, glue, c, u as int, v as int)
    } else {
        0
    })
}

/// The store holds the weights of the first `c` columns of the glue, and of column `c` for
/// the pairs of keys before places `x` and `y`.
pub open spec fn weights_settled(
    g: Sims,
    state: AlnState,
    glue: Seq<Record>,
    c: int,
    keys: Seq<u64>,
    x: int,
    y: int,
) -> bool {
    forall|u: usize, v: usize| u < v ==> #[trigger] pair_settled(g, state, glue, c, keys, x, y, u, v)
}

/// What a glue gives to the weight between two nodes, as a function of whole numbers:
/// nothing but for a node and a larger one.
pub open spec fn glue_weight_at(state: AlnState, glue: Seq<Record>, u: int, v: int) -> int {
    if 0 <= u < v {
        glue_weight(state, glue, glue_width(glue), u, v)
    } else {
        0
    }
}

/// The sum of all weights that a glue gives.
pub open spec fn glue_total(state: AlnState, glue: Seq<Record>) -> int {
    grid_total(
        |u: int, v: int| glue_weight_at(state, glue, u, v),
        offset(state.column_counts@, state.column_counts@.len() as int),
        offset(state.column_counts@, state.column_counts@.len() as int),
    )
}

proof fn lemma_col_weight_nonneg(state: AlnState, glue: Seq<Record>, col: int, u: int, v: int)
    ensures
        col_weight(state, glue, col, u, v) >= 0,
{
    let a = count_in(state, glue, glue.len() as int, col, u);
    let b = count_in(state, glue, glue.len() as int, col, v);
    assert(a as int * b as int >= 0) by (nonlinear_arith)
        requires
            a >= 0,
            b >= 0,
    ;
}

proof fn lemma_glue_weight_rises(state: AlnState, glue: Seq<Record>, a: int, b: int, u: int, v: int)
    requires
        0 <= a <= b,
    ensures
        0 <= glue_weight(state, glue, a, u, v) <= glue_weight(state, glue, b, u, v),
    decreases b,
{
    if a < b {
        lemma_glue_weight_rises(state, glue, a, b - 1, u, v);
        lemma_col_weight_nonneg(state, glue, b - 1, u, v);
    } else {
        if a > 0 {
            lemma_glue_weight_rises(state, glue, a - 1, a - 1, u, v);
            lemma_col_weight_nonneg(state, glue, a - 1, u, v);
        }
    }
}

/// A store holds no weight but between a node and a larger one.
proof fn lemma_weight_at_zero(g: Sims, u: int, v: int)
    requires
        g.wf(),
        !(0 <= u < v),
    ensures
        g.weight_at(u, v) == 0,
{
    if 0 <= u <= usize::MAX && 0 <= v <= usize::MAX {
        if g.has_edge(u as usize, v as usize) {
            g.lemma_one_direction(u as usize, v as usize);
        }
    }
}

/// While the weights of a glue are gathered, the store holds at most what the glue gives.
proof fn lemma_settled_below(
    g: Sims,
    state: AlnState,
    glue: Seq<Record>,
    c: int,
    keys: Seq<u64>,
    x: int,
    y: int,
    u: int,
    v: int,
)
    requires
        g.wf(),
        0 <= c < glue_width(glue),
        weights_settled(g, state, glue, c, keys, x, y),
    ensures
        0 <= g.weight_at(u, v) <= glue_weight_at(state, glue, u, v),
        0 <= u < v <= usize::MAX ==> g.weight_at(u, v) <= glue_weight(state, glue, c + 1, u, v),
        0 <= u < v <= usize::MAX && !pair_done(keys, x, y, u, v) ==> g.weight_at(u, v)
            == glue_weight(state, glue, c, u, v),
{
    if 0 <= u < v <= usize::MAX {
        assert(pair_settled(g, state, glue, c, keys, x, y, u as usize, v as usize));
        lemma_col_weight_nonneg(state, glue, c, u, v);
        lemma_glue_weight_rises(state, glue, c + 1, glue_width(glue), u, v);
        lemma_glue_weight_rises(state, glue, c, c, u, v);
    } else if 0 <= u < v {
        lemma_glue_weight_rises(state, glue, 0, glue_width(glue), u, v);
    } else {
        lemma_weight_at_zero(g, u, v);
    }
}

/// A weight that cannot be added without passing the cap shows that the glue gives too
/// much.
proof fn lemma_glue_overflows(
    g: Sims,
    state: AlnState,
    glue: Seq<Record>,
    c: int,
    keys: Seq<u64>,
    x: int,
    y: int,
    lo: int,
    hi: int,
    w: int,
)
    requires
        g.wf(),
        0 <= c < glue_width(glue),
        weights_settled(g, state, glue, c, keys, x, y),
        forall|i: int|
            0 <= i < g.edges@.len() ==> (#[trigger] g.edges@[i]).v < offset(
                state.column_counts@,
                state.column_counts@.len() as int,
            ),
        offset(state.column_counts@, state.column_counts@.len() as int) <= NODE_CAP,
        0 <= lo < hi < offset(state.column_counts@, state.column_counts@.len() as int),
        !pair_done(keys, x, y, lo, hi),
        w == col_weight(state, glue, c, lo, hi),
        g.total() + w > WEIGHT_CAP,
    ensures
        glue_total(state, glue) > WEIGHT_CAP,
{
    let n = offset(state.column_counts@, state.column_counts@.len() as int);
    let f0 = |u: int, v: int| g.weight_at(u, v);
    let f1 = |u: int, v: int|
        g.weight_at(u, v) + (if u == lo && v == hi {
            w
        } else {
            0
        });
    let top = |u: int, v: int| glue_weight_at(state, glue, u, v);
    g.lemma_total(n);
    assert forall|u: int, v: int| 0 <= u < n && 0 <= v < n && !(u == lo && v == hi) implies #[trigger] f1(
        u,
        v,
    ) == f0(u, v) by {}
    lemma_grid_point(f0, f1, n, n, lo, hi, w);
    assert forall|u: int, v: int| 0 <= u < n && 0 <= v < n implies #[trigger] f1(u, v) <= top(
        u,
        v,
    ) by {
        lemma_settled_below(g, state, glue, c, keys, x, y, u, v);
        if u == lo && v == hi {
            lemma_glue_weight_rises(state, glue, c + 1, glue_width(glue), u, v);
        }
    }
    lemma_grid_le(f1, top, n, n);
}

/// A product of counts that is too large for a weight shows that the glue gives too much.
proof fn lemma_glue_overflows_at(state: AlnState, glue: Seq<Record>, c: int, lo: int, hi: int)
    requires
        0 <= c < glue_width(glue),
        0 <= lo < hi < offset(state.column_counts@, state.column_counts@.len() as int),
        col_weight(state, glue, c, lo, hi) > WEIGHT_CAP,
    ensures
        glue_total(state, glue) > WEIGHT_CAP,
{
    let n = offset(state.column_counts@, state.column_counts@.len() as int);
    let top = |u: int, v: int| glue_weight_at(state, glue, u, v);
    assert forall|u: int, v: int| 0 <= u < n && 0 <= v < n implies #[trigger] top(u, v) >= 0 by {
        if 0 <= u < v {
            lemma_glue_weight_rises(state, glue, 0, glue_width(glue), u, v);
        }
    }
    lemma_grid_nonneg(top, n, n, lo, hi);
    lemma_glue_weight_rises(state, glue, c + 1, glue_width(glue), lo, hi);
    lemma_glue_weight_rises(state, glue, c, c, lo, hi);
}

/// A store that holds what a glue gives holds as much as the glue gives in all.
proof fn lemma_glue_total(g: Sims, state: AlnState, glue: Seq<Record>)
    requires
        g.wf(),
        offset(state.column_counts@, state.column_counts@.len() as int) <= NODE_CAP,
        forall|i: int|
            0 <= i < g.edges@.len() ==> (#[trigger] g.edges@[i]).v < offset(
                state.column_counts@,
                state.column_counts@.len() as int,
            ),
        forall|u: usize, v: usize|
            u < v ==> #[trigger] g.weight(u, v) == glue_weight(
                state,
                glue,
                glue_width(glue),
                u as int,
                v as int,
            ),
    ensures
        g.total() == glue_total(state, glue),
{
    let n = offset(state.column_counts@, state.column_counts@.len() as int);
    let f0 = |u: int, v: int| g.weight_at(u, v);
    let top = |u: int, v: int| glue_weight_at(state, glue, u, v);
    crate::naive_upgma::lemma_offset_rises(
        state.column_counts@,
        0,
        state.column_counts@.len() as int,
    );
    g.lemma_total(n);
    assert forall|u: int, v: int| 0 <= u < n && 0 <= v < n implies #[trigger] f0(u, v) == top(
        u,
        v,
    ) by {
        if 0 <= u < v {
            assert(g.weight(u as usize, v as usize) == glue_weight(
                state,
                glue,
                glue_width(glue),
                u,
                v,
            ));
        } else {
            lemma_weight_at_zero(g, u, v);
        }
    }
    lemma_grid_same(f0, top, n, n);
}

/// The weights that one glue gives: for each of its columns and each two different nodes
/// that stand in it, the product of how often they do.
pub fn build_subgraph(state: &AlnState, glue: &Vec<Record>) -> (r: Result<Sims, GcmError>)
    requires
        state.wf(),
    ensures
        match r {
            Ok(g) => {
                &&& g.wf()
                &&& offset(state.column_counts@, state.column_counts@.len() as int) <= NODE_CAP
                &&& glue_clean_before(*state, glue@, glue@.len() as int)
                &&& forall|i: int|
                    0 <= i < g.edges@.len() ==> (#[trigger] g.edges@[i]).v < offset(
                        state.column_counts@,
                        state.column_counts@.len() as int,
                    )
                &&& forall|u: usize, v: usize|
                    u < v ==> #[trigger] g.weight(u, v) == glue_weight(
                        *state,
                        glue@,
                        glue_width(glue@),
                        u as int,
                        v as int,
                    )
                &&& g.total() == glue_total(*state, glue@)
            },
            Err(e) => {
                ||| e == GcmError::TooManyColumns && offset(
                    state.column_counts@,
                    state.column_counts@.len() as int,
                ) > NODE_CAP
                ||| e == GcmError::WeightOverflow && glue_clean_before(
                    *state,
                    glue@,
                    glue@.len() as int,
                ) && offset(state.column_counts@, state.column_counts@.len() as int) <= NODE_CAP
                    && glue_total(*state, glue@) > WEIGHT_CAP
                ||| offset(state.column_counts@, state.column_counts@.len() as int) <= NODE_CAP
                    && exists|i: int|
                    0 <= i < glue@.len() && glue_clean_before(*state, glue@, i)
                        && #[trigger] glue_fault(*state, glue@, i) == Some(e)
            },
        },
{
    let ghost size = offset(state.column_counts@, state.column_counts@.len() as int);
    let offs = match column_offsets(&state.column_counts) {
        Ok(o) => o,
        Err(e) => {
            return Err(e);
        },
    };
    let colors = match color_columns(state, glue, &offs) {
        Ok(c) => c,
        Err(e) => {
            return Err(e);
        },
    };
    let ghost rows = glue@;
    let ghost n = glue@.len() as int;
    let mut res = Sims::new();
    let mut c: usize = 0;
    proof {
        assert forall|u: usize, v: usize| u < v implies #[trigger] pair_settled(
            res,
            *state,
            rows,
            0,
            Seq::<u64>::empty(),
            0,
            0,
            u,
            v,
        ) by {
            assert(!res.has_edge(u, v));
        }
    }
    while c < colors.len()
        invariant
            c <= colors@.len(),
            size <= NODE_CAP,
            size == offset(state.column_counts@, state.column_counts@.len() as int),
            rows == glue@,
            n == glue@.len(),
            colors@.len() == glue_width(rows),
            glue_clean_before(*state, rows, n),
            res.wf(),
            forall|i: int| 0 <= i < res.edges@.len() ==> (#[trigger] res.edges@[i]).v < size,
            forall|x: int|
                0 <= x < colors@.len() ==> colored(
                    #[trigger] entries_of(colors@[x]),
                    *state,
                    rows,
                    n,
                    x,
                ),
            forall|x: int, k: u64|
                0 <= x < colors@.len() && #[trigger] entries_of(colors@[x]).contains_key(k) ==> k
                    < size,
            weights_settled(res, *state, rows, c as int, Seq::<u64>::empty(), 0, 0),
        decreases colors.len() - c,
    {
        let keys = entries_keys(&colors[c]);
        let ghost col = entries_of(colors@[c as int]);
        assert(colored(col, *state, rows, n, c as int));
        assert forall|k: u64| #[trigger] col.contains_key(k) implies k < size by {
            assert(entries_of(colors@[c as int]).contains_key(k));
        }
        let mut x: usize = 0;
        proof {
            assert forall|u: usize, v: usize| u < v implies #[trigger] pair_settled(
                res,
                *state,
                rows,
                c as int,
                keys@,
                0,
                1,
                u,
                v,
            ) by {
                assert(pair_settled(res, *state, rows, c as int, Seq::<u64>::empty(), 0, 0, u, v));
                assert(!pair_done(Seq::<u64>::empty(), 0, 0, u as int, v as int));
                assert(!pair_done(keys@, 0, 1, u as int, v as int));
            }
        }
        while x < keys.len()
            invariant
                x <= keys@.len(),
                c < colors@.len(),
                colors@.len() == glue_width(rows),
                col == entries_of(colors@[c as int]),
                colored(col, *state, rows, n, c as int),
                size <= NODE_CAP,
                size == offset(state.column_counts@, state.column_counts@.len() as int),
                rows == glue@,
                n == glue@.len(),
                glue_clean_before(*state, rows, n),
                keys@.no_duplicates(),
                forall|k: u64| #[trigger] keys@.contains(k) <==> col.contains_key(k),
                forall|k: u64| #[trigger] col.contains_key(k) ==> k < size,
                res.wf(),
                forall|i: int| 0 <= i < res.edges@.len() ==> (#[trigger] res.edges@[i]).v < size,
                weights_settled(res, *state, rows, c as int, keys@, x as int, x as int + 1),
            decreases keys.len() - x,
        {
            let a = keys[x];
            assert(keys@.contains(a));
            assert(col.contains_key(a));
            assert(tells(col, *state, rows, n, c as int, a));
            let ca = match entries_get(&colors[c], a) {
                Some(v) => v,
                None => 0,
            };
            let mut y: usize = x + 1;
            while y < keys.len()
                invariant
                    x < y <= keys@.len(),
                    c < colors@.len(),
                    colors@.len() == glue_width(rows),
                    col == entries_of(colors@[c as int]),
                    colored(col, *state, rows, n, c as int),
                    size <= NODE_CAP,
                    size == offset(state.column_counts@, state.column_counts@.len() as int),
                    rows == glue@,
                    n == glue@.len(),
                    glue_clean_before(*state, rows, n),
                    keys@.no_duplicates(),
                    a == keys@[x as int],
                    col.contains_key(a),
                    ca == count_in(*state, rows, n, c as int, a as int),
                    ca >= 1,
                    forall|k: u64| #[trigger] keys@.contains(k) <==> col.contains_key(k),
                    forall|k: u64| #[trigger] col.contains_key(k) ==> k < size,
                    res.wf(),
                    forall|i: int| 0 <= i < res.edges@.len() ==> (#[trigger] res.edges@[i]).v < size,
                    weights_settled(res, *state, rows, c as int, keys@, x as int, y as int),
                decreases keys.len() - y,
            {
                let b = keys[y];
                assert(keys@.contains(b));
                assert(col.contains_key(b));
                assert(tells(col, *state, rows, n, c as int, b));
                assert(a != b);
                let cb = match entries_get(&colors[c], b) {
                    Some(v) => v,
                    None => 0,
                };
                let ghost lo = if a < b {
                    a as int
                } else {
                    b as int
                };
                let ghost hi = if a < b {
                    b as int
                } else {
                    a as int
                };
                proof {
                    lemma_pair_fresh(keys@, x as int, y as int);
                    assert(col_weight(*state, rows, c as int, lo, hi) == ca * cb) by (nonlinear_arith)
                        requires
                            col_weight(*state, rows, c as int, lo, hi) == count_in(
                                *state,
                                rows,
                                n,
                                c as int,
                                lo,
                            ) * count_in(*state, rows, n, c as int, hi),
                            (count_in(*state, rows, n, c as int, lo) == ca && count_in(
                                *state,
                                rows,
                                n,
                                c as int,
                                hi,
                            ) == cb) || (count_in(*state, rows, n, c as int, lo) == cb && count_in(
                                *state,
                                rows,
                                n,
                                c as int,
                                hi,
                            ) == ca),
                    ;
                }
                let w = match ca.checked_mul(cb) {
                    Some(w) => w,
                    None => {
                        proof {
                            lemma_glue_overflows_at(*state, rows, c as int, lo, hi);
                        }
                        return Err(GcmError::WeightOverflow);
                    },
                };
                assert(w >= 1) by (nonlinear_arith)
                    requires
                        w == ca * cb,
                        ca >= 1,
                        cb >= 1,
                ;
                let ghost before = res;
                match res.add(a as usize, b as usize, w) {
                    Ok(()) => {},
                    Err(e) => {
                        proof {
                            lemma_glue_overflows(
                                before,
                                *state,
                                rows,
                                c as int,
                                keys@,
                                x as int,
                                y as int,
                                lo,
                                hi,
                                w as int,
                            );
                        }
                        return Err(e);
                    },
                }
                proof {
                    lemma_add_within(before, res, size as int, if a < b {
                        a as usize
                    } else {
                        b as usize
                    }, if a < b {
                        b as usize
                    } else {
                        a as usize
                    });
                    lemma_pair_added(before, res, *state, rows, c as int, keys@, x as int, y as int);
                }
                y += 1;
            }
            proof {
                lemma_pairs_next(res, *state, rows, c as int, keys@, x as int);
            }
            x += 1;
        }
        proof {
            lemma_column_settled(res, *state, rows, c as int, keys@, col);
        }
        c += 1;
    }
    proof {
        assert forall|u: usize, v: usize| u < v implies #[trigger] res.weight(u, v) == glue_weight(
            *state,
            rows,
            glue_width(rows),
            u as int,
            v as int,
        ) by {
            assert(pair_settled(
                res,
                *state,
                rows,
                glue_width(rows),
                Seq::<u64>::empty(),
                0,
                0,
                u,
                v,
            ));
        }
        lemma_glue_total(res, *state, rows);
    }
    Ok(res)
}

/// The pair of keys at places `x` and `y` has not been dealt with before these places.
proof fn lemma_pair_fresh(keys: Seq<u64>, x: int, y: int)
    requires
        keys.no_duplicates(),
        0 <= x < y < keys.len(),
    ensures
        !pair_done(keys, x, y, keys[x] as int, keys[y] as int),
        !pair_done(keys, x, y, keys[y] as int, keys[x] as int),
{
    if pair_done(keys, x, y, keys[x] as int, keys[y] as int) {
        let (i, j) = choose|i: int, j: int|
            #![trigger keys[i], keys[j]]
            0 <= i < j < keys.len() && (i < x || (i == x && j < y)) && ((keys[i] == keys[x]
                && keys[j] == keys[y]) || (keys[i] == keys[y] && keys[j] == keys[x]));
        assert(i == x || i == y);
        assert(j == x || j == y);
    }
    if pair_done(keys, x, y, keys[y] as int, keys[x] as int) {
        let (i, j) = choose|i: int, j: int|
            #![trigger keys[i], keys[j]]
            0 <= i < j < keys.len() && (i < x || (i == x && j < y)) && ((keys[i] == keys[y]
                && keys[j] == keys[x]) || (keys[i] == keys[x] && keys[j] == keys[y]));
        assert(i == x || i == y);
        assert(j == x || j == y);
    }
}

/// With the weight of the pair of keys at places `x` and `y` added, the weights are settled
/// up to the next place.
proof fn lemma_pair_added(
    before: Sims,
    after: Sims,
    state: AlnState,
    glue: Seq<Record>,
    c: int,
    keys: Seq<u64>,
    x: int,
    y: int,
)
    requires
        weights_settled(before, state, glue, c, keys, x, y),
        keys.no_duplicates(),
        0 <= x < y < keys.len(),
        keys[x] <= usize::MAX,
        keys[y] <= usize::MAX,
        ({
            let lo = if keys[x] < keys[y] {
                keys[x] as usize
            } else {
                keys[y] as usize
            };
            let hi = if keys[x] < keys[y] {
                keys[y] as usize
            } else {
                keys[x] as usize
            };
            &&& after.weight(lo, hi) == before.weight(lo, hi) + col_weight(
                state,
                glue,
                c,
                keys[x] as int,
                keys[y] as int,
            )
            &&& forall|p: usize, q: usize|
                (p != lo || q != hi) ==> after.weight(p, q) == before.weight(p, q)
        }),
    ensures
        weights_settled(after, state, glue, c, keys, x, y + 1),
{
    let a = keys[x] as int;
    let b = keys[y] as int;
    let lo = if a < b {
        a
    } else {
        b
    };
    let hi = if a < b {
        b
    } else {
        a
    };
    assert(a != b);
    assert(col_weight(state, glue, c, a, b) == col_weight(state, glue, c, lo, hi)) by (nonlinear_arith)
        requires
            (lo == a && hi == b) || (lo == b && hi == a),
            col_weight(state, glue, c, a, b) == count_in(state, glue, glue.len() as int, c, a)
                * count_in(state, glue, glue.len() as int, c, b),
            col_weight(state, glue, c, lo, hi) == count_in(state, glue, glue.len() as int, c, lo)
                * count_in(state, glue, glue.len() as int, c, hi),
    ;
    assert forall|u: usize, v: usize| u < v implies #[trigger] pair_settled(
        after,
        state,
        glue,
        c,
        keys,
        x,
        y + 1,
        u,
        v,
    ) by {
        assert(pair_settled(before, state, glue, c, keys, x, y, u, v));
        if u == lo && v == hi {
            // the pair is new: its keys stand at these two places only
            if pair_done(keys, x, y, u as int, v as int) {
                let (i, j) = choose|i: int, j: int|
                    #![trigger keys[i], keys[j]]
                    0 <= i < j < keys.len() && (i < x || (i == x && j < y)) && ((keys[i] == u
                        && keys[j] == v) || (keys[i] == v && keys[j] == u));
                assert(i == x || i == y);
                assert(j == x || j == y);
            }
            assert(keys[x] == a && keys[y] == b);
            assert(pair_done(keys, x, y + 1, u as int, v as int));
        } else {
            if pair_done(keys, x, y + 1, u as int, v as int) {
                let (i, j) = choose|i: int, j: int|
                    #![trigger keys[i], keys[j]]
                    0 <= i < j < keys.len() && (i < x || (i == x && j < y + 1)) && ((keys[i] == u
                        && keys[j] == v) || (keys[i] == v && keys[j] == u));
                assert(!(i == x && j == y));
                assert(0 <= i < j < keys.len() && (i < x || (i == x && j < y)) && ((keys[i] == u
                    && keys[j] == v) || (keys[i] == v && keys[j] == u)));
            }
            if pair_done(keys, x, y, u as int, v as int) {
                let (i, j) = choose|i: int, j: int|
                    #![trigger keys[i], keys[j]]
                    0 <= i < j < keys.len() && (i < x || (i == x && j < y)) && ((keys[i] == u
                        && keys[j] == v) || (keys[i] == v && keys[j] == u));
                assert(0 <= i < j < keys.len() && (i < x || (i == x && j < y + 1)) && ((keys[i]
                    == u && keys[j] == v) || (keys[i] == v && keys[j] == u)));
            }
        }
    }
}

/// With all pairs of the key at place `x` dealt with, the weights are settled up to the
/// pairs of the next key.
proof fn lemma_pairs_next(g: Sims, state: AlnState, glue: Seq<Record>, c: int, keys: Seq<u64>, x: int)
    requires
        0 <= x < keys.len(),
        weights_settled(g, state, glue, c, keys, x, keys.len() as int),
    ensures
        weights_settled(g, state, glue, c, keys, x + 1, x + 2),
{
    assert forall|u: usize, v: usize| u < v implies #[trigger] pair_settled(
        g,
        state,
        glue,
        c,
        keys,
        x + 1,
        x + 2,
        u,
        v,
    ) by {
        assert(pair_settled(g, state, glue, c, keys, x, keys.len() as int, u, v));
        if pair_done(keys, x, keys.len() as int, u as int, v as int) {
            let (i, j) = choose|i: int, j: int|
                #![trigger keys[i], keys[j]]
                0 <= i < j < keys.len() && (i < x || (i == x && j < keys.len())) && ((keys[i] == u
                    && keys[j] == v) || (keys[i] == v && keys[j] == u));
            assert(0 <= i < j < keys.len() && (i < x + 1 || (i == x + 1 && j < x + 2)) && ((keys[i]
                == u && keys[j] == v) || (keys[i] == v && keys[j] == u)));
        }
        if pair_done(keys, x + 1, x + 2, u as int, v as int) {
            let (i, j) = choose|i: int, j: int|
                #![trigger keys[i], keys[j]]
                0 <= i < j < keys.len() && (i < x + 1 || (i == x + 1 && j < x + 2)) && ((keys[i]
                    == u && keys[j] == v) || (keys[i] == v && keys[j] == u));
            assert(0 <= i < j < keys.len() && (i < x || (i == x && j < keys.len())) && ((keys[i]
                == u && keys[j] == v) || (keys[i] == v && keys[j] == u)));
        }
    }
}

/// With all pairs of keys of a column dealt with, the store holds the weights of the
/// columns up to it.
proof fn lemma_column_settled(
    g: Sims,
    state: AlnState,
    glue: Seq<Record>,
    c: int,
    keys: Seq<u64>,
    col: Map<u64, u64>,
)
    requires
        0 <= c,
        weights_settled(g, state, glue, c, keys, keys.len() as int, keys.len() as int + 1),
        colored(col, state, glue, glue.len() as int, c),
        forall|k: u64| #[trigger] keys.contains(k) <==> col.contains_key(k),
    ensures
        weights_settled(g, state, glue, c + 1, Seq::<u64>::empty(), 0, 0),
{
    let n = glue.len() as int;
    assert forall|u: usize, v: usize| u < v implies #[trigger] pair_settled(
        g,
        state,
        glue,
        c + 1,
        Seq::<u64>::empty(),
        0,
        0,
        u,
        v,
    ) by {
        assert(pair_settled(g, state, glue, c, keys, keys.len() as int, keys.len() as int + 1, u, v));
        assert(!pair_done(Seq::<u64>::empty(), 0, 0, u as int, v as int));
        if !pair_done(keys, keys.len() as int, keys.len() as int + 1, u as int, v as int) {
            // one of the two is no key: it does not stand in the column
            let ku = u as u64;
            let kv = v as u64;
            assert(tells(col, state, glue, n, c, ku));
            assert(tells(col, state, glue, n, c, kv));
            if keys.contains(ku) && keys.contains(kv) {
                let i = choose|i: int| 0 <= i < keys.len() && keys[i] == ku;
                let j = choose|j: int| 0 <= j < keys.len() && keys[j] == kv;
                if i < j {
                    assert(0 <= i < j < keys.len() && (i < keys.len() || (i == keys.len() && j
                        < keys.len() + 1)) && ((keys[i] == u && keys[j] == v) || (keys[i] == v
                        && keys[j] == u)));
                } else {
                    assert(0 <= j < i < keys.len() && (j < keys.len() || (j == keys.len() && i
                        < keys.len() + 1)) && ((keys[j] == u && keys[i] == v) || (keys[j] == v
                        && keys[i] == u)));
                }
                assert(false);
            }
            assert(count_in(state, glue, n, c, u as int) == 0 || count_in(state, glue, n, c, v as int)
                == 0);
            assert(col_weight(state, glue, c, u as int, v as int) == 0) by (nonlinear_arith)
                requires
                    count_in(state, glue, n, c, u as int) == 0 || count_in(
                        state,
                        glue,
                        n,
                        c,
                        v as int,
                    ) == 0,
                    col_weight(state, glue, c, u as int, v as int) == count_in(
                        state,
                        glue,
                        n,
                        c,
                        u as int,
                    ) * count_in(state, glue, n, c, v as int),
            ;
        }
    }
}

/// A store of weights whose edges join nodes of a graph of `size` nodes.
pub open spec fn sims_within(g: Sims, size: int) -> bool {
    g.wf() && forall|i: int| 0 <= i < g.edges@.len() ==> (#[trigger] g.edges@[i]).v < size
}

/// Adding a weight between two nodes of the graph keeps the edges within it.
proof fn lemma_add_within(before: Sims, after: Sims, size: int, u: usize, v: usize)
    requires
        sims_within(before, size),
        after.wf(),
        u < v < size,
        forall|x: usize, y: usize|
            after.has_edge(x, y) <==> before.has_edge(x, y) || (x == u && y == v),
    ensures
        sims_within(after, size),
{
    assert forall|i: int| 0 <= i < after.edges@.len() implies (#[trigger] after.edges@[i]).v
        < size by {
        let e = after.edges@[i];
        assert(after.has_edge(e.u, e.v));
        if before.has_edge(e.u, e.v) {
            let j = choose|j: int|
                0 <= j < before.edges@.len() && (#[trigger] before.edges@[j]).u == e.u
                    && before.edges@[j].v == e.v;
        }
    }
}

/// The multiplier of glue `k`: its weight, or one where no weights are given.
pub open spec fn factor_of(weights: Option<Vec<u64>>, k: int) -> int {
    match weights {
        Some(w) => w@[k] as int,
        None => 1,
    }
}

/// What the first `i` stores give to the weight between two nodes, each multiplied by its
/// factor.
pub open spec fn merged_weight(
    subs: Seq<Sims>,
    weights: Option<Vec<u64>>,
    i: int,
    u: usize,
    v: usize,
) -> int
    decreases i,
{
    if i <= 0 {
        0
    } else {
        merged_weight(subs, weights, i - 1, u, v) + factor_of(weights, i - 1) * subs[i - 1].weight(
            u,
            v,
        )
    }
}

/// Whether one of the first `e` edges of the store joins `u` and `v`.
pub open spec fn edge_seen(sub: Sims, e: int, u: usize, v: usize) -> bool {
    exists|k: int| 0 <= k < e && (#[trigger] sub.edges@[k]).u == u && sub.edges@[k].v == v
}

/// The graph holds, between `u` and `v`, what the first `i` stores give, and what store `i`
/// gives where its edge between the two has been taken.
pub open spec fn pair_merged(
    g: Sims,
    subs: Seq<Sims>,
    weights: Option<Vec<u64>>,
    i: int,
    e: int,
    u: usize,
    v: usize,
) -> bool {
    g.weight(u, v) == merged_weight(subs, weights, i, u, v) + (if edge_seen(subs[i], e, u, v) {
        factor_of(weights, i) * subs[i].weight(u, v)
    } else {
        0
    })
}

/// The graph holds the weights of the first `i` stores and of the first `e` edges of store
/// `i`.
pub open spec fn weights_merged(
    g: Sims,
    subs: Seq<Sims>,
    weights: Option<Vec<u64>>,
    i: int,
    e: int,
) -> bool {
    forall|u: usize, v: usize| u < v ==> #[trigger] pair_merged(g, subs, weights, i, e, u, v)
}

/// What the stores give to the weight between two nodes, as a function of whole numbers.
pub open spec fn merged_at(subs: Seq<Sims>, weights: Option<Vec<u64>>, u: int, v: int) -> int {
    if 0 <= u < v <= usize::MAX {
        merged_weight(subs, weights, subs.len() as int, u as usize, v as usize)
    } else {
        0
    }
}

/// The sum of all weights that the stores give to a graph of `n` nodes.
pub open spec fn merged_total(subs: Seq<Sims>, weights: Option<Vec<u64>>, n: int) -> int {
    grid_total(|u: int, v: int| merged_at(subs, weights, u, v), n, n)
}

proof fn lemma_merged_rises(subs: Seq<Sims>, weights: Option<Vec<u64>>, a: int, b: int, u: usize, v: usize)
    requires
        0 <= a <= b,
    ensures
        0 <= merged_weight(subs, weights, a, u, v) <= merged_weight(subs, weights, b, u, v),
    decreases b,
{
    if a < b {
        lemma_merged_rises(subs, weights, a, b - 1, u, v);
        lemma_term_nonneg(weights, b - 1, subs[b - 1].weight(u, v));
    } else {
        if a > 0 {
            lemma_merged_rises(subs, weights, a - 1, a - 1, u, v);
            lemma_term_nonneg(weights, a - 1, subs[a - 1].weight(u, v));
        }
    }
}

proof fn lemma_term_nonneg(weights: Option<Vec<u64>>, k: int, w: u64)
    ensures
        factor_of(weights, k) * w >= 0,
{
    let f = factor_of(weights, k);
    assert(f >= 0) by {
        match weights {
            Some(ws) => {
                let x: u64 = ws@[k];
            },
            None => {},
        }
    }
    assert(f * w >= 0) by (nonlinear_arith)
        requires
            f >= 0,
            w >= 0,
    ;
}

/// While the stores are merged, the graph holds at most what they give.
proof fn lemma_merged_below(
    g: Sims,
    subs: Seq<Sims>,
    weights: Option<Vec<u64>>,
    i: int,
    e: int,
    u: int,
    v: int,
)
    requires
        g.wf(),
        0 <= i < subs.len(),
        weights_merged(g, subs, weights, i, e),
    ensures
        0 <= g.weight_at(u, v) <= merged_at(subs, weights, u, v),
        0 <= u < v <= usize::MAX ==> g.weight_at(u, v) <= merged_weight(
            subs,
            weights,
            i + 1,
            u as usize,
            v as usize,
        ),
        0 <= u < v <= usize::MAX && !edge_seen(subs[i], e, u as usize, v as usize) ==> g.weight_at(
            u,
            v,
        ) == merged_weight(subs, weights, i, u as usize, v as usize),
{
    if 0 <= u < v <= usize::MAX {
        assert(pair_merged(g, subs, weights, i, e, u as usize, v as usize));
        lemma_term_nonneg(weights, i, subs[i].weight(u as usize, v as usize));
        lemma_merged_rises(subs, weights, i + 1, subs.len() as int, u as usize, v as usize);
        lemma_merged_rises(subs, weights, i, i, u as usize, v as usize);
    } else if 0 <= u < v {
    } else {
        lemma_weight_at_zero(g, u, v);
    }
}

/// A weight that cannot be added without passing the cap shows that the stores give too
/// much.
proof fn lemma_merge_overflows(
    g: Sims,
    subs: Seq<Sims>,
    weights: Option<Vec<u64>>,
    i: int,
    e: int,
    n: int,
    w: int,
)
    requires
        g.wf(),
        0 <= i < subs.len(),
        0 <= e < subs[i].edges@.len(),
        subs[i].wf(),
        weights_merged(g, subs, weights, i, e),
        sims_within(g, n),
        sims_within(subs[i], n),
        n <= NODE_CAP,
        w == factor_of(weights, i) * subs[i].edges@[e].w,
        g.total() + w > WEIGHT_CAP,
    ensures
        merged_total(subs, weights, n) > WEIGHT_CAP,
{
    let edge = subs[i].edges@[e];
    let lo = edge.u as int;
    let hi = edge.v as int;
    assert(edge.u < edge.v < n);
    let f0 = |u: int, v: int| g.weight_at(u, v);
    let f1 = |u: int, v: int|
        g.weight_at(u, v) + (if u == lo && v == hi {
            w
        } else {
            0
        });
    let top = |u: int, v: int| merged_at(subs, weights, u, v);
    g.lemma_total(n);
    assert forall|u: int, v: int| 0 <= u < n && 0 <= v < n && !(u == lo && v == hi) implies #[trigger] f1(
        u,
        v,
    ) == f0(u, v) by {}
    lemma_grid_point(f0, f1, n, n, lo, hi, w);
    lemma_edge_fresh(subs[i], e);
    subs[i].lemma_weight_at(e);
    assert forall|u: int, v: int| 0 <= u < n && 0 <= v < n implies #[trigger] f1(u, v) <= top(
        u,
        v,
    ) by {
        lemma_merged_below(g, subs, weights, i, e, u, v);
        if u == lo && v == hi {
            lemma_merged_rises(subs, weights, i + 1, subs.len() as int, u as usize, v as usize);
        }
    }
    lemma_grid_le(f1, top, n, n);
}

/// The edge at place `e` of a store is not among the edges before it.
proof fn lemma_edge_fresh(sub: Sims, e: int)
    requires
        sub.wf(),
        0 <= e < sub.edges@.len(),
    ensures
        !edge_seen(sub, e, sub.edges@[e].u, sub.edges@[e].v),
{
    let u = sub.edges@[e].u;
    let v = sub.edges@[e].v;
    if edge_seen(sub, e, u, v) {
        let k = choose|k: int| 0 <= k < e && (#[trigger] sub.edges@[k]).u == u && sub.edges@[k].v == v;
        assert(entries_of(sub.index)[crate::sims::pair_key(u, v)] == k);
        assert(entries_of(sub.index)[crate::sims::pair_key(u, v)] == e);
    }
}

/// A product of a factor and a weight that is too large for a weight shows that the stores
/// give too much.
proof fn lemma_merge_overflows_at(subs: Seq<Sims>, weights: Option<Vec<u64>>, i: int, e: int, n: int)
    requires
        0 <= i < subs.len(),
        0 <= e < subs[i].edges@.len(),
        subs[i].wf(),
        sims_within(subs[i], n),
        n <= NODE_CAP,
        factor_of(weights, i) * subs[i].edges@[e].w > WEIGHT_CAP,
    ensures
        merged_total(subs, weights, n) > WEIGHT_CAP,
{
    let edge = subs[i].edges@[e];
    assert(edge.u < edge.v < n);
    subs[i].lemma_weight_at(e);
    let top = |u: int, v: int| merged_at(subs, weights, u, v);
    assert forall|u: int, v: int| 0 <= u < n && 0 <= v < n implies #[trigger] top(u, v) >= 0 by {
        if 0 <= u < v <= usize::MAX {
            lemma_merged_rises(subs, weights, 0, subs.len() as int, u as usize, v as usize);
        }
    }
    lemma_grid_nonneg(top, n, n, edge.u as int, edge.v as int);
    lemma_merged_rises(subs, weights, i + 1, subs.len() as int, edge.u, edge.v);
    lemma_merged_rises(subs, weights, i, i, edge.u, edge.v);
}

/// A graph that holds what the stores give holds as much as they give in all.
proof fn lemma_merged_total(g: Sims, subs: Seq<Sims>, weights: Option<Vec<u64>>, n: int)
    requires
        0 <= n <= NODE_CAP,
        sims_within(g, n),
        forall|u: usize, v: usize|
            u < v ==> #[trigger] g.weight(u, v) == merged_weight(
                subs,
                weights,
                subs.len() as int,
                u,
                v,
            ),
    ensures
        g.total() == merged_total(subs, weights, n),
{
    let f0 = |u: int, v: int| g.weight_at(u, v);
    let top = |u: int, v: int| merged_at(subs, weights, u, v);
    g.lemma_total(n);
    assert forall|u: int, v: int| 0 <= u < n && 0 <= v < n implies #[trigger] f0(u, v) == top(
        u,
        v,
    ) by {
        if 0 <= u < v {
            assert(g.weight(u as usize, v as usize) == merged_weight(
                subs,
                weights,
                subs.len() as int,
                u as usize,
                v as usize,
            ));
        } else {
            lemma_weight_at_zero(g, u, v);
        }
    }
    lemma_grid_same(f0, top, n, n);
}

/// The graph of the weights of all glues: the weight of an edge is the sum of what the
/// glues give it, each multiplied by the weight of its glue, or by one where no weights are
/// given. Fails with `WeightArityMismatch` where the weights are not as many as the stores,
/// else with `TooManyColumns` where the constraints have too many columns, else with
/// `WeightOverflow` where the weights add up past `WEIGHT_CAP`.
pub fn merge_subgraphs(state: &AlnState, subgraphs: &Vec<Sims>, weights: &Option<Vec<u64>>) -> (r:
    Result<Graph, GcmError>)
    requires
        state.wf(),
        forall|i: int|
            0 <= i < subgraphs@.len() ==> sims_within(
                #[trigger] subgraphs@[i],
                offset(state.column_counts@, state.column_counts@.len() as int),
            ),
    ensures
        match r {
            Ok(g) => {
                &&& weights.is_some() ==> weights.unwrap()@.len() == subgraphs@.len()
                &&& offset(state.column_counts@, state.column_counts@.len() as int) <= NODE_CAP
                &&& g.wf(state.column_counts@)
                &&& forall|u: usize, v: usize|
                    u < v ==> #[trigger] g.sims.weight(u, v) == merged_weight(
                        subgraphs@,
                        *weights,
                        subgraphs@.len() as int,
                        u,
                        v,
                    )
                &&& g.sims.total() == merged_total(subgraphs@, *weights, g.size as int)
            },
            Err(e) => {
                let arity_bad = weights.is_some() && weights.unwrap()@.len() != subgraphs@.len();
                let size = offset(state.column_counts@, state.column_counts@.len() as int);
                ||| e == GcmError::WeightArityMismatch && arity_bad
                ||| e == GcmError::TooManyColumns && !arity_bad && size > NODE_CAP
                ||| e == GcmError::WeightOverflow && !arity_bad && size <= NODE_CAP && merged_total(
                    subgraphs@,
                    *weights,
                    size,
                ) > WEIGHT_CAP
            },
        },
{
    match weights {
        Some(w) => {
            if w.len() != subgraphs.len() {
                return Err(GcmError::WeightArityMismatch);
            }
        },
        None => {},
    }
    let ghost counts = state.column_counts@;
    let ghost size = offset(counts, counts.len() as int);
    let ghost subs = subgraphs@;
    let mut g = match Graph::with_nodes(&state.column_counts) {
        Ok(g) => g,
        Err(e) => {
            return Err(e);
        },
    };
    let ghost shell = g;
    let mut i: usize = 0;
    proof {
        crate::naive_upgma::lemma_offset_rises(counts, 0, counts.len() as int);
        assert forall|u: usize, v: usize| u < v implies #[trigger] pair_merged(
            g.sims,
            subs,
            *weights,
            0,
            0,
            u,
            v,
        ) by {
            assert(!g.sims.has_edge(u, v));
            assert(!edge_seen(subs[0], 0, u, v));
        }
    }
    while i < subgraphs.len()
        invariant
            i <= subgraphs@.len(),
            subs == subgraphs@,
            counts == state.column_counts@,
            size == offset(counts, counts.len() as int),
            0 <= size <= NODE_CAP,
            shell.wf(counts),
            g.size == shell.size,
            g.node_pos == shell.node_pos,
            sims_within(g.sims, size),
            weights.is_some() ==> weights.unwrap()@.len() == subgraphs@.len(),
            forall|k: int| 0 <= k < subgraphs@.len() ==> sims_within(#[trigger] subgraphs@[k], size),
            weights_merged(g.sims, subs, *weights, i as int, 0),
        decreases subgraphs.len() - i,
    {
        let factor: u64 = match weights {
            Some(w) => w[i],
            None => 1,
        };
        assert(factor == factor_of(*weights, i as int));
        let sub = &subgraphs[i];
        assert(sims_within(*sub, size));
        let mut e: usize = 0;
        while e < sub.edges.len()
            invariant
                e <= sub.edges@.len(),
                i < subgraphs@.len(),
                subs == subgraphs@,
                *sub == subs[i as int],
                factor == factor_of(*weights, i as int),
                counts == state.column_counts@,
                size == offset(counts, counts.len() as int),
                0 <= size <= NODE_CAP,
                size == g.size,
                g.size == shell.size,
                g.node_pos == shell.node_pos,
                sims_within(*sub, size),
                sims_within(g.sims, size),
                weights.is_some() ==> weights.unwrap()@.len() == subgraphs@.len(),
                weights_merged(g.sims, subs, *weights, i as int, e as int),
            decreases sub.edges.len() - e,
        {
            let edge = sub.edges[e];
            assert(edge == sub.edges@[e as int]);
            assert(edge.u < edge.v < size);
            let w = match edge.w.checked_mul(factor) {
                Some(w) => w,
                None => {
                    proof {
                        assert(factor * edge.w > WEIGHT_CAP) by (nonlinear_arith)
                            requires
                                edge.w * factor > u64::MAX,
                        ;
                        lemma_merge_overflows_at(subs, *weights, i as int, e as int, size);
                    }
                    return Err(GcmError::WeightOverflow);
                },
            };
            let ghost before = g.sims;
            if w > 0 {
                match g.sims.add(edge.u, edge.v, w) {
                    Ok(()) => {},
                    Err(err) => {
                        proof {
                            assert(factor * edge.w == w) by (nonlinear_arith)
                                requires
                                    w == edge.w * factor,
                            ;
                            lemma_merge_overflows(
                                before,
                                subs,
                                *weights,
                                i as int,
                                e as int,
                                size,
                                w as int,
                            );
                        }
                        return Err(err);
                    },
                }
                proof {
                    lemma_add_within(before, g.sims, size, edge.u, edge.v);
                }
            }
            proof {
                sub.lemma_weight_at(e as int);
                lemma_edge_fresh(*sub, e as int);
                assert forall|u: usize, v: usize| u < v implies #[trigger] pair_merged(
                    g.sims,
                    subs,
                    *weights,
                    i as int,
                    e + 1,
                    u,
                    v,
                ) by {
                    assert(pair_merged(before, subs, *weights, i as int, e as int, u, v));
                    if u == edge.u && v == edge.v {
                        assert(edge_seen(*sub, e + 1, u, v));
                        assert(factor * edge.w == w) by (nonlinear_arith)
                            requires
                                w == edge.w * factor,
                        ;
                    } else {
                        if edge_seen(*sub, e + 1, u, v) {
                            let k = choose|k: int|
                                0 <= k < e + 1 && (#[trigger] sub.edges@[k]).u == u
                                    && sub.edges@[k].v == v;
                            assert(k < e);
                            assert(edge_seen(*sub, e as int, u, v));
                        }
                        if edge_seen(*sub, e as int, u, v) {
                            let k = choose|k: int|
                                0 <= k < e && (#[trigger] sub.edges@[k]).u == u && sub.edges@[k].v
                                    == v;
                            assert(0 <= k < e + 1);
                        }
                    }
                }
            }
            e += 1;
        }
        proof {
            assert forall|u: usize, v: usize| u < v implies #[trigger] pair_merged(
                g.sims,
                subs,
                *weights,
                i + 1,
                0,
                u,
                v,
            ) by {
                assert(pair_merged(g.sims, subs, *weights, i as int, sub.edges@.len() as int, u, v));
                assert(!edge_seen(subs[i + 1], 0, u, v));
                if sub.has_edge(u, v) {
                    let k = choose|k: int|
                        0 <= k < sub.edges@.len() && (#[trigger] sub.edges@[k]).u == u
                            && sub.edges@[k].v == v;
                    assert(edge_seen(*sub, sub.edges@.len() as int, u, v));
                } else {
                    assert(sub.weight(u, v) == 0);
                    if edge_seen(*sub, sub.edges@.len() as int, u, v) {
                        let k = choose|k: int|
                            0 <= k < sub.edges@.len() && (#[trigger] sub.edges@[k]).u == u
                                && sub.edges@[k].v == v;
                        assert(sub.has_edge(u, v));
                    }
                }
            }
        }
        i += 1;
    }
    let ghost merged = g.sims;
    g.refresh_labels(Ghost(counts));
    proof {
        assert forall|u: usize, v: usize| u < v implies #[trigger] g.sims.weight(u, v)
            == merged_weight(subs, *weights, subs.len() as int, u, v) by {
            assert(pair_merged(merged, subs, *weights, subs.len() as int, 0, u, v));
            assert(!edge_seen(subs[subs.len() as int], 0, u, v));
        }
        lemma_merged_total(g.sims, subs, *weights, size);
    }
    Ok(g)
}

/// What the first `i` glues give to the weight between two nodes, each multiplied by its
/// factor.
pub open spec fn graph_weight(
    state: AlnState,
    glues: Seq<Vec<Record>>,
    weights: Option<Vec<u64>>,
    i: int,
    u: usize,
    v: usize,
) -> int
    decreases i,
{
    if i <= 0 {
        0
    } else {
        graph_weight(state, glues, weights, i - 1, u, v) + factor_of(weights, i - 1) * glue_weight(
            state,
            glues[i - 1]@,
            glue_width(glues[i - 1]@),
            u as int,
            v as int,
        )
    }
}

/// What the glues give to the weight between two nodes, as a function of whole numbers.
pub open spec fn graph_at(
    state: AlnState,
    glues: Seq<Vec<Record>>,
    weights: Option<Vec<u64>>,
    u: int,
    v: int,
) -> int {
    if 0 <= u < v <= usize::MAX {
        graph_weight(state, glues, weights, glues.len() as int, u as usize, v as usize)
    } else {
        0
    }
}

/// The sum of all weights that the glues give.
pub open spec fn graph_total(state: AlnState, glues: Seq<Vec<Record>>, weights: Option<Vec<u64>>) -> int {
    grid_total(
        |u: int, v: int| graph_at(state, glues, weights, u, v),
        offset(state.column_counts@, state.column_counts@.len() as int),
        offset(state.column_counts@, state.column_counts@.len() as int),
    )
}

/// Whether the glue has no faulty row and gives no more than `WEIGHT_CAP` in all.
pub open spec fn glue_fine(state: AlnState, glue: Seq<Record>) -> bool {
    glue_clean_before(state, glue, glue.len() as int) && glue_total(state, glue) <= WEIGHT_CAP
}

/// What a glue that is not fine fails with: the fault of its first faulty row, or
/// `WeightOverflow` where it has none.
pub open spec fn glue_fails_with(state: AlnState, glue: Seq<Record>, e: GcmError) -> bool {
    ||| exists|i: int|
        0 <= i < glue.len() && glue_clean_before(state, glue, i) && #[trigger] glue_fault(
            state,
            glue,
            i,
        ) == Some(e)
    ||| glue_clean_before(state, glue, glue.len() as int) && glue_total(state, glue) > WEIGHT_CAP
        && e == GcmError::WeightOverflow
}

/// Whether the first `k` glues are fine.
pub open spec fn glues_fine(state: AlnState, glues: Seq<Vec<Record>>, k: int) -> bool {
    forall|j: int| 0 <= j < k ==> glue_fine(state, (#[trigger] glues[j])@)
}

proof fn lemma_graph_weight(
    state: AlnState,
    glues: Seq<Vec<Record>>,
    subs: Seq<Sims>,
    weights: Option<Vec<u64>>,
    i: int,
    u: usize,
    v: usize,
)
    requires
        0 <= i <= glues.len(),
        subs.len() == glues.len(),
        u < v,
        forall|k: int, a: usize, b: usize|
            0 <= k < subs.len() && a < b ==> #[trigger] subs[k].weight(a, b) == glue_weight(
                state,
                glues[k]@,
                glue_width(glues[k]@),
                a as int,
                b as int,
            ),
    ensures
        merged_weight(subs, weights, i, u, v) == graph_weight(state, glues, weights, i, u, v),
    decreases i,
{
    if i > 0 {
        lemma_graph_weight(state, glues, subs, weights, i - 1, u, v);
        assert(subs[i - 1].weight(u, v) == glue_weight(
            state,
            glues[i - 1]@,
            glue_width(glues[i - 1]@),
            u as int,
            v as int,
        ));
    }
}

proof fn lemma_graph_total(
    state: AlnState,
    glues: Seq<Vec<Record>>,
    subs: Seq<Sims>,
    weights: Option<Vec<u64>>,
)
    requires
        subs.len() == glues.len(),
        forall|k: int, a: usize, b: usize|
            0 <= k < subs.len() && a < b ==> #[trigger] subs[k].weight(a, b) == glue_weight(
                state,
                glues[k]@,
                glue_width(glues[k]@),
                a as int,
                b as int,
            ),
    ensures
        merged_total(
            subs,
            weights,
            offset(state.column_counts@, state.column_counts@.len() as int),
        ) == graph_total(state, glues, weights),
{
    let n = offset(state.column_counts@, state.column_counts@.len() as int);
    let f = |u: int, v: int| merged_at(subs, weights, u, v);
    let g = |u: int, v: int| graph_at(state, glues, weights, u, v);
    assert forall|u: int, v: int| 0 <= u < n && 0 <= v < n implies #[trigger] f(u, v) == g(u, v) by {
        if 0 <= u < v <= usize::MAX {
            lemma_graph_weight(
                state,
                glues,
                subs,
                weights,
                glues.len() as int,
                u as usize,
                v as usize,
            );
        }
    }
    lemma_grid_same(f, g, n, n);
}

/// The graph that the glues give over the columns of the constraints: the weight between
/// two nodes is, summed over the glues and their columns, the product of how often the two
/// stand in the column, multiplied by the weight of the glue. Fails with
/// `WeightArityMismatch` where the weights are not as many as the glues; else with
/// `TooManyColumns` where the constraints have too many columns; else as the first glue
/// that is not fine fails; else with `WeightOverflow` where the weights add up too high.
pub fn build_graph(state: &AlnState, glues: &Vec<Vec<Record>>, weights: &Option<Vec<u64>>) -> (r:
    Result<Graph, GcmError>)
    requires
        state.wf(),
    ensures
        match r {
            Ok(g) => {
                &&& g.wf(state.column_counts@)
                &&& weights.is_some() ==> weights.unwrap()@.len() == glues@.len()
                &&& offset(state.column_counts@, state.column_counts@.len() as int) <= NODE_CAP
                &&& glues_fine(*state, glues@, glues@.len() as int)
                &&& forall|u: usize, v: usize|
                    u < v ==> #[trigger] g.sims.weight(u, v) == graph_weight(
                        *state,
                        glues@,
                        *weights,
                        glues@.len() as int,
                        u,
                        v,
                    )
                &&& g.sims.total() == graph_total(*state, glues@, *weights)
            },
            Err(e) => {
                let arity_bad = weights.is_some() && weights.unwrap()@.len() != glues@.len();
                let size = offset(state.column_counts@, state.column_counts@.len() as int);
                ||| e == GcmError::WeightArityMismatch && arity_bad
                ||| e == GcmError::TooManyColumns && !arity_bad && size > NODE_CAP
                ||| !arity_bad && size <= NODE_CAP && exists|k: int|
                    0 <= k < glues@.len() && glues_fine(*state, glues@, k) && glue_fails_with(
                        *state,
                        (#[trigger] glues@[k])@,
                        e,
                    )
                ||| e == GcmError::WeightOverflow && !arity_bad && size <= NODE_CAP && glues_fine(
                    *state,
                    glues@,
                    glues@.len() as int,
                ) && graph_total(*state, glues@, *weights) > WEIGHT_CAP
            },
        },
{
    let ghost size = offset(state.column_counts@, state.column_counts@.len() as int);
    match weights {
        Some(w) => {
            if w.len() != glues.len() {
                return Err(GcmError::WeightArityMismatch);
            }
        },
        None => {},
    }
    match column_offsets(&state.column_counts) {
        Ok(_) => {},
        Err(e) => {
            return Err(e);
        },
    }
    let mut subgraphs: Vec<Sims> = Vec::new();
    let mut k: usize = 0;
    while k < glues.len()
        invariant
            k <= glues@.len(),
            state.wf(),
            size == offset(state.column_counts@, state.column_counts@.len() as int),
            size <= NODE_CAP,
            weights.is_some() ==> weights.unwrap()@.len() == glues@.len(),
            subgraphs@.len() == k,
            forall|j: int| 0 <= j < k ==> sims_within(#[trigger] subgraphs@[j], size),
            glues_fine(*state, glues@, k as int),
            forall|j: int, a: usize, b: usize|
                0 <= j < k && a < b ==> #[trigger] subgraphs@[j].weight(a, b) == glue_weight(
                    *state,
                    glues@[j]@,
                    glue_width(glues@[j]@),
                    a as int,
                    b as int,
                ),
        decreases glues.len() - k,
    {
        match build_subgraph(state, &glues[k]) {
            Ok(g) => {
                let ghost s0 = subgraphs@;
                subgraphs.push(g);
                proof {
                    assert forall|j: int, a: usize, b: usize| 0 <= j < k + 1 && a < b implies #[trigger] subgraphs@[j].weight(
                        a,
                        b,
                    ) == glue_weight(
                        *state,
                        glues@[j]@,
                        glue_width(glues@[j]@),
                        a as int,
                        b as int,
                    ) by {
                        if j < k {
                            assert(subgraphs@[j] == s0[j]);
                        }
                    }
                    assert forall|j: int| 0 <= j < k + 1 implies sims_within(
                        #[trigger] subgraphs@[j],
                        size,
                    ) by {
                        if j < k {
                            assert(subgraphs@[j] == s0[j]);
                        }
                    }
                    assert(glue_fine(*state, glues@[k as int]@));
                }
            },
            Err(e) => {
                assert(glue_fails_with(*state, glues@[k as int]@, e));
                return Err(e);
            },
        }
        k += 1;
    }
    proof {
        lemma_graph_total(*state, glues@, subgraphs@, *weights);
    }
    match merge_subgraphs(state, &subgraphs, weights) {
        Ok(g) => {
            proof {
                assert forall|u: usize, v: usize| u < v implies #[trigger] g.sims.weight(u, v)
                    == graph_weight(*state, glues@, *weights, glues@.len() as int, u, v) by {
                    lemma_graph_weight(
                        *state,
                        glues@,
                        subgraphs@,
                        *weights,
                        glues@.len() as int,
                        u,
                        v,
                    );
                }
            }
            Ok(g)
        },
        Err(e) => Err(e),
    }
}

/// The first `n` rows of a constraint as text, each woven with the frame of the constraint.
pub open spec fn rows_text(recs: Seq<Record>, frame: Seq<nat>, n: int) -> Seq<u8>
    decreases n,
{
    if n <= 0 {
        Seq::empty()
    } else {
        rows_text(recs, frame, n - 1) + record_text(
            vstd::utf8::encode_utf8(recs[n - 1].name@),
            woven(recs[n - 1].seq@, frame),
        )
    }
}

/// The rows of the first `a` constraints as text.
pub open spec fn alignment_text(alns: Seq<Vec<Record>>, frames: Seq<Seq<nat>>, a: int) -> Seq<u8>
    decreases a,
{
    if a <= 0 {
        Seq::empty()
    } else {
        alignment_text(alns, frames, a - 1) + rows_text(
            alns[a - 1]@,
            frames[a - 1],
            alns[a - 1]@.len() as int,
        )
    }
}

/// Whether the row has as many columns as its frame has entries, but for the last.
pub open spec fn row_fits_frame(alns: Seq<Vec<Record>>, frames: Seq<Vec<u32>>, a: int, i: int) -> bool {
    alns[a]@[i].seq@.len() + 1 == frames[a]@.len()
}

/// Whether every row of the constraints that have a frame fits its frame.
pub open spec fn rows_fit_frames(alns: Seq<Vec<Record>>, frames: Seq<Vec<u32>>) -> bool {
    forall|a: int, i: int|
        is_row(alns, a, i) && a < frames.len() ==> #[trigger] row_fits_frame(alns, frames, a, i)
}

/// The merged alignment as text: the rows of each constraint, woven with its frame, each
/// under its name. Constraints without a frame are left out. Fails with `RaggedAlignment`
/// where a row does not fit its frame.
pub fn merge_alignments_from_frames(constraints: &Vec<Vec<Record>>, frames: &Vec<Vec<u32>>) -> (r:
    Result<Vec<u8>, GcmError>)
    ensures
        r.is_ok() <==> rows_fit_frames(constraints@, frames@),
        match r {
            Ok(out) => out@ == alignment_text(
                constraints@,
                frames_view(frames@),
                if constraints@.len() < frames@.len() {
                    constraints@.len() as int
                } else {
                    frames@.len() as int
                },
            ),
            Err(e) => e == GcmError::RaggedAlignment,
        },
{
    let ghost alns = constraints@;
    let ghost fv = frames_view(frames@);
    let n = if constraints.len() < frames.len() {
        constraints.len()
    } else {
        frames.len()
    };
    let mut out: Vec<u8> = Vec::new();
    let mut a: usize = 0;
    while a < n
        invariant
            a <= n,
            n <= constraints@.len(),
            n <= frames@.len(),
            alns == constraints@,
            fv == frames_view(frames@),
            out@ == alignment_text(alns, fv, a as int),
            forall|b: int, j: int|
                is_row(alns, b, j) && b < a ==> #[trigger] row_fits_frame(alns, frames@, b, j),
        decreases n - a,
    {
        let aln = &constraints[a];
        let frame = &frames[a];
        assert(fv[a as int] == row_view(frame@));
        let ghost base = out@;
        let mut i: usize = 0;
        while i < aln.len()
            invariant
                i <= aln@.len(),
                a < n,
                n <= constraints@.len(),
                n <= frames@.len(),
                alns == constraints@,
                aln@ == alns[a as int]@,
                frame@ == frames@[a as int]@,
                fv == frames_view(frames@),
                fv[a as int] == row_view(frame@),
                out@ == base + rows_text(aln@, fv[a as int], i as int),
                forall|b: int, j: int|
                    is_row(alns, b, j) && (b < a || (b == a && j < i)) ==> #[trigger] row_fits_frame(
                        alns,
                        frames@,
                        b,
                        j,
                    ),
            decreases aln.len() - i,
        {
            let rec = &aln[i];
            if frame.len() == 0 || rec.seq.len() != frame.len() - 1 {
                assert(is_row(alns, a as int, i as int));
                assert(!row_fits_frame(alns, frames@, a as int, i as int));
                return Err(GcmError::RaggedAlignment);
            }
            let row = weave_row(rec.seq.as_slice(), frame.as_slice());
            let ghost o0 = out@;
            write_record(&mut out, rec.name.as_str().as_bytes(), row.as_slice());
            proof {
                assert(out@ =~= base + rows_text(aln@, fv[a as int], i as int + 1));
            }
            i += 1;
        }
        proof {
            assert(base + rows_text(aln@, fv[a as int], aln@.len() as int) =~= alignment_text(
                alns,
                fv,
                a as int + 1,
            ));
        }
        a += 1;
    }
    Ok(out)
}


/// Why no graph over the columns of the constraints has the triplets as its edges: there
/// are more columns than a graph can have nodes; or the number of nodes is not that of the
/// columns; or a triplet cannot join the edges; or an edge names something that is no node.
pub open spec fn stored_graph_fault(
    counts: Seq<usize>,
    node_count: usize,
    triplets: Seq<(usize, usize, u64)>,
    e: GcmError,
) -> bool {
    let size = offset(counts, counts.len() as int);
    ||| e == GcmError::TooManyColumns && size > NODE_CAP
    ||| e == GcmError::MalformedGraph && size <= NODE_CAP && size != node_count
    ||| size <= NODE_CAP && size == node_count && exists|i: int| #[trigger]
        triplet_fault(triplets, i, e)
    ||| e == GcmError::MalformedGraph && size <= NODE_CAP && size == node_count && (forall|i: int|
        0 <= i < triplets.len() ==> #[trigger] triplet_ok(triplets, i)) && exists|j: int|
        0 <= j < triplets.len() && (#[trigger] edges_of(triplets, triplets.len() as int)[j]).v
            >= node_count
}

/// The graph over the columns of the constraints has the triplets as its edges.
pub open spec fn stored_graph(
    g: Graph,
    counts: Seq<usize>,
    node_count: usize,
    triplets: Seq<(usize, usize, u64)>,
) -> bool {
    &&& g.wf(counts)
    &&& g.size == node_count
    &&& g.sims.edges@ == edges_of(triplets, triplets.len() as int)
    &&& forall|i: int| 0 <= i < triplets.len() ==> #[trigger] triplet_ok(triplets, i)
}

impl Graph {
    /// The graph over the columns of the constraints with the triplets as its edges. Fails
    /// with `MalformedGraph` where the number of nodes is not that of the columns or a
    /// triplet cannot be an edge of such a graph, with `WeightOverflow` where the weights add
    /// up too high, and with `TooManyColumns` where there are more columns than a graph can
    /// have nodes.
    pub fn from_triplets(counts: &Vec<usize>, node_count: usize, triplets: &Vec<
        (usize, usize, u64),
    >) -> (r: Result<Graph, GcmError>)
        requires
            counts@.len() <= u32::MAX,
            forall|k: int| 0 <= k < counts@.len() ==> #[trigger] counts@[k] <= u32::MAX,
        ensures
            match r {
                Ok(g) => stored_graph(g, counts@, node_count, triplets@),
                Err(e) => stored_graph_fault(counts@, node_count, triplets@, e),
            },
    {
        let mut g = match Graph::with_nodes(counts) {
            Ok(g) => g,
            Err(e) => {
                return Err(e);
            },
        };
        if g.size != node_count {
            return Err(GcmError::MalformedGraph);
        }
        let sims = match triplets_to_sims(triplets) {
            Ok(s) => s,
            Err(e) => {
                return Err(e);
            },
        };
        let mut i: usize = 0;
        while i < sims.edges.len()
            invariant
                i <= sims.edges@.len(),
                g.size == node_count,
                g.size == offset(counts@, counts@.len() as int),
                g.size <= NODE_CAP,
                sims.edges@ == edges_of(triplets@, triplets@.len() as int),
                forall|j: int| 0 <= j < triplets@.len() ==> #[trigger] triplet_ok(triplets@, j),
                forall|j: int| 0 <= j < i ==> (#[trigger] sims.edges@[j]).v < g.size,
            decreases sims.edges.len() - i,
        {
            if sims.edges[i].v >= g.size {
                assert(edges_of(triplets@, triplets@.len() as int)[i as int].v >= node_count);
                return Err(GcmError::MalformedGraph);
            }
            i += 1;
        }
        g.sims = sims;
        g.refresh_labels(Ghost(counts@));
        Ok(g)
    }
}

/// Why the rows of the constraints cannot be a state: the first row that is not clean has a
/// name that was seen before, which gives `DuplicateName`, or a length that differs from
/// that of the first row of its constraint, which gives `RaggedAlignment`.
pub open spec fn state_fault(alns: Seq<Vec<Record>>, e: GcmError) -> bool {
    exists|a: int, i: int|
        #![trigger is_row(alns, a, i)]
        is_row(alns, a, i) && clean_before(alns, a, i) && !row_clean(alns, a, i) && e == (if dup_at(
            alns,
            a,
            i,
        ) {
            GcmError::DuplicateName
        } else {
            GcmError::RaggedAlignment
        })
}

/// The state is that of the constraints: it holds their rows, each under its name, and
/// their numbers of columns.
pub open spec fn built_from(st: AlnState, alns: Seq<Vec<Record>>) -> bool {
    &&& st.wf()
    &&& st.column_counts@.len() == alns.len()
    &&& forall|a: int| 0 <= a < alns.len() ==> #[trigger] st.column_counts@[a] == width_of(alns, a)
    &&& holds_rows(st, alns, alns.len() as int, 0)
}

/// Why the glues give no graph on the state: there are weights, and not as many as glues;
/// or the constraints have more columns than a graph can have nodes; or the first glue that
/// is not fine fails; or the weights of the fine glues add up too high.
pub open spec fn graph_fault(
    st: AlnState,
    glues: Seq<Vec<Record>>,
    weights: Option<Vec<u64>>,
    e: GcmError,
) -> bool {
    let arity_bad = weights.is_some() && weights.unwrap()@.len() != glues.len();
    let size = offset(st.column_counts@, st.column_counts@.len() as int);
    ||| e == GcmError::WeightArityMismatch && arity_bad
    ||| e == GcmError::TooManyColumns && !arity_bad && size > NODE_CAP
    ||| !arity_bad && size <= NODE_CAP && exists|k: int|
        0 <= k < glues.len() && glues_fine(st, glues, k) && glue_fails_with(
            st,
            (#[trigger] glues[k])@,
            e,
        )
    ||| e == GcmError::WeightOverflow && !arity_bad && size <= NODE_CAP && glues_fine(
        st,
        glues,
        glues.len() as int,
    ) && graph_total(st, glues, weights) > WEIGHT_CAP
}

/// The glues give a graph on the state.
pub open spec fn graph_fine(st: AlnState, glues: Seq<Vec<Record>>, weights: Option<Vec<u64>>) -> bool {
    &&& weights.is_some() ==> weights.unwrap()@.len() == glues.len()
    &&& offset(st.column_counts@, st.column_counts@.len() as int) <= NODE_CAP
    &&& glues_fine(st, glues, glues.len() as int)
    &&& graph_total(st, glues, weights) <= WEIGHT_CAP
}

/// The columns of all constraints, counted by either rule, are as many.
pub proof fn lemma_offset_total(counts: Seq<usize>, k: int)
    requires
        0 <= k <= counts.len(),
    ensures
        offset(counts, k) == crate::frames::total_columns(counts.take(k)),
    decreases k,
{
    if k > 0 {
        lemma_offset_total(counts, k - 1);
        assert(counts.take(k).drop_last() =~= counts.take(k - 1));
    } else {
        assert(counts.take(0) =~= Seq::<usize>::empty());
    }
}

} // verus!

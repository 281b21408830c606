use vstd::prelude::*;
use crate::frames::{row_sum, row_view};

verus! {

/// The byte that stands for a gap in what is written.
pub const GAP: u8 = 45;

/// The other byte that alignments use for a gap.
pub const DOT: u8 = 46;

/// The byte that ends a line.
pub const NEWLINE: u8 = 10;

/// The byte that opens a header line.
pub const HEADER: u8 = 62;

/// The number of columns on a line of sequence.
pub const LINE_WIDTH: usize = 60;

/// Whether the byte stands for a gap.
pub open spec fn is_gap(b: u8) -> bool {
    b == GAP || b == DOT
}

/// The residues of a row: its bytes without the gaps.
pub open spec fn residues(s: Seq<u8>) -> Seq<u8>
    decreases s.len(),
{
    if s.len() == 0 {
        Seq::empty()
    } else if is_gap(s.last()) {
        residues(s.drop_last())
    } else {
        residues(s.drop_last()).push(s.last())
    }
}

/// `n` gaps.
pub open spec fn gaps(n: nat) -> Seq<u8> {
    Seq::new(n, |i: int| GAP)
}

/// The first `n` columns of a row, each behind the gaps that its frame gives it.
pub open spec fn woven_prefix(row: Seq<u8>, frame: Seq<nat>, n: int) -> Seq<u8>
    decreases n,
{
    if n <= 0 {
        Seq::empty()
    } else {
        woven_prefix(row, frame, n - 1) + gaps(frame[n - 1]).push(row[n - 1])
    }
}

/// A row of a constraint in the merged alignment: each column behind its gaps, then the
/// trailing gaps and one more.
pub open spec fn woven(row: Seq<u8>, frame: Seq<nat>) -> Seq<u8> {
    woven_prefix(row, frame, row.len() as int) + gaps(frame.last() + 1)
}

/// The gaps before the first `n` columns of a frame, and those columns.
pub open spec fn prefix_width(frame: Seq<nat>, n: int) -> int
    decreases n,
{
    if n <= 0 {
        0
    } else {
        prefix_width(frame, n - 1) + frame[n - 1] + 1
    }
}

pub proof fn lemma_residues_push(s: Seq<u8>, b: u8)
    ensures
        residues(s.push(b)) == if is_gap(b) {
            residues(s)
        } else {
            residues(s).push(b)
        },
{
    assert(s.push(b).drop_last() =~= s);
}

pub proof fn lemma_residues_add(a: Seq<u8>, b: Seq<u8>)
    ensures
        residues(a + b) == residues(a) + residues(b),
    decreases b.len(),
{
    if b.len() == 0 {
        assert(a + b =~= a);
        assert(residues(a) + residues(b) =~= residues(a));
    } else {
        lemma_residues_add(a, b.drop_last());
        assert((a + b).drop_last() =~= a + b.drop_last());
        assert((a + b).last() == b.last());
        if !is_gap(b.last()) {
            assert((residues(a) + residues(b.drop_last())).push(b.last()) =~= residues(a)
                + residues(b.drop_last()).push(b.last()));
        }
    }
}

pub proof fn lemma_residues_gaps(n: nat)
    ensures
        residues(gaps(n)) == Seq::<u8>::empty(),
    decreases n,
{
    if n > 0 {
        lemma_residues_gaps((n - 1) as nat);
        assert(gaps(n).drop_last() =~= gaps((n - 1) as nat));
    }
}

proof fn lemma_woven_prefix(row: Seq<u8>, frame: Seq<nat>, n: int)
    requires
        0 <= n <= row.len(),
        frame.len() == row.len() + 1,
    ensures
        residues(woven_prefix(row, frame, n)) == residues(row.take(n)),
        woven_prefix(row, frame, n).len() == prefix_width(frame, n),
    decreases n,
{
    if n > 0 {
        lemma_woven_prefix(row, frame, n - 1);
        let head = woven_prefix(row, frame, n - 1);
        let g = gaps(frame[n - 1]);
        lemma_residues_add(head, g.push(row[n - 1]));
        lemma_residues_push(g, row[n - 1]);
        lemma_residues_gaps(frame[n - 1]);
        assert(row.take(n) =~= row.take(n - 1).push(row[n - 1]));
        lemma_residues_push(row.take(n - 1), row[n - 1]);
        if is_gap(row[n - 1]) {
            assert(residues(head) + Seq::<u8>::empty() =~= residues(head));
        } else {
            assert(residues(head) + Seq::<u8>::empty().push(row[n - 1]) =~= residues(head).push(
                row[n - 1],
            ));
        }
    } else {
        assert(row.take(0) =~= Seq::<u8>::empty());
    }
}

pub proof fn lemma_prefix_width(frame: Seq<nat>, n: int)
    requires
        0 <= n <= frame.len(),
    ensures
        prefix_width(frame, n) == row_sum(frame.take(n)) + n,
    decreases n,
{
    if n > 0 {
        lemma_prefix_width(frame, n - 1);
        assert(frame.take(n).drop_last() =~= frame.take(n - 1));
    } else {
        assert(frame.take(0) =~= Seq::<nat>::empty());
    }
}

/// Weaving gaps into a row keeps its residues, in their order.
pub proof fn lemma_weave_keeps_residues(row: Seq<u8>, frame: Seq<nat>)
    requires
        frame.len() == row.len() + 1,
    ensures
        residues(woven(row, frame)) == residues(row),
{
    lemma_woven_prefix(row, frame, row.len() as int);
    assert(row.take(row.len() as int) =~= row);
    lemma_residues_add(woven_prefix(row, frame, row.len() as int), gaps(frame.last() + 1));
    lemma_residues_gaps(frame.last() + 1);
    assert(residues(row) + Seq::<u8>::empty() =~= residues(row));
}

/// A woven row is as long as its columns and all gaps of its frame, and one more.
pub proof fn lemma_woven_len(row: Seq<u8>, frame: Seq<nat>)
    requires
        frame.len() == row.len() + 1,
    ensures
        woven(row, frame).len() == row.len() + row_sum(frame) + 1,
{
    lemma_woven_prefix(row, frame, row.len() as int);
    lemma_prefix_width(frame, row.len() as int);
    assert(frame.take(row.len() as int) =~= frame.drop_last());
}

/// Appends `n` gaps.
fn push_gaps(buf: &mut Vec<u8>, n: u64)
    ensures
        final(buf)@ == old(buf)@ + gaps(n as nat),
{
    let ghost before = buf@;
    let mut i: u64 = 0;
    while i < n
        invariant
            i <= n,
            buf@ == before + gaps(i as nat),
        decreases n - i,
    {
        buf.push(GAP);
        i += 1;
        assert(buf@ =~= before + gaps(i as nat));
    }
    assert(gaps(0) =~= Seq::<u8>::empty());
}

/// One row of a constraint as it stands in the merged alignment.
pub fn weave_row(row: &[u8], frame: &[u32]) -> (out: Vec<u8>)
    requires
        frame@.len() == row@.len() + 1,
    ensures
        out@ == woven(row@, row_view(frame@)),
        residues(out@) == residues(row@),
        out@.len() == row@.len() + row_sum(row_view(frame@)) + 1,
{
    let mut buf: Vec<u8> = Vec::new();
    let ghost f = row_view(frame@);
    let mut i: usize = 0;
    assert(buf@ =~= woven_prefix(row@, f, 0));
    while i < row.len()
        invariant
            i <= row@.len(),
            frame@.len() == row@.len() + 1,
            f == row_view(frame@),
            buf@ == woven_prefix(row@, f, i as int),
        decreases row.len() - i,
    {
        push_gaps(&mut buf, frame[i] as u64);
        buf.push(row[i]);
        assert(buf@ =~= woven_prefix(row@, f, i as int) + gaps(f[i as int]).push(row@[i as int]));
        i += 1;
    }
    push_gaps(&mut buf, frame[frame.len() - 1] as u64 + 1);
    proof {
        lemma_weave_keeps_residues(row@, f);
        lemma_woven_len(row@, f);
    }
    buf
}

/// The lines of sequence: the bytes in runs of `LINE_WIDTH`, each run ended by a newline.
pub open spec fn wrapped(s: Seq<u8>) -> Seq<u8>
    decreases s.len(),
{
    if s.len() == 0 {
        Seq::empty()
    } else if s.len() <= LINE_WIDTH {
        s.push(NEWLINE)
    } else {
        s.take(LINE_WIDTH as int).push(NEWLINE) + wrapped(s.skip(LINE_WIDTH as int))
    }
}

/// A record as text: the header line, then the lines of sequence.
pub open spec fn record_text(head: Seq<u8>, body: Seq<u8>) -> Seq<u8> {
    seq![HEADER] + head + seq![NEWLINE] + wrapped(body)
}

/// Appends the record as text: `>`, the header, and the sequence on lines of `LINE_WIDTH`.
pub fn write_record(out: &mut Vec<u8>, head: &[u8], body: &[u8])
    ensures
        final(out)@ == old(out)@ + record_text(head@, body@),
{
    let ghost before = out@;
    out.push(HEADER);
    let mut i: usize = 0;
    while i < head.len()
        invariant
            i <= head@.len(),
            out@ == before + seq![HEADER] + head@.take(i as int),
        decreases head.len() - i,
    {
        out.push(head[i]);
        i += 1;
        assert(out@ =~= before + seq![HEADER] + head@.take(i as int));
    }
    out.push(NEWLINE);
    assert(head@.take(head@.len() as int) =~= head@);
    let ghost base = before + seq![HEADER] + head@ + seq![NEWLINE];
    assert(out@ =~= base);
    assert(body@.skip(0) =~= body@);
    let mut j: usize = 0;
    while j < body.len()
        invariant
            j <= body@.len(),
            out@ + wrapped(body@.skip(j as int)) == base + wrapped(body@),
        decreases body.len() - j,
    {
        let ghost rest = body@.skip(j as int);
        let ghost start = out@;
        let end = if body.len() - j <= LINE_WIDTH {
            body.len()
        } else {
            j + LINE_WIDTH
        };
        let mut p: usize = j;
        while p < end
            invariant
                j <= p <= end <= body@.len(),
                out@ == start + body@.subrange(j as int, p as int),
            decreases end - p,
        {
            out.push(body[p]);
            p += 1;
            assert(out@ =~= start + body@.subrange(j as int, p as int));
        }
        out.push(NEWLINE);
        proof {
            if body.len() - j <= LINE_WIDTH {
                assert(body@.subrange(j as int, end as int) =~= rest);
                assert(body@.skip(end as int).len() == 0);
                assert(out@ + wrapped(body@.skip(end as int)) =~= start + rest.push(NEWLINE));
            } else {
                assert(body@.subrange(j as int, end as int) =~= rest.take(LINE_WIDTH as int));
                assert(rest.skip(LINE_WIDTH as int) =~= body@.skip(end as int));
                assert(out@ + wrapped(body@.skip(end as int)) =~= start + (rest.take(
                    LINE_WIDTH as int,
                ).push(NEWLINE) + wrapped(rest.skip(LINE_WIDTH as int))));
            }
        }
        j = end;
    }
    assert(out@ + wrapped(body@.skip(j as int)) =~= out@);
    assert(base + wrapped(body@) =~= before + record_text(head@, body@));
}

} // verus!

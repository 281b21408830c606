use vstd::prelude::*;
use vstd::string::StringSliceAdditionalSpecFns;
use rand::rngs::SmallRng;
use crate::aln::Record;
use crate::rng::rng_in_range;
use crate::weave::{residues, write_record, DOT, GAP};

verus! {

/// The residues of a row: its bytes without the gaps.
pub fn degap(seq: &[u8]) -> (out: Vec<u8>)
    ensures
        out@ == residues(seq@),
{
    let mut degapped: Vec<u8> = Vec::new();
    let mut i: usize = 0;
    assert(seq@.take(0) =~= Seq::<u8>::empty());
    while i < seq.len()
        invariant
            i <= seq@.len(),
            degapped@ == residues(seq@.take(i as int)),
        decreases seq.len() - i,
    {
        let b = seq[i];
        proof {
            assert(seq@.take(i as int + 1).drop_last() =~= seq@.take(i as int));
            assert(seq@.take(i as int + 1).last() == b);
        }
        if b != GAP && b != DOT {
            degapped.push(b);
        }
        i += 1;
    }
    assert(seq@.take(seq@.len() as int) =~= seq@);
    degapped
}

/// A sampler of rows that come one by one: it keeps all of them, or, where it has a
/// capacity, as many as that, each row seen having the same chance to be among them.
pub struct SequenceSampler {
    pub names: Vec<Vec<u8>>,
    pub records: Vec<Vec<u8>>,
    pub max_capacity: Option<usize>,
    pub i: usize,
}

impl SequenceSampler {
    /// The sampler holds a name for each row it keeps, and no more rows than it has seen or
    /// than its capacity.
    pub open spec fn wf(&self) -> bool {
        &&& self.names@.len() == self.records@.len()
        &&& match self.max_capacity {
            Some(cap) => self.records@.len() == (if self.i < cap {
                self.i
            } else {
                cap
            }),
            None => self.records@.len() == self.i,
        }
    }

    /// A sampler that has seen no row.
    pub fn new(max_capacitiy: Option<usize>) -> (r: Self)
        ensures
            r.wf(),
            r.i == 0,
            r.max_capacity == max_capacitiy,
            r.records@.len() == 0,
    {
        Self { names: Vec::new(), records: Vec::new(), max_capacity: max_capacitiy, i: 0 }
    }

    /// Whether the sampler has seen as many rows as it can keep.
    pub fn is_full(&self) -> (r: bool)
        ensures
            r == (match self.max_capacity {
                Some(cap) => self.i >= cap,
                None => false,
            }),
    {
        match self.max_capacity {
            Some(b) => self.i >= b,
            None => false,
        }
    }

    /// Takes the row that chance points at: below the capacity the row takes the place of
    /// the row kept there, else it is let go.
    pub fn place(&mut self, j: usize, head: &[u8], seq: &[u8])
        requires
            old(self).wf(),
            old(self).max_capacity.is_some(),
            old(self).i >= old(self).max_capacity.unwrap(),
            old(self).i < usize::MAX,
        ensures
            final(self).wf(),
            final(self).i == old(self).i + 1,
            final(self).max_capacity == old(self).max_capacity,
            final(self).records@.len() == old(self).records@.len(),
            j < old(self).max_capacity.unwrap() ==> final(self).records@[j as int]@ == residues(
                seq@,
            ) && final(self).names@[j as int]@ == head@,
            forall|x: int|
                0 <= x < old(self).records@.len() && x != j ==> final(self).records@[x] == old(
                    self,
                ).records@[x] && final(self).names@[x] == old(self).names@[x],
    {
        match self.max_capacity {
            Some(s) => {
                if j < s {
                    self.names[j] = copy_bytes(head);
                    self.records[j] = degap(seq);
                }
            },
            None => {},
        }
        self.i = self.i + 1;
    }

    /// Sees one row: it is kept where there is room; else it takes the place of a row kept,
    /// or none, as chance has it.
    pub fn see(&mut self, rng: &mut SmallRng, head: &[u8], seq: &[u8])
        requires
            old(self).wf(),
            old(self).i < usize::MAX,
        ensures
            final(self).wf(),
            final(self).i == old(self).i + 1,
            final(self).max_capacity == old(self).max_capacity,
            old(self).records@.len() < final(self).records@.len() ==> final(self).records@.last()@
                == residues(seq@) && final(self).names@.last()@ == head@,
            forall|x: int|
                0 <= x < final(self).records@.len() ==> (#[trigger] final(self).records@[x])@
                    == residues(seq@) || (x < old(self).records@.len() && final(self).records@[x]
                    == old(self).records@[x]),
    {
        let room = match self.max_capacity {
            None => true,
            Some(s) => self.i < s,
        };
        if room {
            self.names.push(copy_bytes(head));
            self.records.push(degap(seq));
            self.i = self.i + 1;
        } else {
            let j = rng_in_range(rng, 0, self.i + 1);
            self.place(j, head, seq);
        }
    }

    /// The rows kept as text: each under its name, its residues on lines of sixty.
    pub fn dump(&self) -> (out: Vec<u8>)
        requires
            self.wf(),
        ensures
            out@ == kept_text(self.names@, self.records@, self.records@.len() as int),
    {
        let mut out: Vec<u8> = Vec::new();
        let mut k: usize = 0;
        while k < self.records.len()
            invariant
                k <= self.records@.len(),
                self.names@.len() == self.records@.len(),
                out@ == kept_text(self.names@, self.records@, k as int),
            decreases self.records.len() - k,
        {
            write_record(&mut out, self.names[k].as_slice(), self.records[k].as_slice());
            k += 1;
        }
        out
    }
}

/// The first `n` rows kept as text.
pub open spec fn kept_text(names: Seq<Vec<u8>>, records: Seq<Vec<u8>>, n: int) -> Seq<u8>
    decreases n,
{
    if n <= 0 {
        Seq::empty()
    } else {
        kept_text(names, records, n - 1) + crate::weave::record_text(
            names[n - 1]@,
            records[n - 1]@,
        )
    }
}

/// A copy of the bytes.
pub fn copy_bytes(src: &[u8]) -> (out: Vec<u8>)
    ensures
        out@ == src@,
{
    let mut out: Vec<u8> = Vec::new();
    let mut i: usize = 0;
    while i < src.len()
        invariant
            i <= src@.len(),
            out@ == src@.take(i as int),
        decreases src.len() - i,
    {
        out.push(src[i]);
        i += 1;
        assert(out@ =~= src@.take(i as int));
    }
    assert(src@.take(src@.len() as int) =~= src@);
    assert(src@.take(0) =~= Seq::<u8>::empty());
    out
}

/// Whether the bytes are the residues of one of the first `n` rows.
pub open spec fn from_rows(kept: Seq<u8>, rows: Seq<Record>, n: int) -> bool {
    exists|r: int| 0 <= r < n && kept == residues(#[trigger] rows[r].seq@)
}

/// Samples up to `num_seqs` of the rows, each with the same chance, and gives them as text:
/// the residues of as many rows as there are, or of `num_seqs` where there are more.
pub fn sample_seqs_in_place(rows: &Vec<Record>, num_seqs: usize, rng: &mut SmallRng) -> (r: (
    SequenceSampler,
    Vec<u8>,
))
    requires
        rows@.len() < usize::MAX,
    ensures
        r.0.wf(),
        r.0.records@.len() == (if rows@.len() < num_seqs {
            rows@.len()
        } else {
            num_seqs as nat
        }),
        forall|x: int|
            0 <= x < r.0.records@.len() ==> from_rows(
                (#[trigger] r.0.records@[x])@,
                rows@,
                rows@.len() as int,
            ),
        r.1@ == kept_text(r.0.names@, r.0.records@, r.0.records@.len() as int),
{
    let mut sampler = SequenceSampler::new(Some(num_seqs));
    let mut k: usize = 0;
    while k < rows.len()
        invariant
            k <= rows@.len(),
            rows@.len() < usize::MAX,
            sampler.wf(),
            sampler.i == k,
            sampler.max_capacity == Some(num_seqs),
            forall|x: int|
                0 <= x < sampler.records@.len() ==> from_rows(
                    (#[trigger] sampler.records@[x])@,
                    rows@,
                    k as int,
                ),
        decreases rows.len() - k,
    {
        let ghost before = sampler.records@;
        sampler.see(rng, rows[k].name.as_str().as_bytes(), rows[k].seq.as_slice());
        proof {
            assert forall|x: int| 0 <= x < sampler.records@.len() implies from_rows(
                (#[trigger] sampler.records@[x])@,
                rows@,
                k + 1,
            ) by {
                if sampler.records@[x]@ == residues(rows@[k as int].seq@) {
                    assert(0 <= k < k + 1 && sampler.records@[x]@ == residues(rows@[k as int].seq@));
                } else {
                    assert(from_rows(before[x]@, rows@, k as int));
                    let r = choose|r: int|
                        0 <= r < k && before[x]@ == residues(#[trigger] rows@[r].seq@);
                    assert(0 <= r < k + 1);
                }
            }
        }
        k += 1;
    }
    let text = sampler.dump();
    (sampler, text)
}


/// The value of a run of decimal digits, or nothing where a byte is no digit.
pub open spec fn digits_value(s: Seq<u8>) -> Option<nat>
    decreases s.len(),
{
    if s.len() == 0 {
        Some(0)
    } else if 48 <= s.last() <= 57 {
        match digits_value(s.drop_last()) {
            Some(v) => Some(v * 10 + (s.last() - 48) as nat),
            None => None,
        }
    } else {
        None
    }
}

/// The number that the bytes are, as a `usize`: decimal digits, at least one, with a plus
/// sign before them or none; nothing where they are no such number or one too large.
pub open spec fn number_of(s: Seq<u8>) -> Option<usize> {
    let digits = if s.len() > 0 && s[0] == 43 {
        s.skip(1)
    } else {
        s
    };
    if digits.len() == 0 {
        None
    } else {
        match digits_value(digits) {
            Some(v) => if v <= usize::MAX {
                Some(v as usize)
            } else {
                None
            },
            None => None,
        }
    }
}

/// The place of the first `x` at or after `from`, or the length where there is none.
pub open spec fn next_x(s: Seq<u8>, from: int) -> int
    decreases s.len() - from,
{
    if from >= s.len() {
        s.len() as int
    } else if s[from] == 120 {
        from
    } else {
        next_x(s, from + 1)
    }
}

/// Once a run of digits is too large, or holds a byte that is no digit, so is every run
/// that goes on from it.
proof fn lemma_digits_stay_bad(s: Seq<u8>, n: int, m: int)
    requires
        0 <= n <= m <= s.len(),
        match digits_value(s.take(n)) {
            Some(v) => v > usize::MAX,
            None => true,
        },
    ensures
        match digits_value(s.take(m)) {
            Some(v) => v > usize::MAX,
            None => true,
        },
    decreases m - n,
{
    if n < m {
        lemma_digits_stay_bad(s, n, m - 1);
        assert(s.take(m).drop_last() =~= s.take(m - 1));
    }
}

/// The number that the bytes are.
fn parse_number(s: &[u8]) -> (r: Option<usize>)
    ensures
        r == number_of(s@),
{
    let start: usize = if s.len() > 0 && s[0] == 43 {
        1
    } else {
        0
    };
    let ghost digits = s@.skip(start as int);
    let total = s.len();
    proof {
        if start == 0 {
            assert(digits =~= s@);
        }
    }
    if start == total {
        return None;
    }
    let n = total - start;
    let mut value: usize = 0;
    let mut i: usize = 0;
    assert(digits.take(0) =~= Seq::<u8>::empty());
    while i < n
        invariant
            i <= n,
            n == digits.len(),
            start + n == total,
            total == s@.len(),
            digits == s@.skip(start as int),
            number_of(s@) == (if digits.len() == 0 {
                None
            } else {
                match digits_value(digits) {
                    Some(v) => if v <= usize::MAX {
                        Some(v as usize)
                    } else {
                        None
                    },
                    None => None,
                }
            }),
            digits_value(digits.take(i as int)) == Some(value as nat),
        decreases n - i,
    {
        let b = s[start + i];
        assert(b == digits[i as int]);
        proof {
            assert(digits.take(i as int + 1).drop_last() =~= digits.take(i as int));
            assert(digits.take(i as int + 1).last() == b);
            assert(digits.take(n as int) =~= digits);
        }
        if b < 48 || b > 57 {
            proof {
                assert(digits_value(digits.take(i as int + 1)).is_none());
                lemma_digits_stay_bad(digits, i as int + 1, n as int);
            }
            return None;
        }
        let d = (b - 48) as usize;
        if value > (usize::MAX - d) / 10 {
            proof {
                assert(value * 10 + d > usize::MAX) by (nonlinear_arith)
                    requires
                        value > (usize::MAX - d) / 10,
                        d <= 9,
                ;
                assert(digits_value(digits.take(i as int + 1)) == Some((value * 10 + d) as nat));
                lemma_digits_stay_bad(digits, i as int + 1, n as int);
            }
            return None;
        }
        assert(value * 10 + d <= usize::MAX) by (nonlinear_arith)
            requires
                value <= (usize::MAX - d) / 10,
        ;
        value = value * 10 + d;
        i += 1;
    }
    assert(digits.take(n as int) =~= digits);
    Some(value)
}

/// The place of the first `x` at or after `from`, or the length where there is none.
fn find_x(s: &[u8], from: usize) -> (r: usize)
    requires
        from <= s@.len(),
    ensures
        r == next_x(s@, from as int),
        from <= r <= s@.len(),
{
    let mut i: usize = from;
    while i < s.len() && s[i] != 120
        invariant
            from <= i <= s@.len(),
            next_x(s@, i as int) == next_x(s@, from as int),
        decreases s.len() - i,
    {
        i += 1;
    }
    i
}

/// The bytes from `from` up to `to`.
fn slice_of(s: &[u8], from: usize, to: usize) -> (r: Vec<u8>)
    requires
        from <= to <= s@.len(),
    ensures
        r@ == s@.subrange(from as int, to as int),
{
    let mut out: Vec<u8> = Vec::new();
    let mut i: usize = from;
    while i < to
        invariant
            from <= i <= to <= s@.len(),
            out@ == s@.subrange(from as int, i as int),
        decreases to - i,
    {
        out.push(s[i]);
        i += 1;
        assert(out@ =~= s@.subrange(from as int, i as int));
    }
    assert(s@.subrange(from as int, from as int) =~= Seq::<u8>::empty());
    out
}

/// The two numbers of a text of the form `AxB`: what stands before the first `x`, and what
/// stands between it and the next `x` or the end. Fails where there is no `x`, or where one
/// of the two is no number.
pub fn parse_axb(s: &str) -> (r: Result<(usize, usize), String>)
    ensures
        ({
            let bytes = s.spec_bytes();
            let cut = next_x(bytes, 0);
            let end = next_x(bytes, cut + 1);
            let first = number_of(bytes.subrange(0, cut));
            match r {
                Ok(ab) => cut < bytes.len() && first == Some(ab.0) && number_of(
                    bytes.subrange(cut + 1, end),
                ) == Some(ab.1),
                Err(msg) => if cut >= bytes.len() {
                    msg@ == "missing second argument before 'x'"@
                } else if first.is_none() {
                    msg@ == "Cannot parse first argument into int"@
                } else {
                    number_of(bytes.subrange(cut + 1, end)).is_none() && msg@
                        == "Cannot parse second argument into int"@
                },
            }
        }),
{
    let bytes = s.as_bytes();
    let cut = find_x(bytes, 0);
    if cut >= bytes.len() {
        return Err("missing second argument before 'x'".to_owned());
    }
    let end = find_x(bytes, cut + 1);
    let a = slice_of(bytes, 0, cut);
    let b = slice_of(bytes, cut + 1, end);
    let a_u = match parse_number(a.as_slice()) {
        Some(v) => v,
        None => {
            return Err("Cannot parse first argument into int".to_owned());
        },
    };
    let b_u = match parse_number(b.as_slice()) {
        Some(v) => v,
        None => {
            return Err("Cannot parse second argument into int".to_owned());
        },
    };
    Ok((a_u, b_u))
}

} // verus!

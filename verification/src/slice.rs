use vstd::prelude::*;
use rand::rngs::SmallRng;
use crate::aln::Record;
use crate::naive_upgma::member_ids;
use crate::rng::rng_sample;
use crate::weave::{record_text, write_record};

verus! {

/// The largest of the first `n` sizes, or zero where there is none.
pub open spec fn largest(sizes: Seq<usize>, n: int) -> int
    decreases n,
{
    if n <= 0 {
        0
    } else if sizes[n - 1] > largest(sizes, n - 1) {
        sizes[n - 1] as int
    } else {
        largest(sizes, n - 1)
    }
}

/// The number of rows that a glue takes from each subset: an even share of the size of the
/// glue, and no more than the largest subset has.
pub open spec fn share(glue_size: usize, sizes: Seq<usize>) -> int {
    let even = glue_size as int / sizes.len() as int;
    if even > largest(sizes, sizes.len() as int) {
        largest(sizes, sizes.len() as int)
    } else {
        even
    }
}

/// The number of rows that a glue takes from each subset.
pub fn glue_sample_size(glue_size: usize, sizes: &Vec<usize>) -> (r: usize)
    requires
        sizes@.len() > 0,
    ensures
        r == share(glue_size, sizes@),
{
    let mut top: usize = 0;
    let mut i: usize = 0;
    while i < sizes.len()
        invariant
            i <= sizes@.len(),
            top == largest(sizes@, i as int),
        decreases sizes.len() - i,
    {
        if sizes[i] > top {
            top = sizes[i];
        }
        i += 1;
    }
    let even = glue_size / sizes.len();
    if even > top {
        top
    } else {
        even
    }
}

/// The rows of each of `k` subsets, in their order: row `i` belongs to subset `labels[i]`.
pub fn group_rows(labels: &Vec<usize>, k: usize) -> (groups: Vec<Vec<usize>>)
    requires
        forall|i: int| 0 <= i < labels@.len() ==> #[trigger] labels@[i] < k,
    ensures
        groups@.len() == k,
        forall|g: usize|
            g < k ==> (#[trigger] groups@[g as int])@.len() == member_ids(
                labels@,
                g,
                labels@.len() as int,
            ).len(),
        forall|g: usize, a: int|
            g < k && 0 <= a < groups@[g as int]@.len() ==> (#[trigger] groups@[g as int]@[a])
                == member_ids(labels@, g, labels@.len() as int)[a],
{
    let mut groups: Vec<Vec<usize>> = Vec::new();
    let mut g: usize = 0;
    while g < k
        invariant
            g <= k,
            groups@.len() == g,
            forall|x: int| 0 <= x < g ==> (#[trigger] groups@[x])@.len() == 0,
        decreases k - g,
    {
        groups.push(Vec::new());
        g += 1;
    }
    let mut i: usize = 0;
    while i < labels.len()
        invariant
            i <= labels@.len(),
            groups@.len() == k,
            forall|j: int| 0 <= j < labels@.len() ==> #[trigger] labels@[j] < k,
            forall|g: usize|
                g < k ==> (#[trigger] groups@[g as int])@.len() == member_ids(
                    labels@,
                    g,
                    i as int,
                ).len(),
            forall|g: usize, a: int|
                g < k && 0 <= a < groups@[g as int]@.len() ==> (#[trigger] groups@[g as int]@[a])
                    == member_ids(labels@, g, i as int)[a],
        decreases labels.len() - i,
    {
        let l = labels[i];
        let ghost before = groups@;
        groups[l].push(i);
        proof {
            assert forall|g: usize| g < k implies (#[trigger] groups@[g as int])@.len()
                == member_ids(labels@, g, i as int + 1).len() by {
                if g != l {
                    assert(groups@[g as int] == before[g as int]);
                }
            }
            assert forall|g: usize, a: int|
                g < k && 0 <= a < groups@[g as int]@.len() implies (#[trigger] groups@[g as int]@[a])
                == member_ids(labels@, g, i as int + 1)[a] by {
                if g != l {
                    assert(groups@[g as int] == before[g as int]);
                } else if a < before[g as int]@.len() {
                    assert(before[g as int]@[a] == member_ids(labels@, g, i as int)[a]);
                }
            }
        }
        i += 1;
    }
    groups
}

/// The first `n` rows of a subset as text, unaligned.
pub open spec fn subset_text(rows: Seq<Record>, group: Seq<usize>, n: int) -> Seq<u8>
    decreases n,
{
    if n <= 0 {
        Seq::empty()
    } else {
        subset_text(rows, group, n - 1) + record_text(
            vstd::utf8::encode_utf8(rows[group[n - 1] as int].name@),
            rows[group[n - 1] as int].seq@,
        )
    }
}

/// Appends the rows of a subset as text, in the order of the subset.
pub fn write_subset(out: &mut Vec<u8>, rows: &Vec<Record>, group: &Vec<usize>)
    requires
        forall|a: int| 0 <= a < group@.len() ==> #[trigger] group@[a] < rows@.len(),
    ensures
        final(out)@ == old(out)@ + subset_text(rows@, group@, group@.len() as int),
{
    let ghost base = out@;
    let mut a: usize = 0;
    assert(out@ =~= base + subset_text(rows@, group@, 0));
    while a < group.len()
        invariant
            a <= group@.len(),
            forall|b: int| 0 <= b < group@.len() ==> #[trigger] group@[b] < rows@.len(),
            out@ == base + subset_text(rows@, group@, a as int),
        decreases group.len() - a,
    {
        let rec = &rows[group[a]];
        write_record(out, rec.name.as_str().as_bytes(), rec.seq.as_slice());
        proof {
            assert(out@ =~= base + subset_text(rows@, group@, a as int + 1));
        }
        a += 1;
    }
}

/// Rows of a subset drawn by chance, each once: as many as asked for, or all where the
/// subset has fewer.
pub fn sample_group(rng: &mut SmallRng, group: &Vec<usize>, amount: usize) -> (picked: Vec<usize>)
    ensures
        picked@.len() == (if amount < group@.len() {
            amount as nat
        } else {
            group@.len()
        }),
        forall|a: int| 0 <= a < picked@.len() ==> group@.contains(#[trigger] picked@[a]),
        group@.no_duplicates() ==> picked@.no_duplicates(),
{
    let amount = if amount < group.len() {
        amount
    } else {
        group.len()
    };
    let ix = rng_sample(rng, group.len(), amount);
    let mut picked: Vec<usize> = Vec::new();
    let mut a: usize = 0;
    while a < ix.len()
        invariant
            a <= ix@.len(),
            picked@.len() == a,
            ix@.no_duplicates(),
            forall|b: int| 0 <= b < ix@.len() ==> #[trigger] ix@[b] < group@.len(),
            forall|b: int| 0 <= b < a ==> #[trigger] picked@[b] == group@[ix@[b] as int],
        decreases ix.len() - a,
    {
        picked.push(group[ix[a]]);
        a += 1;
    }
    proof {
        assert forall|b: int| 0 <= b < picked@.len() implies group@.contains(
            #[trigger] picked@[b],
        ) by {
            assert(group@[ix@[b] as int] == picked@[b]);
        }
        if group@.no_duplicates() {
            assert forall|b: int, c: int|
                0 <= b < picked@.len() && 0 <= c < picked@.len() && b != c implies picked@[b]
                != picked@[c] by {
                assert(ix@[b] != ix@[c]);
            }
        }
    }
    picked
}

/// The rows drawn from the first `n` subsets as text.
pub open spec fn glue_text(rows: Seq<Record>, picks: Seq<Seq<usize>>, n: int) -> Seq<u8>
    decreases n,
{
    if n <= 0 {
        Seq::empty()
    } else {
        glue_text(rows, picks, n - 1) + subset_text(rows, picks[n - 1], picks[n - 1].len() as int)
    }
}

/// From each subset rows of it were drawn: as many as asked for, or all where the subset
/// has fewer.
pub open spec fn drawn(picks: Seq<Seq<usize>>, groups: Seq<Vec<usize>>, amount: usize) -> bool {
    &&& picks.len() == groups.len()
    &&& forall|g: int|
        0 <= g < groups.len() ==> (#[trigger] picks[g]).len() == (if amount < groups[g]@.len() {
            amount as nat
        } else {
            groups[g]@.len()
        })
    &&& forall|g: int, a: int|
        0 <= g < groups.len() && 0 <= a < picks[g].len() ==> groups[g]@.contains(
            #[trigger] picks[g][a],
        )
    &&& forall|g: int|
        0 <= g < groups.len() && groups[g]@.no_duplicates() ==> (#[trigger] picks[g]).no_duplicates()
}

/// The text of one glue: from each subset, rows drawn by chance, in the order of the
/// subsets.
pub fn write_glue(rng: &mut SmallRng, rows: &Vec<Record>, groups: &Vec<Vec<usize>>, amount: usize) -> (out:
    Vec<u8>)
    requires
        forall|g: int, a: int|
            0 <= g < groups@.len() && 0 <= a < groups@[g]@.len() ==> (#[trigger] groups@[g]@[a])
                < rows@.len(),
    ensures
        exists|picks: Seq<Seq<usize>>|
            drawn(picks, groups@, amount) && out@ == #[trigger] glue_text(
                rows@,
                picks,
                groups@.len() as int,
            ),
{
    let mut out: Vec<u8> = Vec::new();
    let ghost mut picks: Seq<Seq<usize>> = Seq::empty();
    let mut g: usize = 0;
    assert(out@ =~= glue_text(rows@, picks, 0));
    while g < groups.len()
        invariant
            g <= groups@.len(),
            forall|h: int, a: int|
                0 <= h < groups@.len() && 0 <= a < groups@[h]@.len() ==> (#[trigger] groups@[h]@[a])
                    < rows@.len(),
            drawn(picks, groups@.take(g as int), amount),
            out@ == glue_text(rows@, picks, g as int),
        decreases groups.len() - g,
    {
        let picked = sample_group(rng, &groups[g], amount);
        proof {
            assert forall|a: int| 0 <= a < picked@.len() implies #[trigger] picked@[a]
                < rows@.len() by {
                let x = picked@[a];
                assert(groups@[g as int]@.contains(x));
                let b = choose|b: int| 0 <= b < groups@[g as int]@.len() && groups@[g as int]@[b] == x;
                assert(groups@[g as int]@[b] < rows@.len());
            }
        }
        write_subset(&mut out, rows, &picked);
        proof {
            let before = picks;
            picks = picks.push(picked@);
            lemma_glue_text_same(rows@, before, picks, g as int);
            assert(groups@.take(g as int + 1)[g as int] == groups@[g as int]);
            assert forall|h: int| 0 <= h < g implies groups@.take(g as int + 1)[h] == groups@.take(
                g as int,
            )[h] && picks[h] == before[h] by {}
        }
        g += 1;
    }
    proof {
        assert(groups@.take(groups@.len() as int) =~= groups@);
    }
    out
}

/// The text of the rows drawn from the first `n` subsets depends on these alone.
proof fn lemma_glue_text_same(rows: Seq<Record>, p: Seq<Seq<usize>>, q: Seq<Seq<usize>>, n: int)
    requires
        0 <= n <= p.len(),
        n <= q.len(),
        forall|g: int| 0 <= g < n ==> p[g] == q[g],
    ensures
        glue_text(rows, p, n) == glue_text(rows, q, n),
    decreases n,
{
    if n > 0 {
        lemma_glue_text_same(rows, p, q, n - 1);
    }
}

} // verus!

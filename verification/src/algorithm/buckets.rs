//! The undecided cells, filed by their number of candidates.
//!
//! Bucket `k` lists cells that had `k` candidates when they were filed. A
//! cell is filed whenever its size becomes `k >= 2`, and struck from every
//! bucket before it is filed anew, so the bucket of its present size always
//! lists it. Within a bucket the cell filed first is taken first.

use crate::algorithm::common::{active, distinct, in_wave, listed, size_at};
use crate::grid::{DomainGrid, SizeGrid};
use crate::rules::{sum_of, sum_to};
use vstd::prelude::*;

verus! {

/// The number of entries in the first `k` buckets.
pub open spec fn entries_to(buckets: Seq<Vec<(usize, usize)>>, k: int) -> nat
    decreases k,
{
    if k <= 0 {
        0
    } else {
        entries_to(buckets, k - 1) + buckets[k - 1]@.len()
    }
}

/// The number of entries over all buckets.
pub open spec fn entries(buckets: Seq<Vec<(usize, usize)>>) -> nat {
    entries_to(buckets, buckets.len() as int)
}

/// The sum of the sizes in the first `k` rows of a table.
pub open spec fn total_to(rows: Seq<Seq<usize>>, k: int) -> nat
    decreases k,
{
    if k <= 0 {
        0
    } else {
        total_to(rows, k - 1) + sum_of(rows[k - 1])
    }
}

/// The sum of all sizes of a table.
pub open spec fn total(rows: Seq<Seq<usize>>) -> nat {
    total_to(rows, rows.len() as int)
}

/// Whether every entry of every bucket is a position of the wave.
pub open spec fn entries_in_wave(buckets: Seq<Vec<(usize, usize)>>, domains: DomainGrid) -> bool {
    forall|k: int, i: int|
        0 <= k < buckets.len() && 0 <= i < buckets[k]@.len() ==> in_wave(
            domains,
            (#[trigger] buckets[k]@[i]).0 as int,
            buckets[k]@[i].1 as int,
        )
}

/// Whether every undecided cell that takes part is listed in the bucket of
/// its size.
pub open spec fn covers(
    buckets: Seq<Vec<(usize, usize)>>,
    domains: DomainGrid,
    sizes: SizeGrid,
    mask: Seq<Seq<bool>>,
) -> bool {
    forall|y: int, x: int|
        in_wave(domains, y, x) && active(mask, y, x) && #[trigger] size_at(sizes, y, x) >= 2
            ==> size_at(sizes, y, x) < buckets.len() && listed(
            buckets[size_at(sizes, y, x) as int]@,
            y,
            x,
        )
}

/// Whether every undecided cell that takes part and is not named in `skip`
/// is listed in the bucket of its size.
pub open spec fn covers_but(
    buckets: Seq<Vec<(usize, usize)>>,
    domains: DomainGrid,
    sizes: SizeGrid,
    mask: Seq<Seq<bool>>,
    skip: Seq<(usize, usize)>,
) -> bool {
    forall|y: int, x: int|
        in_wave(domains, y, x) && active(mask, y, x) && #[trigger] size_at(sizes, y, x) >= 2
            && !listed(skip, y, x) ==> size_at(sizes, y, x) < buckets.len() && listed(
            buckets[size_at(sizes, y, x) as int]@,
            y,
            x,
        )
}

/// Whether every entry of every bucket, but for the cells named in
/// `skip`, is an undecided cell that takes part and is filed under its
/// size.
pub open spec fn exact_but(
    buckets: Seq<Vec<(usize, usize)>>,
    domains: DomainGrid,
    sizes: SizeGrid,
    mask: Seq<Seq<bool>>,
    skip: Seq<(usize, usize)>,
) -> bool {
    forall|k: int, i: int|
        0 <= k < buckets.len() && 0 <= i < buckets[k]@.len() ==> listed(
            skip,
            (#[trigger] buckets[k]@[i]).0 as int,
            buckets[k]@[i].1 as int,
        ) || filed_right(domains, sizes, mask, buckets[k]@[i], k)
}

/// Whether `cell` belongs in bucket `k`: it takes part, is undecided, and
/// has `k` candidates.
pub open spec fn filed_right(
    domains: DomainGrid,
    sizes: SizeGrid,
    mask: Seq<Seq<bool>>,
    cell: (usize, usize),
    k: int,
) -> bool {
    &&& in_wave(domains, cell.0 as int, cell.1 as int)
    &&& active(mask, cell.0 as int, cell.1 as int)
    &&& size_at(sizes, cell.0 as int, cell.1 as int) == k
    &&& k >= 2
}

/// Whether every entry of every bucket is an undecided cell that takes
/// part and is filed under its size.
pub open spec fn exact(
    buckets: Seq<Vec<(usize, usize)>>,
    domains: DomainGrid,
    sizes: SizeGrid,
    mask: Seq<Seq<bool>>,
) -> bool {
    exact_but(buckets, domains, sizes, mask, Seq::<(usize, usize)>::empty())
}

/// Whether no bucket lists a cell twice.
pub open spec fn no_repeats(buckets: Seq<Vec<(usize, usize)>>) -> bool {
    forall|k: int| 0 <= k < buckets.len() ==> distinct((#[trigger] buckets[k])@)
}

/// Whether the buckets are as they should be between two decisions: every
/// undecided cell that takes part is in exactly one bucket, the one of its
/// size, exactly once, and no bucket holds anything else.
pub open spec fn in_step(
    buckets: Seq<Vec<(usize, usize)>>,
    domains: DomainGrid,
    sizes: SizeGrid,
    mask: Seq<Seq<bool>>,
) -> bool {
    &&& covers(buckets, domains, sizes, mask)
    &&& exact(buckets, domains, sizes, mask)
    &&& no_repeats(buckets)
}

/// Whether `entry` is among the first `i` entries of `list`.
pub open spec fn among(list: Seq<(usize, usize)>, i: int, entry: (usize, usize)) -> bool {
    exists|j: int| 0 <= j < i && j < list.len() && #[trigger] list[j] == entry
}

/// Replacing one bucket changes the number of entries by the difference of
/// the lengths.
pub proof fn lemma_entries_update(
    buckets: Seq<Vec<(usize, usize)>>,
    j: int,
    bucket: Vec<(usize, usize)>,
    k: int,
)
    requires
        0 <= j < buckets.len(),
        0 <= k <= buckets.len(),
    ensures
        k <= j ==> entries_to(buckets.update(j, bucket), k) == entries_to(buckets, k),
        k > j ==> entries_to(buckets.update(j, bucket), k) == entries_to(buckets, k)
            - buckets[j]@.len() + bucket@.len(),
    decreases k,
{
    if k > 0 {
        lemma_entries_update(buckets, j, bucket, k - 1);
    }
}

/// Sums over sequences that agree up to `k` agree.
pub proof fn lemma_sum_le(a: Seq<usize>, b: Seq<usize>, k: int)
    requires
        0 <= k <= a.len(),
        a.len() == b.len(),
        forall|i: int| 0 <= i < k ==> a[i] <= b[i],
    ensures
        sum_to(a, k) <= sum_to(b, k),
        (exists|i: int| 0 <= i < k && a[i] < b[i]) ==> sum_to(a, k)
            < sum_to(b, k),
    decreases k,
{
    if k > 0 {
        lemma_sum_le(a, b, k - 1);
        if exists|i: int| 0 <= i < k && a[i] < b[i] {
            let i = choose|i: int| 0 <= i < k && a[i] < b[i];
            if i < k - 1 {
                assert(exists|i: int| 0 <= i < k - 1 && a[i] < b[i]);
            }
        }
    }
}

/// A table whose sizes are nowhere larger than those of another sums to no
/// more; where one size is smaller, it sums to less.
pub proof fn lemma_total_le(a: Seq<Seq<usize>>, b: Seq<Seq<usize>>, k: int)
    requires
        0 <= k <= a.len(),
        a.len() == b.len(),
        forall|y: int| 0 <= y < k ==> (#[trigger] a[y]).len() == b[y].len(),
        forall|y: int, x: int| 0 <= y < k && 0 <= x < a[y].len() ==> a[y][x] <= b[y][x],
    ensures
        total_to(a, k) <= total_to(b, k),
        (exists|y: int, x: int| 0 <= y < k && 0 <= x < a[y].len() && a[y][x] < b[y][x])
            ==> total_to(a, k) < total_to(b, k),
    decreases k,
{
    if k > 0 {
        lemma_total_le(a, b, k - 1);
        let row_a = a[k - 1];
        let row_b = b[k - 1];
        assert(row_a.len() == row_b.len());
        assert forall|i: int| 0 <= i < row_a.len() implies row_a[i] <= row_b[i] by {
            assert(a[k - 1][i] <= b[k - 1][i]);
        }
        lemma_sum_le(row_a, row_b, row_a.len() as int);
        if exists|y: int, x: int| 0 <= y < k && 0 <= x < a[y].len() && a[y][x] < b[y][x] {
            let (y, x) = choose|y: int, x: int|
                0 <= y < k && 0 <= x < a[y].len() && a[y][x] < b[y][x];
            if y < k - 1 {
                assert(exists|y: int, x: int|
                    0 <= y < k - 1 && 0 <= x < a[y].len() && a[y][x] < b[y][x]);
            } else {
                assert(row_a[x] < row_b[x]);
            }
        }
    }
}

/// `count` empty buckets.
pub fn empty_buckets(count: usize) -> (buckets: Vec<Vec<(usize, usize)>>)
    ensures
        buckets@.len() == count,
        forall|k: int| 0 <= k < count ==> (#[trigger] buckets@[k])@.len() == 0,
        entries(buckets@) == 0,
{
    let mut buckets: Vec<Vec<(usize, usize)>> = Vec::new();
    let mut k: usize = 0;
    while k < count
        invariant
            k <= count,
            buckets@.len() == k,
            forall|i: int| 0 <= i < k ==> (#[trigger] buckets@[i])@.len() == 0,
            entries_to(buckets@, k as int) == 0,
        decreases count - k,
    {
        let ghost before = buckets@;
        buckets.push(Vec::new());
        proof {
            lemma_entries_prefix(before, buckets@, k as int);
        }
        k += 1;
    }
    buckets
}

/// The number of entries in the first `k` buckets depends on those buckets
/// only.
pub proof fn lemma_entries_prefix(
    a: Seq<Vec<(usize, usize)>>,
    b: Seq<Vec<(usize, usize)>>,
    k: int,
)
    requires
        0 <= k <= a.len(),
        k <= b.len(),
        forall|i: int| 0 <= i < k ==> a[i] == b[i],
    ensures
        entries_to(a, k) == entries_to(b, k),
    decreases k,
{
    if k > 0 {
        lemma_entries_prefix(a, b, k - 1);
    }
}

/// Files `cell` at the end of bucket `k`.
pub fn file_cell(buckets: &mut Vec<Vec<(usize, usize)>>, k: usize, cell: (usize, usize))
    requires
        k < old(buckets)@.len(),
    ensures
        final(buckets)@.len() == old(buckets)@.len(),
        final(buckets)@[k as int]@ == old(buckets)@[k as int]@.push(cell),
        forall|j: int|
            0 <= j < old(buckets)@.len() && j != k ==> #[trigger] final(buckets)@[j] == old(buckets)@[j],
        entries(final(buckets)@) == entries(old(buckets)@) + 1,
{
    let ghost before = buckets@;
    let mut bucket: Vec<(usize, usize)> = Vec::new();
    std::mem::swap(&mut bucket, &mut buckets[k]);
    bucket.push(cell);
    let ghost filled = bucket;
    std::mem::swap(&mut bucket, &mut buckets[k]);
    proof {
        assert(buckets@ =~= before.update(k as int, filled));
        lemma_entries_update(before, k as int, filled, before.len() as int);
    }
}

/// The entries of `bucket` other than `cell`, in their order.
fn strike(bucket: &Vec<(usize, usize)>, cell: (usize, usize)) -> (kept: Vec<(usize, usize)>)
    ensures
        kept@.len() <= bucket@.len(),
        !listed(kept@, cell.0 as int, cell.1 as int),
        forall|y: int, x: int|
            listed(bucket@, y, x) && !(y == cell.0 && x == cell.1) ==> listed(kept@, y, x),
        forall|i: int|
            0 <= i < kept@.len() ==> listed(
                bucket@,
                (#[trigger] kept@[i]).0 as int,
                kept@[i].1 as int,
            ),
        distinct(bucket@) ==> distinct(kept@),
{
    let mut kept: Vec<(usize, usize)> = Vec::new();
    let mut i: usize = 0;
    while i < bucket.len()
        invariant
            i <= bucket.len(),
            kept@.len() <= i,
            !listed(kept@, cell.0 as int, cell.1 as int),
            forall|j: int|
                0 <= j < i && !(bucket@[j].0 == cell.0 && bucket@[j].1 == cell.1) ==> listed(
                    kept@,
                    (#[trigger] bucket@[j]).0 as int,
                    bucket@[j].1 as int,
                ),
            forall|k: int|
                0 <= k < kept@.len() ==> listed(
                    bucket@,
                    (#[trigger] kept@[k]).0 as int,
                    kept@[k].1 as int,
                ),
            forall|k: int| 0 <= k < kept@.len() ==> among(bucket@, i as int, #[trigger] kept@[k]),
            distinct(bucket@) ==> distinct(kept@),
        decreases bucket.len() - i,
    {
        let entry = bucket[i];
        if !(entry.0 == cell.0 && entry.1 == cell.1) {
            let ghost before = kept@;
            kept.push(entry);
            proof {
                assert forall|k: int| 0 <= k < kept@.len() implies among(
                    bucket@,
                    i as int + 1,
                    #[trigger] kept@[k],
                ) by {
                    if k < before.len() {
                        assert(among(bucket@, i as int, before[k]));
                        let j = choose|j: int|
                            0 <= j < i && j < bucket@.len() && #[trigger] bucket@[j] == before[k];
                        assert(bucket@[j] == kept@[k]);
                    } else {
                        assert(bucket@[i as int] == kept@[k]);
                    }
                }
                if distinct(bucket@) {
                    assert forall|a: int, b: int| 0 <= a < b < kept@.len() implies kept@[a]
                        != kept@[b] by {
                        if b == before.len() {
                            assert(among(bucket@, i as int, before[a]));
                            let j = choose|j: int|
                                0 <= j < i && j < bucket@.len() && #[trigger] bucket@[j]
                                    == before[a];
                            assert(bucket@[j] != bucket@[i as int]);
                        } else {
                            assert(before[a] != before[b]);
                        }
                    }
                }
                assert forall|y: int, x: int| listed(before, y, x) implies listed(kept@, y, x) by {
                    let k = choose|k: int|
                        0 <= k < before.len() && (#[trigger] before[k]).0 == y && before[k].1 == x;
                    assert(kept@[k].0 == y && kept@[k].1 == x);
                }
                assert(kept@[before.len() as int] == entry);
                assert(listed(kept@, entry.0 as int, entry.1 as int));
                if listed(kept@, cell.0 as int, cell.1 as int) {
                    let k = choose|k: int|
                        0 <= k < kept@.len() && (#[trigger] kept@[k]).0 == cell.0 && kept@[k].1
                            == cell.1;
                    if k < before.len() {
                        assert(before[k].0 == cell.0 && before[k].1 == cell.1);
                    }
                }
                assert forall|k: int| 0 <= k < kept@.len() implies listed(
                    bucket@,
                    (#[trigger] kept@[k]).0 as int,
                    kept@[k].1 as int,
                ) by {
                    if k < before.len() {
                        assert(kept@[k] == before[k]);
                    } else {
                        assert(bucket@[i as int] == kept@[k]);
                    }
                }
            }
        } else {
            proof {
                assert forall|k: int| 0 <= k < kept@.len() implies among(
                    bucket@,
                    i as int + 1,
                    #[trigger] kept@[k],
                ) by {
                    assert(among(bucket@, i as int, kept@[k]));
                    let j = choose|j: int|
                        0 <= j < i && j < bucket@.len() && #[trigger] bucket@[j] == kept@[k];
                    assert(bucket@[j] == kept@[k]);
                }
            }
        }
        i += 1;
    }
    proof {
        assert forall|y: int, x: int|
            listed(bucket@, y, x) && !(y == cell.0 && x == cell.1) implies listed(kept@, y, x) by {
            let j = choose|j: int|
                0 <= j < bucket@.len() && (#[trigger] bucket@[j]).0 == y && bucket@[j].1 == x;
        }
    }
    kept
}

/// Strikes `cell` from every bucket and keeps the order of the rest.
pub fn unfile_cell(buckets: &mut Vec<Vec<(usize, usize)>>, cell: (usize, usize))
    ensures
        final(buckets)@.len() == old(buckets)@.len(),
        no_repeats(old(buckets)@) ==> no_repeats(final(buckets)@),
        entries(final(buckets)@) <= entries(old(buckets)@),
        forall|k: int|
            0 <= k < old(buckets)@.len() ==> !listed(
                (#[trigger] final(buckets)@[k])@,
                cell.0 as int,
                cell.1 as int,
            ),
        forall|k: int, y: int, x: int|
            0 <= k < old(buckets)@.len() && #[trigger] listed(old(buckets)@[k]@, y, x) && !(y
                == cell.0 && x == cell.1) ==> listed(final(buckets)@[k]@, y, x),
        forall|k: int, i: int|
            0 <= k < old(buckets)@.len() && 0 <= i < final(buckets)@[k]@.len() ==> listed(
                old(buckets)@[k]@,
                (#[trigger] final(buckets)@[k]@[i]).0 as int,
                final(buckets)@[k]@[i].1 as int,
            ),
{
    let ghost start = buckets@;
    let mut k: usize = 0;
    while k < buckets.len()
        invariant
            k <= buckets@.len(),
            buckets@.len() == start.len(),
            start == old(buckets)@,
            no_repeats(start) ==> no_repeats(buckets@),
            entries(buckets@) <= entries(start),
            forall|j: int| k <= j < start.len() ==> #[trigger] buckets@[j] == start[j],
            forall|j: int|
                0 <= j < k ==> !listed((#[trigger] buckets@[j])@, cell.0 as int, cell.1 as int),
            forall|j: int, y: int, x: int|
                0 <= j < k && #[trigger] listed(start[j]@, y, x) && !(y == cell.0 && x
                    == cell.1) ==> listed(buckets@[j]@, y, x),
            forall|j: int, i: int|
                0 <= j < buckets@.len() && 0 <= i < buckets@[j]@.len() ==> listed(
                    start[j]@,
                    (#[trigger] buckets@[j]@[i]).0 as int,
                    buckets@[j]@[i].1 as int,
                ),
        decreases buckets.len() - k,
    {
        let ghost before = buckets@;
        let mut kept = strike(&buckets[k], cell);
        let ghost struck = kept;
        std::mem::swap(&mut kept, &mut buckets[k]);
        proof {
            assert(buckets@ =~= before.update(k as int, struck));
            lemma_entries_update(before, k as int, struck, before.len() as int);
            if no_repeats(start) {
                assert(distinct(start[k as int]@));
                assert forall|j: int| 0 <= j < buckets@.len() implies distinct(
                    (#[trigger] buckets@[j])@,
                ) by {
                    if j != k {
                        assert(distinct(before[j]@));
                    }
                }
            }
        }
        k += 1;
    }
}

/// Takes the entry filed first in bucket `k`.
pub fn take_first(buckets: &mut Vec<Vec<(usize, usize)>>, k: usize) -> (cell: (usize, usize))
    requires
        k < old(buckets)@.len(),
        old(buckets)@[k as int]@.len() > 0,
    ensures
        cell == old(buckets)@[k as int]@[0],
        final(buckets)@.len() == old(buckets)@.len(),
        final(buckets)@[k as int]@ == old(buckets)@[k as int]@.subrange(
            1,
            old(buckets)@[k as int]@.len() as int,
        ),
        forall|j: int|
            0 <= j < old(buckets)@.len() && j != k ==> #[trigger] final(buckets)@[j] == old(buckets)@[j],
        entries(final(buckets)@) + 1 == entries(old(buckets)@),
        forall|y: int, x: int|
            listed(old(buckets)@[k as int]@, y, x) && !(y == cell.0 && x == cell.1) ==> listed(
                final(buckets)@[k as int]@,
                y,
                x,
            ),
        no_repeats(old(buckets)@) ==> no_repeats(final(buckets)@) && !listed(
            final(buckets)@[k as int]@,
            cell.0 as int,
            cell.1 as int,
        ),
{
    let ghost before = buckets@;
    let mut bucket: Vec<(usize, usize)> = Vec::new();
    std::mem::swap(&mut bucket, &mut buckets[k]);
    let cell = bucket.remove(0);
    let ghost rest = bucket;
    std::mem::swap(&mut bucket, &mut buckets[k]);
    proof {
        assert(buckets@ =~= before.update(k as int, rest));
        lemma_entries_update(before, k as int, rest, before.len() as int);
        assert(rest@ =~= before[k as int]@.subrange(1, before[k as int]@.len() as int));
        assert forall|y: int, x: int|
            listed(before[k as int]@, y, x) && !(y == cell.0 && x == cell.1) implies listed(
            rest@,
            y,
            x,
        ) by {
            let i = choose|i: int|
                0 <= i < before[k as int]@.len() && (#[trigger] before[k as int]@[i]).0 == y
                    && before[k as int]@[i].1 == x;
            assert(i != 0);
            assert(rest@[i - 1] == before[k as int]@[i]);
        }
        if no_repeats(before) {
            let full = before[k as int]@;
            assert(distinct(full));
            assert forall|a: int, b: int| 0 <= a < b < rest@.len() implies rest@[a] != rest@[b] by {
                assert(full[a + 1] != full[b + 1]);
            }
            assert forall|j: int| 0 <= j < buckets@.len() implies distinct(
                (#[trigger] buckets@[j])@,
            ) by {
                if j != k {
                    assert(distinct(before[j]@));
                }
            }
            if listed(rest@, cell.0 as int, cell.1 as int) {
                let i = choose|i: int|
                    0 <= i < rest@.len() && (#[trigger] rest@[i]).0 == cell.0 && rest@[i].1
                        == cell.1;
                assert(full[0] != full[i + 1]);
            }
        }
    }
    cell
}

/// The least `k >= 2` whose bucket is not empty, or `None` where every
/// bucket from the second on is empty.
pub fn lowest(buckets: &Vec<Vec<(usize, usize)>>) -> (r: Option<usize>)
    ensures
        match r {
            Some(k) => 2 <= k < buckets@.len() && buckets@[k as int]@.len() > 0 && forall|j: int|
                2 <= j < k ==> (#[trigger] buckets@[j])@.len() == 0,
            None => forall|j: int| 2 <= j < buckets@.len() ==> (#[trigger] buckets@[j])@.len() == 0,
        },
{
    let mut k: usize = 2;
    while k < buckets.len()
        invariant
            2 <= k,
            forall|j: int| 2 <= j < k && j < buckets@.len() ==> (#[trigger] buckets@[j])@.len() == 0,
        decreases buckets.len() - k,
    {
        if buckets[k].len() > 0 {
            return Some(k);
        }
        k += 1;
    }
    None
}

} // verus!

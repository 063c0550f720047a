use vstd::prelude::*;
use crate::buffer::{chunk_by_size, column};
use crate::xor::{hamming, hamming_distance};

verus! {

/// The smallest key length that is tried.
pub const MIN_KEY_SIZE: usize = 2;

/// The largest key length that is tried.
pub const MAX_KEY_SIZE: usize = 40;

/// How many key lengths are returned.
pub const TOP_KEY_SIZES: usize = 4;

/// Chunk `j` of `c` for the length `l`: bytes `j * l .. (j + 1) * l`.
pub open spec fn chunk(c: Seq<u8>, j: nat, l: nat) -> Seq<u8> {
    c.subrange((j * l) as int, ((j + 1) * l) as int)
}

/// Whether `c` holds chunk `j` for the length `l` in full.
pub open spec fn has_chunk(c: Seq<u8>, j: nat, l: nat) -> bool {
    (j + 1) * l <= c.len()
}

/// The Hamming distance between chunk 0 and chunk `j`, divided by `l` and
/// rounded down; zero when chunk `j` is not there.
pub open spec fn chunk_distance(c: Seq<u8>, j: nat, l: nat) -> nat {
    if has_chunk(c, j, l) { hamming(chunk(c, 0, l), chunk(c, j, l)) / l } else { 0 }
}

/// The sum of the normalised distances of chunks 1 to 3 from chunk 0.
pub open spec fn distance_sum(c: Seq<u8>, l: nat) -> nat {
    chunk_distance(c, 1, l) + chunk_distance(c, 2, l) + chunk_distance(c, 3, l)
}

/// How many of chunks 1 to 3 are there in full.
pub open spec fn pair_count(c: Seq<u8>, l: nat) -> nat {
    (if has_chunk(c, 1, l) { 1nat } else { 0nat }) + (if has_chunk(c, 2, l) { 1nat } else { 0nat })
        + (if has_chunk(c, 3, l) { 1nat } else { 0nat })
}

/// Whether the mean `sa / pa` is below the mean `sb / pb`, a mean over no
/// pairs being above every other.
pub open spec fn mean_below(sa: nat, pa: nat, sb: nat, pb: nat) -> bool {
    if pa == 0 {
        false
    } else if pb == 0 {
        true
    } else {
        sa * pb < sb * pa
    }
}

/// Whether the key length `a` ranks before the key length `b` on `c`: a lower
/// mean normalised distance, or an equal one and a smaller length.
pub open spec fn ranks_before(c: Seq<u8>, a: nat, b: nat) -> bool {
    let (sa, pa, sb, pb) = (distance_sum(c, a), pair_count(c, a), distance_sum(c, b), pair_count(c, b));
    mean_below(sa, pa, sb, pb) || (!mean_below(sb, pb, sa, pa) && a < b)
}

/// Bytes `from .. from + l` of `c`.
fn take_chunk(c: &Vec<u8>, from: usize, l: usize) -> (r: Vec<u8>)
    requires
        from + l <= c@.len(),
    ensures
        r@ == c@.subrange(from as int, from + l),
{
    let n = c.len();
    let mut r: Vec<u8> = Vec::new();
    for t in 0..l
        invariant
            from + l <= c@.len(),
            n == c@.len(),
            r@ =~= c@.subrange(from as int, from + t),
    {
        r.push(c[from + t]);
    }
    r
}

/// The normalised distance of chunk `j` from chunk 0, as `chunk_distance` says.
fn chunk_distance_of(c: &Vec<u8>, j: usize, l: usize) -> (r: u64)
    requires
        1 <= j <= 3,
        MIN_KEY_SIZE <= l <= MAX_KEY_SIZE,
    ensures
        r == chunk_distance(c@, j as nat, l as nat),
        r <= u32::MAX,
{
    let len = c.len();
    if len / l < j + 1 {
        proof {
            assert(!has_chunk(c@, j as nat, l as nat)) by (nonlinear_arith)
                requires len / l < j + 1, l > 0, len == c@.len();
        }
        return 0;
    }
    proof {
        assert(has_chunk(c@, j as nat, l as nat)) by (nonlinear_arith)
            requires len / l >= j + 1, l > 0, len == c@.len();
        assert(j * l + l <= len) by (nonlinear_arith)
            requires (j + 1) * l <= len;
    }
    let first = take_chunk(c, 0, l);
    let other = take_chunk(c, j * l, l);
    proof {
        assert(0 * l == 0 && 1 * l == l);
        assert(first@ == chunk(c@, 0, l as nat));
        assert((j + 1) * l == j * l + l) by (nonlinear_arith);
        assert(other@ == chunk(c@, j as nat, l as nat));
    }
    match hamming_distance(first, other) {
        Ok(d) => (d / l as u32) as u64,
        Err(_) => {
            proof {
                assert(false);
            }
            0
        },
    }
}

/// Ranks the key lengths from `MIN_KEY_SIZE` to `MAX_KEY_SIZE` by the mean
/// Hamming distance, per byte of key, between the first chunk of `cipher` and
/// each of the next three, and returns the best `TOP_KEY_SIZES` of them, best
/// first. Lengths for which `cipher` has fewer chunks compare over those
/// there are; lengths with none rank last.
pub fn guess_key_size(cipher: &Vec<u8>) -> (r: Vec<u8>)
    ensures
        r@.len() == TOP_KEY_SIZES,
        forall|k: int| 0 <= k < r@.len() ==> MIN_KEY_SIZE <= #[trigger] r@[k] <= MAX_KEY_SIZE,
        forall|k: int, m: int| 0 <= k < m < r@.len() ==> r@[k] != r@[m],
        forall|k: int, l: nat|
            0 <= k < r@.len() && MIN_KEY_SIZE <= l <= MAX_KEY_SIZE && l != r@[k] && (forall|m: int|
                0 <= m < k ==> r@[m] != l) ==> #[trigger] ranks_before(cipher@, r@[k] as nat, l),
{
    let mut sums: Vec<u64> = Vec::new();
    let mut pairs: Vec<u64> = Vec::new();
    for l in MIN_KEY_SIZE..(MAX_KEY_SIZE + 1)
        invariant
            sums@.len() == l - MIN_KEY_SIZE,
            pairs@.len() == l - MIN_KEY_SIZE,
            forall|i: int| 0 <= i < sums@.len() ==> #[trigger] sums@[i] == distance_sum(cipher@, (i + MIN_KEY_SIZE) as nat),
            forall|i: int| 0 <= i < pairs@.len() ==> #[trigger] pairs@[i] == pair_count(cipher@, (i + MIN_KEY_SIZE) as nat),
            forall|i: int| 0 <= i < sums@.len() ==> #[trigger] sums@[i] <= 3 * (u32::MAX as int),
            forall|i: int| 0 <= i < pairs@.len() ==> #[trigger] pairs@[i] <= 3,
    {
        let d1 = chunk_distance_of(cipher, 1, l);
        let d2 = chunk_distance_of(cipher, 2, l);
        let d3 = chunk_distance_of(cipher, 3, l);
        let len = cipher.len();
        let p: u64 = (if len / l >= 2 { 1u64 } else { 0u64 }) + (if len / l >= 3 { 1u64 } else { 0u64 })
            + (if len / l >= 4 { 1u64 } else { 0u64 });
        proof {
            assert forall|j: nat| 1 <= j <= 3 implies (has_chunk(cipher@, j, l as nat) <==> len / l >= j + 1) by {
                if len / l >= j + 1 {
                    assert((j + 1) * l <= len) by (nonlinear_arith)
                        requires len / l >= j + 1, l > 0;
                } else {
                    assert((j + 1) * l > len) by (nonlinear_arith)
                        requires len / l < j + 1, l > 0;
                }
            }
        }
        sums.push(d1 + d2 + d3);
        pairs.push(p);
    }
    let n = sums.len();
    let mut used: Vec<bool> = Vec::new();
    for i in 0..n
        invariant
            used@.len() == i,
            forall|j: int| 0 <= j < i ==> !#[trigger] used@[j],
    {
        used.push(false);
    }
    let mut chosen: Vec<u8> = Vec::new();
    for k in 0..TOP_KEY_SIZES
        invariant
            n == MAX_KEY_SIZE - MIN_KEY_SIZE + 1,
            sums@.len() == n,
            pairs@.len() == n,
            used@.len() == n,
            forall|i: int| 0 <= i < n ==> #[trigger] sums@[i] == distance_sum(cipher@, (i + MIN_KEY_SIZE) as nat),
            forall|i: int| 0 <= i < n ==> #[trigger] pairs@[i] == pair_count(cipher@, (i + MIN_KEY_SIZE) as nat),
            forall|i: int| 0 <= i < n ==> #[trigger] sums@[i] <= 3 * (u32::MAX as int),
            forall|i: int| 0 <= i < n ==> #[trigger] pairs@[i] <= 3,
            chosen@.len() == k,
            forall|j: int| 0 <= j < n ==> (!#[trigger] used@[j] <==> forall|m: int| 0 <= m < k ==> chosen@[m] != j + MIN_KEY_SIZE),
            forall|q: int| 0 <= q < chosen@.len() ==> MIN_KEY_SIZE <= #[trigger] chosen@[q] <= MAX_KEY_SIZE,
            forall|q: int, m: int| 0 <= q < m < chosen@.len() ==> chosen@[q] != chosen@[m],
            forall|q: int, l: nat|
                0 <= q < chosen@.len() && MIN_KEY_SIZE <= l <= MAX_KEY_SIZE && l != chosen@[q] && (forall|m: int|
                    0 <= m < q ==> chosen@[m] != l) ==> #[trigger] ranks_before(cipher@, chosen@[q] as nat, l),
    {
        proof {
            // Fewer lengths are chosen than there are, so one is left.
            assert(!used@[0] || !used@[1] || !used@[2] || !used@[3]);
        }
        let mut best: usize = 0;
        let mut found = false;
        for i in 0..n
            invariant
                n == MAX_KEY_SIZE - MIN_KEY_SIZE + 1,
                sums@.len() == n,
                pairs@.len() == n,
                used@.len() == n,
                forall|i: int| 0 <= i < n ==> #[trigger] sums@[i] <= 3 * (u32::MAX as int),
                forall|i: int| 0 <= i < n ==> #[trigger] pairs@[i] <= 3,
                forall|i: int| 0 <= i < n ==> #[trigger] sums@[i] == distance_sum(cipher@, (i + MIN_KEY_SIZE) as nat),
                forall|i: int| 0 <= i < n ==> #[trigger] pairs@[i] == pair_count(cipher@, (i + MIN_KEY_SIZE) as nat),
                found ==> best < i && !used@[best as int],
                !found ==> forall|j: int| 0 <= j < i ==> #[trigger] used@[j],
                found ==> forall|j: int|
                    0 <= j < i && j != best && !#[trigger] used@[j] ==> ranks_before(
                        cipher@,
                        (best + MIN_KEY_SIZE) as nat,
                        (j + MIN_KEY_SIZE) as nat,
                    ),
        {
            if !used[i] {
                if !found || mean_lt(sums[i], pairs[i], sums[best], pairs[best]) {
                    proof {
                        if found {
                            assert forall|j: int| 0 <= j < i + 1 && j != i && !#[trigger] used@[j] implies ranks_before(
                                cipher@,
                                (i + MIN_KEY_SIZE) as nat,
                                (j + MIN_KEY_SIZE) as nat,
                            ) by {
                                if j != best {
                                    lemma_ranks_before_transitive(cipher@, (i + MIN_KEY_SIZE) as nat, (best + MIN_KEY_SIZE) as nat, (j + MIN_KEY_SIZE) as nat);
                                }
                            }
                        }
                    }
                    best = i;
                    found = true;
                }
            }
        }
        proof {
            assert(found);
        }
        let ghost used_before = used@;
        let ghost chosen_before = chosen@;
        used.set(best, true);
        chosen.push((best + MIN_KEY_SIZE) as u8);
        proof {
            assert(chosen@[k as int] == best + MIN_KEY_SIZE);
            assert forall|m: int| 0 <= m < k implies chosen@[m] == chosen_before[m] by {}
            assert forall|j: int| 0 <= j < n implies (!#[trigger] used@[j] <==> forall|m: int|
                0 <= m < k + 1 ==> chosen@[m] != j + MIN_KEY_SIZE) by {
                if j == best {
                    assert(chosen@[k as int] == j + MIN_KEY_SIZE);
                } else {
                    assert(used@[j] == used_before[j]);
                }
            }
            assert forall|q: int, l: nat|
                0 <= q < chosen@.len() && MIN_KEY_SIZE <= l <= MAX_KEY_SIZE && l != chosen@[q] && (forall|m: int|
                    0 <= m < q ==> chosen@[m] != l) implies #[trigger] ranks_before(cipher@, chosen@[q] as nat, l) by {
                if q == k {
                    let j = l - MIN_KEY_SIZE;
                    assert(forall|m: int| 0 <= m < k ==> chosen_before[m] != j + MIN_KEY_SIZE);
                    assert(!used_before[j]);
                }
            }
        }
    }
    chosen
}

/// Ranking by mean distance, then by length, is transitive.
proof fn lemma_ranks_before_transitive(c: Seq<u8>, a: nat, b: nat, d: nat)
    requires
        ranks_before(c, a, b),
        ranks_before(c, b, d),
        pair_count(c, a) <= 3,
        pair_count(c, b) <= 3,
        pair_count(c, d) <= 3,
    ensures
        ranks_before(c, a, d),
{
    let (sa, pa, sb, pb, sd, pd) = (distance_sum(c, a), pair_count(c, a), distance_sum(c, b), pair_count(c, b), distance_sum(c, d), pair_count(c, d));
    if pa > 0 && pb > 0 && pd > 0 {
        if sa * pb < sb * pa && sb * pd < sd * pb {
            assert(sa * pd < sd * pa) by (nonlinear_arith)
                requires sa * pb < sb * pa, sb * pd < sd * pb, pa > 0, pb > 0, pd > 0;
        }
        if sa * pb < sb * pa && sd * pb >= sb * pd {
            assert(sa * pd < sd * pa) by (nonlinear_arith)
                requires sa * pb < sb * pa, sd * pb >= sb * pd, pa > 0, pb > 0, pd > 0;
        }
        if sb * pa >= sa * pb && sb * pd < sd * pb {
            assert(sa * pd < sd * pa) by (nonlinear_arith)
                requires sb * pa >= sa * pb, sb * pd < sd * pb, pa > 0, pb > 0, pd > 0;
        }
        if sb * pa >= sa * pb && sd * pb >= sb * pd {
            assert(sd * pa >= sa * pd) by (nonlinear_arith)
                requires sb * pa >= sa * pb, sd * pb >= sb * pd, pa > 0, pb > 0, pd > 0;
        }
    }
}

/// Whether the mean `sa / pa` is below `sb / pb`, as `mean_below` says.
fn mean_lt(sa: u64, pa: u64, sb: u64, pb: u64) -> (r: bool)
    requires
        sa <= 3 * (u32::MAX as int),
        sb <= 3 * (u32::MAX as int),
        pa <= 3,
        pb <= 3,
    ensures
        r == mean_below(sa as nat, pa as nat, sb as nat, pb as nat),
{
    if pa == 0 {
        false
    } else if pb == 0 {
        true
    } else {
        proof {
            assert(sa * pb <= 9 * (u32::MAX as int)) by (nonlinear_arith)
                requires sa <= 3 * (u32::MAX as int), pb <= 3;
            assert(sb * pa <= 9 * (u32::MAX as int)) by (nonlinear_arith)
                requires sb <= 3 * (u32::MAX as int), pa <= 3;
        }
        sa * pb < sb * pa
    }
}

/// How many bytes of `s` equal `v`.
pub open spec fn byte_count(s: Seq<u8>, v: u8) -> nat
    decreases s.len(),
{
    if s.len() == 0 {
        0
    } else {
        byte_count(s.drop_last(), v) + if s.last() == v { 1nat } else { 0nat }
    }
}

/// The largest count in `s` of a byte value below `m`.
pub open spec fn max_count_upto(s: Seq<u8>, m: nat) -> nat
    decreases m,
{
    if m == 0 {
        0
    } else {
        let rest = max_count_upto(s, (m - 1) as nat);
        let here = byte_count(s, (m - 1) as u8);
        if here > rest { here } else { rest }
    }
}

/// How often the most frequent byte of `s` occurs in it.
pub open spec fn max_byte_count(s: Seq<u8>) -> nat {
    max_count_upto(s, 256)
}

/// The sum over the first `k` columns of `b`, for the period `n`, of how
/// often the most frequent byte occurs in the column.
pub open spec fn repeat_score_upto(b: Seq<u8>, n: nat, k: nat) -> nat
    decreases k,
{
    if k == 0 {
        0
    } else {
        repeat_score_upto(b, n, (k - 1) as nat) + max_byte_count(column(b, n, (k - 1) as nat))
    }
}

/// The sum of the lengths of the first `k` columns of `b` for the period `n`.
pub open spec fn column_len_sum(b: Seq<u8>, n: nat, k: nat) -> nat
    decreases k,
{
    if k == 0 {
        0
    } else {
        column_len_sum(b, n, (k - 1) as nat) + column(b, n, (k - 1) as nat).len()
    }
}

/// Dropping the last byte of `b` shortens by one the column that held it.
proof fn lemma_column_len_sum_step(b: Seq<u8>, n: nat, k: nat)
    requires
        b.len() > 0,
        n > 0,
    ensures
        column_len_sum(b, n, k) == column_len_sum(b.drop_last(), n, k) + if (b.len() - 1) % (n as int) < k { 1nat } else { 0nat },
    decreases k,
{
    if k > 0 {
        lemma_column_len_sum_step(b, n, (k - 1) as nat);
    }
}

/// The `n` columns of `b` for the period `n` together hold as many bytes as
/// `b` does.
pub proof fn lemma_column_len_sum(b: Seq<u8>, n: nat)
    requires
        n > 0,
    ensures
        column_len_sum(b, n, n) == b.len(),
    decreases b.len(),
{
    if b.len() == 0 {
        lemma_column_len_sum_empty(b, n, n);
    } else {
        lemma_column_len_sum(b.drop_last(), n);
        lemma_column_len_sum_step(b, n, n);
    }
}

/// The columns of an empty buffer are empty.
proof fn lemma_column_len_sum_empty(b: Seq<u8>, n: nat, k: nat)
    requires
        b.len() == 0,
    ensures
        column_len_sum(b, n, k) == 0,
    decreases k,
{
    if k > 0 {
        lemma_column_len_sum_empty(b, n, (k - 1) as nat);
    }
}

/// No byte occurs in `s` more often than `s` is long.
proof fn lemma_max_count_bound(s: Seq<u8>, m: nat)
    ensures
        max_count_upto(s, m) <= s.len(),
    decreases m,
{
    if m > 0 {
        lemma_max_count_bound(s, (m - 1) as nat);
        lemma_byte_count_bound(s, (m - 1) as u8);
    }
}

/// No byte value occurs in `s` more often than `s` is long.
proof fn lemma_byte_count_bound(s: Seq<u8>, v: u8)
    ensures
        byte_count(s, v) <= s.len(),
    decreases s.len(),
{
    if s.len() > 0 {
        lemma_byte_count_bound(s.drop_last(), v);
    }
}

/// How often the most frequent byte of `s` occurs in it.
fn most_repeated_count(s: &Vec<u8>) -> (r: usize)
    ensures
        r == max_byte_count(s@),
{
    let mut counts: Vec<usize> = Vec::new();
    for v in 0..256usize
        invariant
            counts@.len() == v,
            forall|j: int| 0 <= j < v ==> #[trigger] counts@[j] == 0,
    {
        counts.push(0);
    }
    for i in 0..s.len()
        invariant
            counts@.len() == 256,
            forall|j: int| 0 <= j < 256 ==> #[trigger] counts@[j] == byte_count(s@.take(i as int), j as u8),
            forall|j: int| 0 <= j < 256 ==> #[trigger] counts@[j] <= i,
    {
        let v = s[i] as usize;
        counts.set(v, counts[v] + 1);
        proof {
            let t = s@.take(i + 1);
            assert(t.drop_last() =~= s@.take(i as int));
            assert forall|j: int| 0 <= j < 256 implies #[trigger] counts@[j] == byte_count(t, j as u8) by {
                assert(byte_count(t, j as u8) == byte_count(t.drop_last(), j as u8) + if t.last() == j as u8 { 1nat } else { 0nat });
            }
        }
    }
    proof {
        assert(s@.take(s@.len() as int) =~= s@);
    }
    let mut best: usize = 0;
    for v in 0..256usize
        invariant
            counts@.len() == 256,
            forall|j: int| 0 <= j < 256 ==> #[trigger] counts@[j] == byte_count(s@, j as u8),
            best == max_count_upto(s@, v as nat),
    {
        if counts[v] > best {
            best = counts[v];
        }
    }
    best
}

/// Splits `buf` into `block_size` columns and sums, over the columns, how
/// often the most frequent byte occurs in each. Text encrypted block by block
/// under one key repeats bytes within a column, so a higher sum hints at it.
pub fn detect_cycles(buf: &Vec<u8>, block_size: usize) -> (r: u32)
    requires
        block_size <= buf@.len(),
        buf@.len() <= u32::MAX,
    ensures
        r == repeat_score_upto(buf@, block_size as nat, block_size as nat),
{
    let chunks = chunk_by_size(buf, block_size);
    let mut total: u32 = 0;
    proof {
        if block_size > 0 {
            lemma_column_len_sum(buf@, block_size as nat);
        }
    }
    for i in 0..block_size
        invariant
            block_size <= buf@.len() <= u32::MAX,
            chunks@.len() == block_size,
            forall|j: int| 0 <= j < block_size ==> #[trigger] chunks@[j]@ == column(buf@, block_size as nat, j as nat),
            block_size > 0 ==> column_len_sum(buf@, block_size as nat, block_size as nat) == buf@.len(),
            total == repeat_score_upto(buf@, block_size as nat, i as nat),
            total <= column_len_sum(buf@, block_size as nat, i as nat),
    {
        let m = most_repeated_count(&chunks[i]);
        proof {
            lemma_max_count_bound(chunks@[i as int]@, 256);
            lemma_column_len_sum_prefix(buf@, block_size as nat, (i + 1) as nat, block_size as nat);
        }
        total = total + m as u32;
    }
    total
}

/// Fewer columns hold no more bytes.
proof fn lemma_column_len_sum_prefix(b: Seq<u8>, n: nat, k: nat, m: nat)
    requires
        k <= m,
    ensures
        column_len_sum(b, n, k) <= column_len_sum(b, n, m),
    decreases m,
{
    if k < m {
        lemma_column_len_sum_prefix(b, n, k, (m - 1) as nat);
    }
}

/// How strongly the columns of `b` for the period `n` repeat bytes: the
/// quantity that `detect_cycles` computes.
pub open spec fn repeat_score(b: Seq<u8>, n: nat) -> nat {
    repeat_score_upto(b, n, n)
}

/// The index of the buffer among `bufs` whose `block_size` columns repeat
/// bytes most, the last such one on ties; `None` when there are no buffers.
pub fn most_repetitive(bufs: &Vec<Vec<u8>>, block_size: usize) -> (r: Option<usize>)
    requires
        forall|i: int| 0 <= i < bufs@.len() ==> block_size <= (#[trigger] bufs@[i])@.len() <= u32::MAX,
    ensures
        bufs@.len() == 0 <==> r is None,
        r is Some ==> r->Some_0 < bufs@.len(),
        r is Some ==> forall|j: int|
            0 <= j < bufs@.len() ==> repeat_score((#[trigger] bufs@[j])@, block_size as nat) <= repeat_score(
                bufs@[r->Some_0 as int]@,
                block_size as nat,
            ),
        r is Some ==> forall|j: int|
            r->Some_0 < j < bufs@.len() ==> repeat_score((#[trigger] bufs@[j])@, block_size as nat)
                < repeat_score(bufs@[r->Some_0 as int]@, block_size as nat),
{
    let mut best: Option<usize> = None;
    let mut best_score: u32 = 0;
    for i in 0..bufs.len()
        invariant
            forall|k: int| 0 <= k < bufs@.len() ==> block_size <= (#[trigger] bufs@[k])@.len() <= u32::MAX,
            i == 0 <==> best is None,
            best is Some ==> best->Some_0 < i && best_score == repeat_score(
                bufs@[best->Some_0 as int]@,
                block_size as nat,
            ),
            best is Some ==> forall|j: int|
                0 <= j < i ==> repeat_score((#[trigger] bufs@[j])@, block_size as nat) <= best_score,
            best is Some ==> forall|j: int|
                best->Some_0 < j < i ==> repeat_score((#[trigger] bufs@[j])@, block_size as nat) < best_score,
    {
        let s = detect_cycles(&bufs[i], block_size);
        if best.is_none() || s >= best_score {
            best = Some(i);
            best_score = s;
        }
    }
    best
}

} // verus!

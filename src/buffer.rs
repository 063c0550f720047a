use vstd::prelude::*;

verus! {

/// Column `i` of `b` for a period of `n`: the bytes at positions congruent
/// to `i` modulo `n`, in their original order.
pub open spec fn column(b: Seq<u8>, n: nat, i: nat) -> Seq<u8>
    decreases b.len(),
{
    if b.len() == 0 {
        Seq::empty()
    } else {
        let prefix = column(b.drop_last(), n, i);
        if (b.len() - 1) % (n as int) == i { prefix.push(b.last()) } else { prefix }
    }
}

/// Splits `buf` into `size` columns: column `i` holds the bytes at positions
/// `i, i + size, i + 2 * size, ...`. Columns past the end of a short buffer
/// are empty.
pub fn chunk_by_size(buf: &Vec<u8>, size: usize) -> (chunks: Vec<Vec<u8>>)
    ensures
        chunks@.len() == size,
        forall|i: int| 0 <= i < size ==> #[trigger] chunks@[i]@ == column(buf@, size as nat, i as nat),
{
    let mut chunks: Vec<Vec<u8>> = Vec::new();
    for i in 0..size
        invariant
            chunks@.len() == i,
            forall|j: int| 0 <= j < i ==> #[trigger] chunks@[j]@ == column(buf@, size as nat, j as nat),
    {
        let mut col: Vec<u8> = Vec::new();
        for p in 0..buf.len()
            invariant
                i < size,
                col@ == column(buf@.take(p as int), size as nat, i as nat),
        {
            proof {
                assert(buf@.take(p + 1).drop_last() =~= buf@.take(p as int));
            }
            if p % size == i {
                col.push(buf[p]);
            }
        }
        proof {
            assert(buf@.take(buf@.len() as int) =~= buf@);
        }
        chunks.push(col);
    }
    chunks
}

} // verus!

use vstd::prelude::*;

verus! {

/// The byte that padding is made of.
pub const PAD_BYTE: u8 = 0x04;

/// `b` extended with `PAD_BYTE` to the next multiple of `n`; unchanged when
/// its length already is one.
pub open spec fn padded(b: Seq<u8>, n: nat) -> Seq<u8> {
    let rem = b.len() % n;
    if rem == 0 {
        b
    } else {
        b + Seq::new((n - rem) as nat, |i: int| PAD_BYTE)
    }
}

/// Pads `cipher` with `PAD_BYTE` up to a multiple of `block_size`. A buffer
/// whose length is already a multiple is returned as it is.
pub fn pkcs7(cipher: &[u8], block_size: u8) -> (r: Vec<u8>)
    requires
        block_size > 0,
    ensures
        r@ == padded(cipher@, block_size as nat),
        r@.len() % (block_size as nat) == 0,
        cipher@.len() % (block_size as nat) == 0 ==> r@ == cipher@,
        r@.len() < cipher@.len() + block_size,
{
    let distance = cipher.len() % block_size as usize;
    let mut out: Vec<u8> = Vec::new();
    out.extend_from_slice(cipher);
    if distance == 0 {
        return out;
    }
    let padding = block_size as usize - distance;
    for i in 0..padding
        invariant
            out@ == cipher@ + Seq::new(i as nat, |t: int| PAD_BYTE),
    {
        out.push(PAD_BYTE);
        proof {
            assert(out@ =~= cipher@ + Seq::new((i + 1) as nat, |t: int| PAD_BYTE));
        }
    }
    proof {
        let n = block_size as int;
        let len = cipher@.len() as int;
        assert((len + (n - len % n)) % n == 0) by (nonlinear_arith)
            requires n > 0, len >= 0;
    }
    out
}

} // verus!

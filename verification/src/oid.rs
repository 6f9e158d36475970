use vstd::prelude::*;

verus! {

/// A fixed-width (20-byte) content hash, held as three machine words:
/// `hi` holds the first eight bytes, `mid` the next eight, `lo` the last
/// four.  The source repository addresses every object (commit, tree, blob)
/// by such a hash, and the store uses it as a primary key everywhere.
#[derive(Clone, Copy, PartialEq, Eq, Structural, Debug)]
pub struct Oid {
    pub hi: u64,
    pub mid: u64,
    pub lo: u32,
}

impl Oid {
    /// The all-zero hash.
    pub fn zero() -> (r: Oid)
        ensures
            r == (Oid { hi: 0, mid: 0, lo: 0 }),
    {
        Oid { hi: 0, mid: 0, lo: 0 }
    }

    /// The 20 bytes of this hash, most significant byte of each word first.
    pub open spec fn spec_bytes(self) -> Seq<u8> {
        seq![
            (self.hi >> 56) as u8,
            (self.hi >> 48) as u8,
            (self.hi >> 40) as u8,
            (self.hi >> 32) as u8,
            (self.hi >> 24) as u8,
            (self.hi >> 16) as u8,
            (self.hi >> 8) as u8,
            self.hi as u8,
            (self.mid >> 56) as u8,
            (self.mid >> 48) as u8,
            (self.mid >> 40) as u8,
            (self.mid >> 32) as u8,
            (self.mid >> 24) as u8,
            (self.mid >> 16) as u8,
            (self.mid >> 8) as u8,
            self.mid as u8,
            (self.lo >> 24) as u8,
            (self.lo >> 16) as u8,
            (self.lo >> 8) as u8,
            self.lo as u8,
        ]
    }

    /// Read a hash back from its 20-byte form, the inverse of
    /// `spec_bytes`.
    pub fn from_bytes(b: &[u8]) -> (r: Oid)
        requires
            b@.len() == 20,
        ensures
            r.spec_bytes() == b@,
    {
        let hi = ((b[0] as u64) << 56) | ((b[1] as u64) << 48) | ((b[2] as u64) << 40) | ((b[3]
            as u64) << 32) | ((b[4] as u64) << 24) | ((b[5] as u64) << 16) | ((b[6] as u64) << 8)
            | (b[7] as u64);
        let mid = ((b[8] as u64) << 56) | ((b[9] as u64) << 48) | ((b[10] as u64) << 40) | ((b[11]
            as u64) << 32) | ((b[12] as u64) << 24) | ((b[13] as u64) << 16) | ((b[14] as u64)
            << 8) | (b[15] as u64);
        let lo = ((b[16] as u32) << 24) | ((b[17] as u32) << 16) | ((b[18] as u32) << 8) | (b[19]
            as u32);
        let r = Oid { hi, mid, lo };
        proof {
            let b0 = b@[0];
            let b1 = b@[1];
            let b2 = b@[2];
            let b3 = b@[3];
            let b4 = b@[4];
            let b5 = b@[5];
            let b6 = b@[6];
            let b7 = b@[7];
            assert({
                let w = ((b0 as u64) << 56) | ((b1 as u64) << 48) | ((b2 as u64) << 40) | ((b3
                    as u64) << 32) | ((b4 as u64) << 24) | ((b5 as u64) << 16) | ((b6 as u64) << 8)
                    | (b7 as u64);
                (w >> 56) as u8 == b0 && (w >> 48) as u8 == b1 && (w >> 40) as u8 == b2 && (w
                    >> 32) as u8 == b3 && (w >> 24) as u8 == b4 && (w >> 16) as u8 == b5 && (w
                    >> 8) as u8 == b6 && w as u8 == b7
            }) by (bit_vector);
            let c0 = b@[8];
            let c1 = b@[9];
            let c2 = b@[10];
            let c3 = b@[11];
            let c4 = b@[12];
            let c5 = b@[13];
            let c6 = b@[14];
            let c7 = b@[15];
            assert({
                let w = ((c0 as u64) << 56) | ((c1 as u64) << 48) | ((c2 as u64) << 40) | ((c3
                    as u64) << 32) | ((c4 as u64) << 24) | ((c5 as u64) << 16) | ((c6 as u64) << 8)
                    | (c7 as u64);
                (w >> 56) as u8 == c0 && (w >> 48) as u8 == c1 && (w >> 40) as u8 == c2 && (w
                    >> 32) as u8 == c3 && (w >> 24) as u8 == c4 && (w >> 16) as u8 == c5 && (w
                    >> 8) as u8 == c6 && w as u8 == c7
            }) by (bit_vector);
            let d0 = b@[16];
            let d1 = b@[17];
            let d2 = b@[18];
            let d3 = b@[19];
            assert({
                let w = ((d0 as u32) << 24) | ((d1 as u32) << 16) | ((d2 as u32) << 8) | (d3
                    as u32);
                (w >> 24) as u8 == d0 && (w >> 16) as u8 == d1 && (w >> 8) as u8 == d2 && w as u8
                    == d3
            }) by (bit_vector);
            assert(r.spec_bytes() =~= b@);
        }
        r
    }

    /// Append the 20 bytes of this hash to `out`.
    pub fn push_bytes(self, out: &mut Vec<u8>)
        ensures
            final(out)@ == old(out)@ + self.spec_bytes(),
    {
        out.push((self.hi >> 56) as u8);
        out.push((self.hi >> 48) as u8);
        out.push((self.hi >> 40) as u8);
        out.push((self.hi >> 32) as u8);
        out.push((self.hi >> 24) as u8);
        out.push((self.hi >> 16) as u8);
        out.push((self.hi >> 8) as u8);
        out.push(self.hi as u8);
        out.push((self.mid >> 56) as u8);
        out.push((self.mid >> 48) as u8);
        out.push((self.mid >> 40) as u8);
        out.push((self.mid >> 32) as u8);
        out.push((self.mid >> 24) as u8);
        out.push((self.mid >> 16) as u8);
        out.push((self.mid >> 8) as u8);
        out.push(self.mid as u8);
        out.push((self.lo >> 24) as u8);
        out.push((self.lo >> 16) as u8);
        out.push((self.lo >> 8) as u8);
        out.push(self.lo as u8);
        assert(out@ =~= old(out)@ + self.spec_bytes());
    }
}

} // verus!

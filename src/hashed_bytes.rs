use vstd::prelude::*;

verus! {

pub const FNV_OFFSET: u64 = 0xcbf29ce484222325;

pub const FNV_PRIME: u64 = 0x100000001b3;

/// The 64-bit FNV-1a hash of a byte string.
pub open spec fn fnv1a(s: Seq<u8>) -> u64
    decreases s.len(),
{
    if s.len() == 0 {
        FNV_OFFSET
    } else {
        vstd::wrapping::u64_specs::wrapping_mul(fnv1a(s.drop_last()) ^ (s.last() as u64), FNV_PRIME)
    }
}

/// A byte string together with its hash.
#[derive(Debug)]
pub struct HashedBytes {
    pub bytes: Vec<u8>,
    pub hash: u64,
}

impl HashedBytes {
    /// The hashes agree with the bytes.
    pub open spec fn wf(&self) -> bool {
        self.hash == fnv1a(self.bytes@)
    }

    pub fn from_bytes(bytes: Vec<u8>) -> (r: HashedBytes)
        ensures
            r.wf(),
            r.bytes@ == bytes@,
    {
        let mut h: u64 = FNV_OFFSET;
        let mut i: usize = 0;
        while i < bytes.len()
            invariant
                i <= bytes@.len(),
                h == fnv1a(bytes@.subrange(0, i as int)),
            decreases bytes.len() - i,
        {
            assert(bytes@.subrange(0, i + 1).drop_last() =~= bytes@.subrange(0, i as int));
            h = (h ^ (bytes[i] as u64)).wrapping_mul(FNV_PRIME);
            i = i + 1;
        }
        assert(bytes@.subrange(0, bytes@.len() as int) =~= bytes@);
        HashedBytes { bytes, hash: h }
    }

    pub fn hash_as_ref(&self) -> (r: &u64)
        ensures
            *r == self.hash,
    {
        &self.hash
    }

    pub fn bytes_as_ref(&self) -> (r: &Vec<u8>)
        ensures
            r@ == self.bytes@,
    {
        &self.bytes
    }
}

impl Clone for HashedBytes {
    fn clone(&self) -> (r: Self)
        ensures
            r.bytes@ == self.bytes@,
            r.hash == self.hash,
    {
        let bytes = self.bytes.clone();
        assert(bytes@ =~= self.bytes@);
        HashedBytes { bytes, hash: self.hash }
    }
}

} // verus!

//! Integrity checking: the index's trailing self-digest and the structural
//! bound on decoded offsets.
use crate::codec::read_bytes;
use crate::index::File;
use crate::layout::{n_of, offset_at, pack_checksum_of, trailer_of};
use crate::Error;
use vstd::prelude::*;

verus! {

/// The SHA-1 digest of a byte sequence, named but not written out: the
/// trusted wrapper below ties it to the real computation.
pub uninterp spec fn sha1_of(data: Seq<u8>) -> Seq<u8>;

/// Relies on sha1_smol::Sha1: the 20-byte SHA-1 digest of the input, a
/// function of the input bytes alone.
#[verifier::external_body]
pub(crate) fn sha1_digest(data: &Vec<u8>) -> (r: Vec<u8>)
    ensures
        r@ == sha1_of(data@),
        r@.len() == 20,
{
    sha1_smol::Sha1::from(data.as_slice()).digest().bytes().to_vec()
}

impl File {
    /// The checksum of the paired archive, as stored before the trailer.
    pub fn pack_checksum(&self) -> (r: Vec<u8>)
        requires
            self.well_formed(),
        ensures
            r@ == pack_checksum_of(self.data@),
    {
        let len = self.data.len();
        let r = read_bytes(&self.data, len - 40, 20);
        proof {
            assert(r@ =~= pack_checksum_of(self.data@));
        }
        r
    }

    /// Recomputes the digest of everything before the trailer and compares it
    /// with the trailer: success exactly when they agree, returning the
    /// digest so a caller can pair it with the file elsewhere.
    pub fn verify_checksum(&self) -> (r: Result<Vec<u8>, Error>)
        requires
            self.well_formed(),
        ensures
            r is Ok <==> sha1_of(self.data@.take(self.data@.len() - 20)) == trailer_of(self.data@),
            match r {
                Ok(d) => d@ == trailer_of(self.data@),
                Err(e) => e == Error::ChecksumMismatch,
            },
    {
        let len = self.data.len();
        let prefix = read_bytes(&self.data, 0, len - 20);
        proof {
            assert(prefix@ =~= self.data@.take(self.data@.len() - 20));
        }
        let digest = sha1_digest(&prefix);
        let stored = read_bytes(&self.data, len - 20, 20);
        proof {
            assert(stored@ =~= trailer_of(self.data@));
        }
        if crate::oid::cmp_bytes(&digest, &stored) == 0 {
            Ok(stored)
        } else {
            Err(Error::ChecksumMismatch)
        }
    }

    /// The structural offset check: every decoded pack offset must fall
    /// strictly inside an archive of `pack_size` bytes, when a bound is
    /// supplied.
    pub fn verify_offsets(&self, pack_size: Option<u64>) -> (r: Result<(), Error>)
        requires
            self.well_formed(),
        ensures
            r is Ok <==> (match pack_size {
                Some(s) => forall|i: int|
                    0 <= i < n_of(self.data@) ==> #[trigger] offset_at(self.data@, i) < s as int,
                None => true,
            }),
            r is Err ==> r == Err::<(), Error>(Error::Corrupt),
    {
        match pack_size {
            None => Ok(()),
            Some(s) => {
                let mut i: u32 = 0;
                while i < self.num_objects
                    invariant
                        self.well_formed(),
                        pack_size == Some(s),
                        0 <= i <= self.num_objects,
                        forall|k: int|
                            0 <= k < i ==> #[trigger] offset_at(self.data@, k) < s as int,
                    decreases self.num_objects - i,
                {
                    let o = self.offset_by_index(i);
                    if o >= s {
                        proof {
                            assert(#[trigger] offset_at(self.data@, i as int) >= s as int);
                        }
                        return Err(Error::Corrupt);
                    }
                    i = i + 1;
                }
                Ok(())
            },
        }
    }
}

} // verus!

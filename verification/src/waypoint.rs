//! The checkpoint a joining node uses to verify it is syncing the right
//! chain: a version number (0 for genesis) plus a digest of the genesis
//! artifact, with a stable textual form.

use vstd::prelude::*;

use crate::codec::{dec_digits, hex_of, lit, lit_bytes, push_all, to_hex, u64_to_dec};
use crate::errors::GenesisError;

verus! {

pub const DIGEST_OFFSET: u64 = 0xcbf29ce484222325;

pub const DIGEST_PRIME: u64 = 0x100000001b3;

/// The running digest of a byte sequence: xor-and-multiply over every
/// byte, a pure function of the bytes alone.
pub open spec fn digest64(s: Seq<u8>) -> u64
    decreases s.len(),
{
    if s.len() == 0 {
        DIGEST_OFFSET
    } else {
        (((digest64(s.drop_last()) ^ (s.last() as u64)) as int * DIGEST_PRIME as int)
            % 0x1_0000_0000_0000_0000) as u64
    }
}

/// Computes the digest of an artifact.
pub fn digest64_exec(s: &Vec<u8>) -> (r: u64)
    ensures
        r == digest64(s@),
{
    let mut h: u64 = DIGEST_OFFSET;
    let mut i: usize = 0;
    proof {
        assert(s@.take(0) =~= Seq::<u8>::empty());
    }
    while i < s.len()
        invariant
            i <= s.len(),
            h == digest64(s@.take(i as int)),
        decreases s.len() - i,
    {
        proof {
            assert(s@.take(i as int + 1).drop_last() =~= s@.take(i as int));
            assert(s@.take(i as int + 1).last() == s@[i as int]);
        }
        h = (h ^ (s[i] as u64)).wrapping_mul(DIGEST_PRIME);
        i = i + 1;
    }
    proof {
        assert(s@.take(s@.len() as int) =~= s@);
    }
    h
}

/// A checkpoint identifying a genesis ledger state: 1:1 with the artifact
/// it was derived from.
#[derive(Clone, Copy, Debug, PartialEq, Eq, Structural)]
pub struct Waypoint {
    pub version: u64,
    pub digest: u64,
}

/// Deriving twice from one artifact gives one waypoint: the digest, and
/// with it the waypoint, is a function of the artifact bytes alone.
pub proof fn lemma_waypoint_stable(a: Seq<u8>, b: Seq<u8>)
    requires
        a == b,
    ensures
        digest64(a) == digest64(b),
{
}

/// The digest rendered as eight big-endian bytes.
pub open spec fn digest_bytes(d: u64) -> Seq<u8> {
    Seq::new(8, |i: int| ((d >> ((56 - 8 * i) as u64)) % 256) as u8)
}

/// The textual form of a waypoint: `<version>:<digest hex>`.
pub open spec fn waypoint_text(w: Waypoint) -> Seq<u8> {
    dec_digits(w.version as nat) + lit(":") + hex_of(digest_bytes(w.digest))
}

impl Waypoint {
    /// Derives the genesis waypoint: version 0 plus the artifact digest, a
    /// pure function of the artifact; an empty artifact is invalid.
    pub fn derive(artifact: &Vec<u8>) -> (r: Result<Waypoint, GenesisError>)
        ensures
            artifact@.len() == 0 ==> r == Err::<Waypoint, GenesisError>(
                GenesisError::InvalidArtifact,
            ),
            artifact@.len() > 0 ==> r == Ok::<Waypoint, GenesisError>(
                Waypoint { version: 0, digest: digest64(artifact@) },
            ),
    {
        if artifact.len() == 0 {
            Err(GenesisError::InvalidArtifact)
        } else {
            Ok(Waypoint { version: 0, digest: digest64_exec(artifact) })
        }
    }

    /// Renders the waypoint as text.
    pub fn to_text(&self) -> (r: Vec<u8>)
        ensures
            r@ == waypoint_text(*self),
    {
        let mut out = u64_to_dec(self.version);
        let colon = lit_bytes(":");
        push_all(&mut out, &colon);
        let mut db: Vec<u8> = Vec::new();
        let mut i: usize = 0;
        while i < 8
            invariant
                i <= 8,
            db@.len() == i,
            forall|j: int| 0 <= j < i ==> db@[j] == ((self.digest >> ((56 - 8 * j) as u64)) % 256) as u8,
            decreases 8 - i,
        {
            let sh: u64 = 56 - 8 * (i as u64);
            db.push(((self.digest >> sh) % 256) as u8);
            i = i + 1;
        }
        proof {
            assert(db@ =~= digest_bytes(self.digest));
        }
        let hx = to_hex(&db);
        push_all(&mut out, &hx);
        proof {
            assert(out@ =~= waypoint_text(*self));
        }
        out
    }
}

} // verus!

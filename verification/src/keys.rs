//! Fixed-width identifiers: node public keys and entry hashes.

use vstd::prelude::*;

verus! {

/// Width in bytes of a public key and of an entry hash.
pub const KEY_BYTES: usize = 32;

/// The public key that identifies a node of the cluster.
#[derive(Clone, Copy, Debug)]
pub struct Pubkey(pub [u8; 32]);

/// The hash that an entry of the ledger carries.
#[derive(Clone, Copy, Debug)]
pub struct EntryHash(pub [u8; 32]);

impl Pubkey {
    /// The key's bytes.
    pub open spec fn bytes(self) -> Seq<u8> {
        self.0@
    }

    /// Whether two keys hold the same bytes.
    pub fn same_key(&self, other: &Pubkey) -> (same: bool)
        ensures
            same == (self.bytes() == other.bytes()),
            same <==> (forall|i: int| 0 <= i < KEY_BYTES ==> self.0[i] == other.0[i]),
    {
        let mut i: usize = 0;
        while i < KEY_BYTES
            invariant
                0 <= i <= KEY_BYTES,
                self.0@.len() == KEY_BYTES,
                other.0@.len() == KEY_BYTES,
                forall|j: int| 0 <= j < i ==> self.0@[j] == other.0@[j],
            decreases KEY_BYTES - i,
        {
            if self.0[i] != other.0[i] {
                return false;
            }
            i = i + 1;
        }
        assert(self.0@ =~= other.0@);
        true
    }
}

} // verus!

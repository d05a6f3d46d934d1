//! The pluggable transform applied to command bytes before they are
//! persisted and undone after they are loaded. The default is the identity;
//! the masked form is a reversible byte mask, applied and removed by the
//! same operation.

use vstd::prelude::*;

verus! {

/// Transform applied to a command's bytes before persistence and after load.
#[derive(Clone, Copy)]
pub enum Encryptor {
    /// Leave the bytes as they are.
    Identity,
    /// Mask every byte with a fixed key.
    Mask { key: u8 },
}

/// The bytes a transform turns `s` into. The mask is its own inverse, so
/// the same function describes both directions.
pub open spec fn spec_transform(e: Encryptor, s: Seq<u8>) -> Seq<u8> {
    match e {
        Encryptor::Identity => s,
        Encryptor::Mask { key } => s.map_values(|b: u8| b ^ key),
    }
}

/// Undoing a transform gives the original bytes back.
pub proof fn lemma_transform_involutive(e: Encryptor, s: Seq<u8>)
    ensures
        spec_transform(e, spec_transform(e, s)) == s,
{
    match e {
        Encryptor::Identity => {}
        Encryptor::Mask { key } => {
            assert forall|i: int| 0 <= i < s.len()
                implies spec_transform(e, spec_transform(e, s))[i] == s[i] by {
                let b = s[i];
                assert((b ^ key) ^ key == b) by (bit_vector);
            }
            assert(spec_transform(e, spec_transform(e, s)) =~= s);
        }
    }
}

impl Encryptor {
    /// Applies the transform to `data`; the length never changes.
    pub fn encrypt(&self, data: &[u8]) -> (r: Vec<u8>)
        ensures
            r@ == spec_transform(*self, data@),
            r@.len() == data@.len(),
    {
        let mut r: Vec<u8> = Vec::new();
        let key: u8 = match self {
            Encryptor::Identity => 0,
            Encryptor::Mask { key } => *key,
        };
        let mut i: usize = 0;
        while i < data.len()
            invariant
                i <= data@.len(),
                r@.len() == i,
                forall|k: int| 0 <= k < i ==> r@[k] == (#[trigger] data@[k]) ^ key,
                self is Identity ==> key == 0,
                self matches Encryptor::Mask { key: k2 } ==> key == k2,
            decreases data@.len() - i,
        {
            r.push(data[i] ^ key);
            i = i + 1;
        }
        proof {
            match self {
                Encryptor::Identity => {
                    assert forall|k: int| 0 <= k < data@.len()
                        implies r@[k] == data@[k] by {
                        let b = data@[k];
                        assert(b ^ 0 == b) by (bit_vector);
                    }
                    assert(r@ =~= spec_transform(*self, data@));
                }
                Encryptor::Mask { .. } => {
                    assert(r@ =~= spec_transform(*self, data@));
                }
            }
        }
        r
    }

    /// Undoes the transform; the same operation as `encrypt`, the mask
    /// being its own inverse.
    pub fn decrypt(&self, data: &[u8]) -> (r: Vec<u8>)
        ensures
            r@ == spec_transform(*self, data@),
            r@.len() == data@.len(),
    {
        self.encrypt(data)
    }
}

} // verus!

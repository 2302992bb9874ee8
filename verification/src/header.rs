//! The byte form of a header, and the tag that binds it to the root key.
use vstd::prelude::*;

use crate::bytes::{le, push_all, push_le};
use crate::crypto::Crypto;
use crate::engine::ContainerHeader;
use crate::writerset::SignMode;

verus! {

pub open spec fn mode_code(m: SignMode) -> u8 {
    match m {
        SignMode::Unsigned => 0,
        SignMode::Signed => 1,
        SignMode::WriterSet => 2,
    }
}

pub open spec fn flag_code(b: bool) -> u8 {
    if b {
        1
    } else {
        0
    }
}

/// Where the writer set lies, as bytes: a flag, then the field if there is one.
pub open spec fn field_bytes(f: Option<[u8; 16]>) -> Seq<u8> {
    match f {
        None => seq![0u8],
        Some(x) => seq![1u8] + x@,
    }
}

/// A header as bytes.
pub open spec fn header_bytes(h: ContainerHeader) -> Seq<u8> {
    seq![
        h.cipher,
        h.content_cipher,
        mode_code(h.sign_mode),
        flag_code(h.wal_enabled),
        flag_code(h.pad_blocks),
        h.eviction_code,
    ] + h.salt@ + h.writer_pubkey@ + h.owner_pubkey@ + le(h.writer_set_epoch as nat, 8) + le(
        h.key_epoch as nat,
        8,
    ) + le(h.commit_seq as nat, 8) + le(h.wal_applied_seq as nat, 8) + field_bytes(h.writer_set)
}

/// The tag of a header under a root key.
pub open spec fn header_tag<C: Crypto>(root_key: [u8; 32], h: ContainerHeader) -> [u8; 32] {
    C::tagged(root_key, header_bytes(h))
}

fn flag(b: bool) -> (r: u8)
    ensures
        r == flag_code(b),
{
    if b {
        1
    } else {
        0
    }
}

impl ContainerHeader {
    /// The header as bytes.
    pub fn encode(&self) -> (out: Vec<u8>)
        ensures
            out@ == header_bytes(*self),
    {
        let mode: u8 = match self.sign_mode {
            SignMode::Unsigned => 0,
            SignMode::Signed => 1,
            SignMode::WriterSet => 2,
        };
        let mut out: Vec<u8> = vec![
            self.cipher,
            self.content_cipher,
            mode,
            flag(self.wal_enabled),
            flag(self.pad_blocks),
            self.eviction_code,
        ];
        proof {
            assert(out@ =~= seq![
                self.cipher,
                self.content_cipher,
                mode_code(self.sign_mode),
                flag_code(self.wal_enabled),
                flag_code(self.pad_blocks),
                self.eviction_code,
            ]);
        }
        push_all(&mut out, self.salt.as_slice());
        push_all(&mut out, self.writer_pubkey.as_slice());
        push_all(&mut out, self.owner_pubkey.as_slice());
        push_le(&mut out, self.writer_set_epoch, 8);
        push_le(&mut out, self.key_epoch, 8);
        push_le(&mut out, self.commit_seq, 8);
        push_le(&mut out, self.wal_applied_seq, 8);
        let ghost front = out@;
        match self.writer_set {
            None => {
                out.push(0);
                proof {
                    assert(out@ =~= front + field_bytes(self.writer_set));
                }
            },
            Some(x) => {
                out.push(1);
                push_all(&mut out, x.as_slice());
                proof {
                    assert(out@ =~= front + field_bytes(self.writer_set));
                }
            },
        }
        out
    }

    /// The tag of the header under a root key.
    pub fn tag<C: Crypto>(&self, root_key: &[u8; 32]) -> (r: [u8; 32])
        ensures
            r == header_tag::<C>(*root_key, *self),
    {
        let bytes: Vec<u8> = self.encode();
        C::tag(root_key, bytes.as_slice())
    }
}

} // verus!

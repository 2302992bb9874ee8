//! Framed records that anyone can verify without the container's key.
use vstd::prelude::*;

use crate::bytes::{
    array16, array32, array64, copy_range, le, lemma_le_len, lemma_pow256_values,
    lemma_un_le_of_le, push_all, push_le, read_le, same16, take16, take32, take64,
};
use crate::crypto::Crypto;
use crate::error::Error;
use crate::unit::{lemma_num4, num4, parse_signing_payload, payload_parse, SigningPayload};
use crate::writerset::WriterSet;

verus! {

/// What a framed record says: who signed it, the signature, the bytes that
/// were signed, and the identity in front of the projection.
#[verifier::ext_equal]
pub struct FrameModel {
    pub writer_pubkey: [u8; 32],
    pub signature: [u8; 64],
    pub signing_payload: Seq<u8>,
    pub uuid: [u8; 16],
}

/// A projection in its frame.
pub open spec fn frame_bytes(
    projection: Seq<u8>,
    writer_pubkey: [u8; 32],
    signature: [u8; 64],
    signing_payload: Seq<u8>,
) -> Seq<u8> {
    le(projection.len(), 4) + projection + writer_pubkey@ + signature@ + le(
        signing_payload.len(),
        4,
    ) + signing_payload
}

/// What the bytes of a frame say; `None` for bytes that are no frame.
pub open spec fn frame_parse(blob: Seq<u8>) -> Option<FrameModel> {
    if blob.len() < 104 {
        None
    } else {
        let off: int = 4 + num4(blob, 0) as int;
        if blob.len() < off + 100 || num4(blob, 0) < 16 || blob.len() != off + 100 + num4(
            blob,
            off + 96,
        ) {
            None
        } else {
            Some(
                FrameModel {
                    writer_pubkey: array32(blob.subrange(off, off + 32)),
                    signature: array64(blob.subrange(off + 32, off + 96)),
                    signing_payload: blob.subrange(off + 100, blob.len() as int),
                    uuid: array16(blob.subrange(4, 20)),
                },
            )
        }
    }
}

/// The signature holds under `pubkey`, and the payload is one of a record with
/// the identity in front of the projection.
pub open spec fn frame_attested<C: Crypto>(f: FrameModel, pubkey: [u8; 32]) -> bool {
    &&& C::verified(pubkey, f.signing_payload, f.signature)
    &&& payload_parse(f.signing_payload) is Some
    &&& payload_parse(f.signing_payload)->Some_0.0 == f.uuid
}

struct ParsedFramedBlob {
    writer_pubkey: [u8; 32],
    signature: [u8; 64],
    signing_payload: Vec<u8>,
    uuid: [u8; 16],
}

/// Puts a projection in its frame.
pub fn frame_record(
    projection: &[u8],
    writer_pubkey: &[u8; 32],
    signature: &[u8; 64],
    signing_payload: &[u8],
) -> (out: Vec<u8>)
    ensures
        out@ == frame_bytes(projection@, *writer_pubkey, *signature, signing_payload@),
{
    let mut out: Vec<u8> = Vec::new();
    push_le(&mut out, projection.len() as u64, 4);
    push_all(&mut out, projection);
    push_all(&mut out, writer_pubkey.as_slice());
    push_all(&mut out, signature.as_slice());
    push_le(&mut out, signing_payload.len() as u64, 4);
    push_all(&mut out, signing_payload);
    proof {
        assert(out@ =~= frame_bytes(
            projection@,
            *writer_pubkey,
            *signature,
            signing_payload@,
        ));
    }
    out
}

fn parse_framed_blob(blob: &[u8]) -> (r: Result<ParsedFramedBlob, Error>)
    ensures
        match frame_parse(blob@) {
            None => r == Err::<ParsedFramedBlob, Error>(Error::Integrity),
            Some(f) => {
                &&& r is Ok
                &&& r->Ok_0.writer_pubkey == f.writer_pubkey
                &&& r->Ok_0.signature == f.signature
                &&& r->Ok_0.signing_payload@ == f.signing_payload
                &&& r->Ok_0.uuid == f.uuid
            },
        },
{
    let len: usize = blob.len();
    if len < 104 {
        return Err(Error::Integrity);
    }
    proof {
        lemma_num4(blob@, 0);
    }
    let proj_len: u64 = read_le(blob, 0, 4);
    if (len as u64) < 4 + proj_len + 100 {
        return Err(Error::Integrity);
    }
    if proj_len < 16 {
        return Err(Error::Integrity);
    }
    let off: usize = 4 + proj_len as usize;
    proof {
        lemma_num4(blob@, off + 96);
    }
    let payload_len: u64 = read_le(blob, off + 96, 4);
    if len as u64 != off as u64 + 100 + payload_len {
        return Err(Error::Integrity);
    }
    Ok(
        ParsedFramedBlob {
            writer_pubkey: take32(blob, off),
            signature: take64(blob, off + 32),
            signing_payload: copy_range(blob, off + 100, len),
            uuid: take16(blob, 4),
        },
    )
}

fn verify_sig_and_uuid<C: Crypto>(pubkey: &[u8; 32], parsed: &ParsedFramedBlob) -> (r: Result<
    (),
    Error,
>)
    ensures
        r == if frame_attested::<C>(
            (FrameModel {
                writer_pubkey: parsed.writer_pubkey,
                signature: parsed.signature,
                signing_payload: parsed.signing_payload@,
                uuid: parsed.uuid,
            }),
            *pubkey,
        ) {
            Ok::<(), Error>(())
        } else {
            Err::<(), Error>(Error::Integrity)
        },
{
    if !C::verify(pubkey, parsed.signing_payload.as_slice(), &parsed.signature) {
        return Err(Error::Integrity);
    }
    let payload: SigningPayload = match parse_signing_payload(parsed.signing_payload.as_slice()) {
        Ok(p) => p,
        Err(_) => {
            return Err(Error::Integrity);
        },
    };
    if !same16(&payload.uuid, &parsed.uuid) {
        return Err(Error::Integrity);
    }
    Ok(())
}

/// Checks a framed record against a writer set and names its writer.
pub fn verify_record_trailer<C: Crypto>(blob: &[u8], writer_set: &WriterSet) -> (r: Result<
    [u8; 32],
    Error,
>)
    ensures
        r == match frame_parse(blob@) {
            Some(f) if writer_set@.writers.contains(f.writer_pubkey) && frame_attested::<C>(
                f,
                f.writer_pubkey,
            ) => Ok::<[u8; 32], Error>(f.writer_pubkey),
            _ => Err::<[u8; 32], Error>(Error::Integrity),
        },
{
    let parsed: ParsedFramedBlob = match parse_framed_blob(blob) {
        Ok(p) => p,
        Err(_) => {
            return Err(Error::Integrity);
        },
    };
    if !writer_set.contains(&parsed.writer_pubkey) {
        return Err(Error::Integrity);
    }
    match verify_sig_and_uuid::<C>(&parsed.writer_pubkey, &parsed) {
        Ok(()) => Ok(parsed.writer_pubkey),
        Err(_) => Err(Error::Integrity),
    }
}

/// Checks a framed record against one key that the caller trusts; the key in
/// the frame is not looked at.
pub fn verify_record_trailer_single<C: Crypto>(blob: &[u8], writer_pubkey: &[u8; 32]) -> (r: Result<
    (),
    Error,
>)
    ensures
        r == match frame_parse(blob@) {
            Some(f) if frame_attested::<C>(f, *writer_pubkey) => Ok::<(), Error>(()),
            _ => Err::<(), Error>(Error::Integrity),
        },
{
    let parsed: ParsedFramedBlob = match parse_framed_blob(blob) {
        Ok(p) => p,
        Err(_) => {
            return Err(Error::Integrity);
        },
    };
    verify_sig_and_uuid::<C>(writer_pubkey, &parsed)
}

/// Reading a frame gives back what was framed.
pub proof fn law_frame_round_trip(
    projection: Seq<u8>,
    writer_pubkey: [u8; 32],
    signature: [u8; 64],
    signing_payload: Seq<u8>,
)
    requires
        16 <= projection.len() <= u32::MAX,
        signing_payload.len() <= u32::MAX,
    ensures
        frame_parse(frame_bytes(projection, writer_pubkey, signature, signing_payload)) == Some(
            FrameModel {
                writer_pubkey,
                signature,
                signing_payload,
                uuid: array16(projection.subrange(0, 16)),
            },
        ),
{
    let b = frame_bytes(projection, writer_pubkey, signature, signing_payload);
    lemma_pow256_values();
    lemma_le_len(projection.len(), 4);
    lemma_le_len(signing_payload.len(), 4);
    lemma_un_le_of_le(projection.len(), 4);
    lemma_un_le_of_le(signing_payload.len(), 4);
    let off: int = 4 + projection.len() as int;
    assert(b.subrange(0, 4) =~= le(projection.len(), 4));
    assert(b.subrange(off + 96, off + 100) =~= le(signing_payload.len(), 4));
    assert(b.subrange(off, off + 32) =~= writer_pubkey@);
    assert(b.subrange(off + 32, off + 96) =~= signature@);
    assert(b.subrange(off + 100, b.len() as int) =~= signing_payload);
    assert(b.subrange(4, 20) =~= projection.subrange(0, 16));
    assert(array32(writer_pubkey@)@ == writer_pubkey@);
    assert(array32(writer_pubkey@) =~= writer_pubkey);
    assert(array64(signature@)@ == signature@);
    assert(array64(signature@) =~= signature);
}

} // verus!

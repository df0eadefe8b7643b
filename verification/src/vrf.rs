//! Verification of sortition eligibility proofs.
//!
//! Eligibility is proven with a verifiable random function: the prover
//! binds a transcript of the task's context — a fixed 4-byte engine
//! label, the epoch, the task id digest and the predecessor hash digest,
//! in that order — and anyone can check the resulting `(output, proof)`
//! pair against the prover's public key over the byte-identical
//! transcript. Verification is deterministic and side-effect free; a
//! proof that does not verify only means the participant is not
//! eligible.
use vstd::prelude::*;

verus! {

/// The proof does not verify against the transcript and public key; the
/// participant is not eligible.
#[derive(Clone, Copy, Debug, PartialEq, Eq, Structural)]
pub struct VerificationError;

/// The context fields a sortition proof is bound to. Generation and
/// verification must serialize these identically, so the serialization
/// order and labels are fixed once, in the verifying call.
pub struct TranscriptData {
    pub epoch: u64,
    pub task_id: [u8; 32],
    pub pre_hash: [u8; 32],
}

/// Builds the canonical transcript context for one task and epoch.
pub fn transcript_data(pre_hash: [u8; 32], epoch: u64, task_id: [u8; 32]) -> (r: TranscriptData)
    ensures
        r.epoch == epoch,
        r.task_id@ == task_id@,
        r.pre_hash@ == pre_hash@,
{
    TranscriptData { epoch, task_id, pre_hash }
}

#[verifier::external_type_specification]
#[verifier::external_body]
pub struct ExVRFInOut(schnorrkel::vrf::VRFInOut);

/// Whether the verifiable-random-function verification accepts
/// `(output, proof)` for the public key over the canonical sortition
/// transcript of the given context fields. Verification is a pure
/// function of these byte strings.
pub uninterp spec fn vrf_accepts(
    pk: Seq<u8>,
    epoch: u64,
    task_id: Seq<u8>,
    pre_hash: Seq<u8>,
    output: Seq<u8>,
    proof: Seq<u8>,
) -> bool;

/// Relies on merlin::Transcript and schnorrkel: the transcript is built
/// under the engine label `COTS` with the fields of `data` appended in
/// canonical order under the labels `epoch`, `task id` and `pre hash`,
/// and `schnorrkel::PublicKey::vrf_verify` accepts or rejects as a pure
/// function of the argument bytes (an undecodable key, output or proof
/// rejects).
#[verifier::external_body]
fn vrf_verify_transcript(
    pk: &[u8; 32],
    data: &TranscriptData,
    output: &[u8; 32],
    proof: &[u8; 64],
) -> (r: Result<schnorrkel::vrf::VRFInOut, VerificationError>)
    ensures
        r is Ok == vrf_accepts(pk@, data.epoch, data.task_id@, data.pre_hash@, output@, proof@),
{
    let public = schnorrkel::PublicKey::from_bytes(pk).map_err(|_| VerificationError)?;
    let out = schnorrkel::vrf::VRFPreOut::from_bytes(output).map_err(|_| VerificationError)?;
    let prf = schnorrkel::vrf::VRFProof::from_bytes(proof).map_err(|_| VerificationError)?;
    let mut t = merlin::Transcript::new(b"COTS");
    t.append_u64(b"epoch", data.epoch);
    t.append_message(b"task id", &data.task_id);
    t.append_message(b"pre hash", &data.pre_hash);
    match public.vrf_verify(t, &out, &prf) {
        Ok((inout, _)) => Ok(inout),
        Err(_) => Err(VerificationError),
    }
}

/// Verifies a sortition eligibility proof: rebuilds the canonical
/// transcript from the four context inputs and checks `(output, proof)`
/// against `pubkey`. Succeeds exactly when the verifiable random
/// function accepts, returning the verified randomness carrier; this is
/// the only externally checkable evidence of eligibility.
pub fn prove_vrf(
    pubkey: &[u8; 32],
    pre_hash: [u8; 32],
    epoch: u64,
    task_id: [u8; 32],
    output: &[u8; 32],
    proof: &[u8; 64],
) -> (r: Result<schnorrkel::vrf::VRFInOut, VerificationError>)
    ensures
        (r is Ok) == vrf_accepts(pubkey@, epoch, task_id@, pre_hash@, output@, proof@),
{
    let data = transcript_data(pre_hash, epoch, task_id);
    vrf_verify_transcript(pubkey, &data, output, proof)
}

/// Collapses the signing backend's outcome when generating an
/// eligibility proof: a signature is carried through; a missing key or a
/// backend failure degrades to no selection this epoch (the host may log
/// it), never a hard error.
pub fn signature_outcome<E>(result: Result<Option<([u8; 32], [u8; 64])>, E>) -> (out: Option<
    ([u8; 32], [u8; 64]),
>)
    ensures
        out == match result {
            Ok(Some(sig)) => Some(sig),
            Ok(None) => None::<([u8; 32], [u8; 64])>,
            Err(_) => None::<([u8; 32], [u8; 64])>,
        },
{
    match result {
        Ok(Some(sig)) => Some(sig),
        Ok(None) => None,
        Err(_) => None,
    }
}

/// Relies on schnorrkel::vrf::VRFInOut::make_bytes: draws the 16-byte
/// sortition sample from the verified randomness, domain-separated under
/// the fixed context label `creditcoin-vrf`. Nothing is assumed of the
/// sample's value; selection against a threshold is decided by
/// `crate::sortition::is_selected`, which is verified for every value.
#[verifier::external_body]
pub fn selection_bytes(inout: &schnorrkel::vrf::VRFInOut) -> (r: [u8; 16]) {
    inout.make_bytes::<[u8; 16]>(b"creditcoin-vrf")
}

} // verus!

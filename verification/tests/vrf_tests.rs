use merlin::Transcript;
use schnorrkel::{ExpansionMode, Keypair, MiniSecretKey};
use task_voting::sortition::is_selected;
use task_voting::vrf::{prove_vrf, selection_bytes, signature_outcome, VerificationError};

/// The canonical sortition transcript the prover must bind: this test
/// spells out the wire format (engine label, then epoch, task id and
/// predecessor hash under fixed labels) and would fail if verification
/// built a different transcript.
fn sortition_transcript(pre_hash: &[u8; 32], epoch: u64, task_id: &[u8; 32]) -> Transcript {
    let mut t = Transcript::new(b"COTS");
    t.append_u64(b"epoch", epoch);
    t.append_message(b"task id", task_id);
    t.append_message(b"pre hash", pre_hash);
    t
}

fn test_keypair(seed: u8) -> Keypair {
    MiniSecretKey::from_bytes(&[seed; 32]).unwrap().expand_to_keypair(ExpansionMode::Ed25519)
}

struct PublicData {
    pre_hash: [u8; 32],
    epoch: u64,
    task_id: [u8; 32],
}

fn mocked_public_data() -> PublicData {
    PublicData { pre_hash: [0x11; 32], epoch: 1, task_id: [0x22; 32] }
}

#[test]
fn prove_vrf_output() {
    let PublicData { pre_hash, epoch, task_id } = mocked_public_data();
    let keypair = test_keypair(42);
    let (inout, proof, _) = keypair.vrf_sign(sortition_transcript(&pre_hash, epoch, &task_id));
    let output = inout.to_preout().to_bytes();
    let proof_bytes = proof.to_bytes();
    let pubkey = keypair.public.to_bytes();

    prove_vrf(&pubkey, pre_hash, epoch, task_id, &output, &proof_bytes).unwrap();
}

#[test]
fn tampered_context_is_rejected() {
    let PublicData { pre_hash, epoch, task_id } = mocked_public_data();
    let keypair = test_keypair(42);
    let (inout, proof, _) = keypair.vrf_sign(sortition_transcript(&pre_hash, epoch, &task_id));
    let output = inout.to_preout().to_bytes();
    let proof_bytes = proof.to_bytes();
    let pubkey = keypair.public.to_bytes();

    // a different epoch gives a different transcript, so the proof fails
    assert_eq!(
        prove_vrf(&pubkey, pre_hash, epoch + 1, task_id, &output, &proof_bytes),
        Err(VerificationError),
    );
    // so does another signer's key
    let other = test_keypair(43).public.to_bytes();
    assert_eq!(
        prove_vrf(&other, pre_hash, epoch, task_id, &output, &proof_bytes),
        Err(VerificationError),
    );
    // and a corrupted proof
    let mut bad = proof_bytes;
    bad[0] ^= 1;
    assert_eq!(
        prove_vrf(&pubkey, pre_hash, epoch, task_id, &output, &bad),
        Err(VerificationError),
    );
}

#[test]
fn selection_is_stable_across_verifications() {
    // the verified randomness, and hence the selection decision, depends
    // only on the proven output and context
    let PublicData { pre_hash, epoch, task_id } = mocked_public_data();
    let keypair = test_keypair(7);
    let (inout, proof, _) = keypair.vrf_sign(sortition_transcript(&pre_hash, epoch, &task_id));
    let output = inout.to_preout().to_bytes();
    let proof_bytes = proof.to_bytes();
    let pubkey = keypair.public.to_bytes();

    let first = prove_vrf(&pubkey, pre_hash, epoch, task_id, &output, &proof_bytes).unwrap();
    let second = prove_vrf(&pubkey, pre_hash, epoch, task_id, &output, &proof_bytes).unwrap();
    let a = selection_bytes(&first);
    let b = selection_bytes(&second);
    assert_eq!(a, b);

    // nobody is selected with a zero threshold; everybody below the top
    assert!(!is_selected(&a, 0));
    assert_eq!(is_selected(&a, u128::MAX), u128::from_le_bytes(a) < u128::MAX);
}

#[test]
fn signature_outcome_collapses_backend_failures() {
    let sig = ([1u8; 32], [2u8; 64]);
    assert_eq!(signature_outcome::<u32>(Ok(Some(sig))), Some(sig));
    assert_eq!(signature_outcome::<u32>(Ok(None)), None);
    assert_eq!(signature_outcome::<u32>(Err(7)), None);
}

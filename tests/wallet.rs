use orchard::keys::{FullViewingKey, Scope, SpendingKey};
use orchard::note::{ExtractedNoteCommitment, RandomSeed, Rho};
use orchard::note_encryption::{OrchardDomain, OrchardNoteEncryption};
use orchard::value::NoteValue;
use orchard::{Note, NoteVersion};
use orchard_postfiat::{
    root_from_path, try_decrypt_note, DecryptedNote, NotePayload, OrchardWalletState,
    ShieldedAction, WalletError,
};
use zcash_note_encryption::Domain;

fn ivk_of(seed: u8) -> [u8; 64] {
    let sk = SpendingKey::from_bytes([seed; 32]).unwrap();
    FullViewingKey::from(&sk).to_ivk(Scope::External).to_bytes()
}

fn field_bytes(tag: u8, i: u8) -> [u8; 32] {
    let mut b = [0u8; 32];
    b[0] = tag;
    b[1] = i;
    b
}

/// An action paying `value` to the first address of the key seeded with `seed`.
fn action_to(seed: u8, value: u64, nf_tag: u8) -> ShieldedAction {
    let sk = SpendingKey::from_bytes([seed; 32]).unwrap();
    let addr = FullViewingKey::from(&sk).address_at(0u32, Scope::External);
    let nullifier = field_bytes(nf_tag, 7);
    let rho = Rho::from_bytes(&nullifier).unwrap();
    let mut rseed = None;
    for b in 0u8..=255 {
        let r = RandomSeed::from_bytes([b; 32], &rho);
        if bool::from(r.is_some()) {
            rseed = Some(r.unwrap());
            break;
        }
    }
    let note = Note::from_parts(addr, NoteValue::from_raw(value), rho, rseed.unwrap(), NoteVersion::V2)
        .unwrap();
    let cmx = ExtractedNoteCommitment::from(note.commitment()).to_bytes();
    let ne = OrchardNoteEncryption::new(None, note, [0u8; 512]);
    let ephemeral_key = OrchardDomain::epk_bytes(ne.epk()).0;
    let enc = ne.encrypt_note_plaintext();
    ShieldedAction { nullifier, cmx, ephemeral_key, enc_ciphertext: enc.0.to_vec() }
}

fn payload(value: u64) -> NotePayload {
    NotePayload { recipient: [0u8; 43], value, rho: [0u8; 32], rseed: [0u8; 32] }
}

/// A wallet holding notes of the given amounts, each with its own commitment,
/// nullifier and transaction, all owned by key 0.
fn wallet_with(amounts: &[u64]) -> OrchardWalletState {
    let mut w = OrchardWalletState::new();
    for (i, a) in amounts.iter().enumerate() {
        let cmx = field_bytes(1, i as u8);
        w.append_commitment(cmx).unwrap();
        w.add_note(payload(*a), cmx, field_bytes(2, i as u8), [i as u8; 32], 0, 10, [0u8; 32], 0)
            .unwrap();
    }
    w
}

fn amounts(notes: &[DecryptedNote]) -> Vec<u64> {
    notes.iter().map(|n| n.amount).collect()
}

#[test]
fn test_wallet_state_creation() {
    let wallet = OrchardWalletState::new();
    assert_eq!(wallet.get_balance(), 0);
    assert_eq!(wallet.list_notes(false).len(), 0);
}

#[test]
fn test_ivk_management() {
    let mut wallet = OrchardWalletState::new();
    let k0 = ivk_of(1);
    let k1 = ivk_of(2);
    assert_eq!(wallet.add_ivk(k0), Ok(()));
    assert_eq!(wallet.add_ivk(k1), Ok(()));
    assert_eq!(wallet.add_ivk(k0), Ok(()));
    assert_eq!(wallet.list_ivks().clone(), vec![Some(k0), Some(k1)]);
    wallet.remove_ivk(&k0);
    assert_eq!(wallet.list_ivks().clone(), vec![None, Some(k1)]);
    assert_eq!(wallet.add_ivk(k0), Ok(()));
    assert_eq!(wallet.list_ivks().clone(), vec![None, Some(k1), Some(k0)]);
}

#[test]
fn invalid_ivk_is_rejected() {
    let mut wallet = OrchardWalletState::new();
    assert_eq!(wallet.add_ivk([0xffu8; 64]), Err(WalletError::Validation));
    assert_eq!(wallet.list_ivks().len(), 0);
}

#[test]
fn empty_wallet_has_no_anchor_and_zero_balance() {
    let wallet = OrchardWalletState::new();
    assert_eq!(wallet.get_anchor(), Err(WalletError::NotFound));
    assert_eq!(wallet.get_balance(), 0);
}

#[test]
fn scanned_note_is_owned_and_counted() {
    let mut wallet = OrchardWalletState::new();
    wallet.add_ivk(ivk_of(1)).unwrap();
    let a = action_to(1, 1000, 3);
    wallet.append_commitment(a.cmx).unwrap();
    let n = wallet.try_decrypt_notes_from_bundle(&vec![a], [9u8; 32], 77).unwrap();
    assert_eq!(n, 1);
    assert_eq!(wallet.get_balance(), 1000);
    assert_eq!(wallet.list_notes(false).len(), 1);
    let note = wallet.list_notes(false)[0];
    assert_eq!(note.ivk_index, 0);
    assert_eq!(note.position, 0);
    assert_eq!(note.amount, 1000);
    assert_eq!(note.note.value, 1000);
    assert_eq!(note.ledger_seq, 77);
    assert_eq!(note.tx_hash, [9u8; 32]);
    assert_eq!(note.nullifier, field_bytes(3, 7));
    assert_eq!(note.anchor, wallet.get_anchor().unwrap());
}

#[test]
fn scanner_uses_first_decrypting_key_and_staged_positions() {
    let mut wallet = OrchardWalletState::new();
    wallet.add_ivk(ivk_of(5)).unwrap();
    wallet.add_ivk(ivk_of(1)).unwrap();
    let a0 = action_to(9, 50, 3);
    let a1 = action_to(1, 700, 4);
    let a2 = action_to(5, 300, 5);
    for a in [&a0, &a1, &a2] {
        wallet.append_commitment(a.cmx).unwrap();
    }
    let n = wallet.try_decrypt_notes_from_bundle(&vec![a0, a1, a2], [1u8; 32], 3).unwrap();
    assert_eq!(n, 2);
    let notes = wallet.list_notes(true);
    assert_eq!(notes.len(), 2);
    assert_eq!((notes[0].action_idx, notes[0].position, notes[0].ivk_index), (1, 1, 1));
    assert_eq!((notes[1].action_idx, notes[1].position, notes[1].ivk_index), (2, 2, 0));
    assert_eq!(wallet.commitment_tree().len(), 3);
}

#[test]
fn undecryptable_action_still_grows_tree() {
    let mut wallet = OrchardWalletState::new();
    wallet.add_ivk(ivk_of(1)).unwrap();
    let a = action_to(2, 1000, 3);
    wallet.append_commitment(a.cmx).unwrap();
    assert_eq!(wallet.try_decrypt_notes_from_bundle(&vec![a], [0u8; 32], 1), Ok(0));
    assert_eq!(wallet.commitment_tree().len(), 1);
    assert_eq!(wallet.get_balance(), 0);
}

#[test]
fn scan_without_append_fails_and_staging_is_per_bundle() {
    let mut wallet = OrchardWalletState::new();
    wallet.add_ivk(ivk_of(1)).unwrap();
    let a = action_to(1, 1000, 3);
    let b = action_to(1, 2000, 4);
    wallet.append_commitment(a.cmx).unwrap();
    assert_eq!(wallet.try_decrypt_notes_from_bundle(&vec![copy_action(&a)], [0u8; 32], 1), Ok(1));
    assert_eq!(
        wallet.try_decrypt_notes_from_bundle(&vec![a, b], [1u8; 32], 1),
        Err(WalletError::StateConsistency)
    );
}

fn copy_action(a: &ShieldedAction) -> ShieldedAction {
    ShieldedAction {
        nullifier: a.nullifier,
        cmx: a.cmx,
        ephemeral_key: a.ephemeral_key,
        enc_ciphertext: a.enc_ciphertext.clone(),
    }
}

#[test]
fn add_note_requires_staged_commitment() {
    let mut wallet = OrchardWalletState::new();
    let r = wallet.add_note(payload(5), field_bytes(1, 1), field_bytes(2, 1), [0u8; 32], 0, 1, [0u8; 32], 0);
    assert_eq!(r, Err(WalletError::StateConsistency));
    assert_eq!(wallet.list_notes(true).len(), 0);
}

#[test]
fn select_smallest_first_until_covered() {
    let wallet = wallet_with(&[1000, 2000, 3000]);
    let sel = wallet.select_notes(2500, None).unwrap();
    assert_eq!(amounts(&sel), vec![1000, 2000]);
}

#[test]
fn select_fails_when_balance_short() {
    let wallet = wallet_with(&[1000, 2000, 3000]);
    assert_eq!(
        wallet.select_notes(10000, None).err(),
        Some(WalletError::InsufficientBalance { available: 6000, required: 10000 })
    );
}

#[test]
fn select_exact_total_and_zero_target() {
    let wallet = wallet_with(&[1000, 2000, 3000]);
    assert_eq!(amounts(&wallet.select_notes(6000, None).unwrap()), vec![1000, 2000, 3000]);
    assert_eq!(wallet.select_notes(0, None).unwrap().len(), 0);
    assert_eq!(amounts(&wallet.select_notes(1, None).unwrap()), vec![1000]);
}

#[test]
fn select_keeps_insertion_order_for_equal_amounts() {
    let wallet = wallet_with(&[500, 100, 500, 100]);
    let sel = wallet.select_notes(1200, None).unwrap();
    assert_eq!(amounts(&sel), vec![100, 100, 500, 500]);
    assert_eq!(sel[0].tx_hash, [1u8; 32]);
    assert_eq!(sel[1].tx_hash, [3u8; 32]);
    assert_eq!(sel[2].tx_hash, [0u8; 32]);
    assert_eq!(sel[3].tx_hash, [2u8; 32]);
}

#[test]
fn select_is_deterministic() {
    let wallet = wallet_with(&[700, 300, 300, 900]);
    let a = wallet.select_notes(1000, None).unwrap();
    let b = wallet.select_notes(1000, None).unwrap();
    assert_eq!(amounts(&a), amounts(&b));
    let ta: Vec<[u8; 32]> = a.iter().map(|n| n.tx_hash).collect();
    let tb: Vec<[u8; 32]> = b.iter().map(|n| n.tx_hash).collect();
    assert_eq!(ta, tb);
}

#[test]
fn select_filters_by_owner() {
    let mut w = OrchardWalletState::new();
    for (i, (a, owner)) in [(100u64, 0usize), (200, 1), (300, 1)].iter().enumerate() {
        let cmx = field_bytes(1, i as u8);
        w.append_commitment(cmx).unwrap();
        w.add_note(payload(*a), cmx, field_bytes(2, i as u8), [i as u8; 32], 0, 1, [0u8; 32], *owner)
            .unwrap();
    }
    assert_eq!(amounts(&w.select_notes_for_owner(250, Some(1)).unwrap()), vec![200, 300]);
    assert_eq!(
        w.select_notes_for_owner(250, Some(0)).err(),
        Some(WalletError::InsufficientBalance { available: 100, required: 250 })
    );
}

#[test]
fn marking_spent_reduces_balance() {
    let mut wallet = wallet_with(&[1000, 2000, 3000]);
    wallet.mark_spent(&field_bytes(2, 0));
    assert_eq!(wallet.get_balance(), 5000);
    assert_eq!(wallet.list_notes(false).len(), 2);
    assert_eq!(wallet.list_notes(true).len(), 3);
    assert_eq!(amounts(&wallet.select_notes(2500, None).unwrap()), vec![2000, 3000]);
}

#[test]
fn marking_spent_twice_is_same_as_once() {
    let mut once = wallet_with(&[1000, 2000]);
    let mut twice = wallet_with(&[1000, 2000]);
    once.mark_spent(&field_bytes(2, 1));
    twice.mark_spent(&field_bytes(2, 1));
    twice.mark_spent(&field_bytes(2, 1));
    assert_eq!(once.get_balance(), twice.get_balance());
    assert_eq!(amounts(&once.list_notes(false)), amounts(&twice.list_notes(false)));
    assert_eq!(twice.get_balance(), 1000);
}

#[test]
fn unknown_nullifier_is_ignored() {
    let mut wallet = wallet_with(&[1000]);
    wallet.mark_spent(&field_bytes(9, 9));
    assert_eq!(wallet.get_balance(), 1000);
}

#[test]
fn get_note_by_commitment() {
    let wallet = wallet_with(&[1000, 2000]);
    assert_eq!(wallet.get_note(&field_bytes(1, 1)).unwrap().amount, 2000);
    assert!(wallet.get_note(&field_bytes(1, 5)).is_none());
}

#[test]
fn same_identity_replaces_note() {
    let mut w = OrchardWalletState::new();
    let cmx = field_bytes(1, 0);
    w.append_commitment(cmx).unwrap();
    w.add_note(payload(10), cmx, field_bytes(2, 0), [4u8; 32], 1, 1, [0u8; 32], 0).unwrap();
    w.add_note(payload(20), cmx, field_bytes(2, 0), [4u8; 32], 1, 1, [0u8; 32], 0).unwrap();
    assert_eq!(w.list_notes(true).len(), 1);
    assert_eq!(w.get_balance(), 20);
}

#[test]
fn spendable_notes_sorted_by_amount() {
    let wallet = wallet_with(&[3000, 1000, 2000]);
    assert_eq!(amounts(&wallet.get_spendable_notes()), vec![1000, 2000, 3000]);
}

#[test]
fn spend_paths_authenticate_against_shared_anchor() {
    let wallet = wallet_with(&[1000, 2000, 3000]);
    let sel = wallet.select_notes(2500, None).unwrap();
    let (anchor, paths) = wallet.prepare_spend(&sel).unwrap();
    assert_eq!(anchor, wallet.get_anchor().unwrap());
    assert_eq!(paths.len(), 2);
    for (n, p) in sel.iter().zip(paths.iter()) {
        assert_eq!(root_from_path(&n.cmx, n.position, p), Some(anchor));
        assert_eq!(wallet.get_merkle_path(n).unwrap(), *p);
        assert_eq!(wallet.get_note_anchor(n), Ok(anchor));
    }
}

#[test]
fn spend_preparation_fails_on_empty_tree() {
    let wallet = OrchardWalletState::new();
    let sel: Vec<DecryptedNote> = Vec::new();
    assert_eq!(wallet.prepare_spend(&sel).err(), Some(WalletError::StateConsistency));
}

#[test]
fn checkpoint_records_last_sequence() {
    let mut wallet = wallet_with(&[1000]);
    assert_eq!(wallet.last_checkpoint(), None);
    assert!(wallet.checkpoint(5));
    assert!(!wallet.checkpoint(5));
    assert_eq!(wallet.last_checkpoint(), Some(5));
    let before = wallet.get_anchor().unwrap();
    wallet.append_commitment(field_bytes(1, 200)).unwrap();
    assert_eq!(wallet.commitment_tree().root(1), Ok(before));
    assert_ne!(wallet.commitment_tree().root(0), Ok(before));
}

#[test]
fn reset_clears_all_state() {
    let mut wallet = wallet_with(&[1000]);
    wallet.add_ivk(ivk_of(1)).unwrap();
    wallet.checkpoint(3);
    wallet.reset();
    assert_eq!(wallet.get_balance(), 0);
    assert_eq!(wallet.list_notes(true).len(), 0);
    assert_eq!(wallet.get_anchor(), Err(WalletError::NotFound));
    assert_eq!(wallet.last_checkpoint(), None);
    assert_eq!(wallet.list_ivks().len(), 0);
}

#[test]
fn select_by_full_viewing_key() {
    let fvk_of = |seed: u8| FullViewingKey::from(&SpendingKey::from_bytes([seed; 32]).unwrap()).to_bytes();
    let mut w = OrchardWalletState::new();
    w.add_ivk(ivk_of(1)).unwrap();
    w.add_ivk(ivk_of(2)).unwrap();
    for (i, (a, owner)) in [(100u64, 0usize), (200, 1), (300, 1)].iter().enumerate() {
        let cmx = field_bytes(1, i as u8);
        w.append_commitment(cmx).unwrap();
        w.add_note(payload(*a), cmx, field_bytes(2, i as u8), [i as u8; 32], 0, 1, [0u8; 32], *owner)
            .unwrap();
    }
    assert_eq!(amounts(&w.select_notes(150, Some(&fvk_of(2))).unwrap()), vec![200]);
    assert_eq!(amounts(&w.select_notes(50, Some(&fvk_of(1))).unwrap()), vec![100]);
    assert_eq!(w.select_notes(50, Some(&fvk_of(3))).err(), Some(WalletError::NotFound));
    assert_eq!(w.select_notes(50, Some(&[0xffu8; 96])).err(), Some(WalletError::Validation));
}

#[test]
fn ingest_bundle_appends_then_scans() {
    let mut wallet = OrchardWalletState::new();
    wallet.add_ivk(ivk_of(1)).unwrap();
    wallet.append_commitment(field_bytes(1, 1)).unwrap();
    let bundle = vec![action_to(2, 10, 3), action_to(1, 40, 4), action_to(1, 60, 5)];
    assert_eq!(wallet.ingest_bundle(&bundle, [6u8; 32], 12), Ok(2));
    assert_eq!(wallet.commitment_tree().len(), 4);
    let notes = wallet.list_notes(false);
    assert_eq!(notes.iter().map(|n| n.position).collect::<Vec<_>>(), vec![2, 3]);
    assert_eq!(wallet.get_balance(), 100);
    assert_eq!(wallet.try_decrypt_notes_from_bundle(&bundle, [7u8; 32], 12), Err(WalletError::StateConsistency));
}

#[test]
fn ingest_bundle_stops_at_invalid_commitment() {
    let mut wallet = OrchardWalletState::new();
    wallet.add_ivk(ivk_of(1)).unwrap();
    let good = action_to(1, 40, 4);
    let mut bad = action_to(1, 60, 5);
    bad.cmx = [0xffu8; 32];
    assert_eq!(wallet.ingest_bundle(&vec![good, bad], [6u8; 32], 12), Err(WalletError::Validation));
    assert_eq!(wallet.commitment_tree().len(), 1);
    assert_eq!(wallet.get_balance(), 0);
}

#[test]
fn single_action_decryption_with_full_viewing_key() {
    let fvk = FullViewingKey::from(&SpendingKey::from_bytes([1u8; 32]).unwrap()).to_bytes();
    let other = FullViewingKey::from(&SpendingKey::from_bytes([2u8; 32]).unwrap()).to_bytes();
    let actions = vec![action_to(1, 1234, 3)];
    assert_eq!(try_decrypt_note(&actions, 0, &fvk), Some(1234));
    assert_eq!(try_decrypt_note(&actions, 0, &other), None);
    assert_eq!(try_decrypt_note(&actions, 1, &fvk), None);
    assert_eq!(try_decrypt_note(&actions, 0, &[0xffu8; 96]), None);
}

#[test]
fn removing_a_key_keeps_owner_indices() {
    let mut wallet = OrchardWalletState::new();
    wallet.add_ivk(ivk_of(5)).unwrap();
    wallet.add_ivk(ivk_of(1)).unwrap();
    wallet.remove_ivk(&ivk_of(5));
    let a = action_to(1, 700, 4);
    let b = action_to(5, 300, 5);
    assert_eq!(wallet.ingest_bundle(&vec![a, b], [1u8; 32], 3), Ok(1));
    let notes = wallet.list_notes(false);
    assert_eq!(notes[0].ivk_index, 1);
    assert_eq!(amounts(&wallet.select_notes_for_owner(1, Some(1)).unwrap()), vec![700]);
}

#[test]
fn merkle_path_hashes_note_commitment_to_anchor() {
    let mut wallet = wallet_with(&[1000, 2000]);
    let note = wallet.list_notes(false)[0];
    assert!(wallet.checkpoint(5));
    let then_root = wallet.get_anchor().unwrap();
    wallet.append_commitment(field_bytes(1, 50)).unwrap();
    let now = wallet.get_merkle_path(&note).unwrap();
    assert_eq!(now.len(), 32);
    assert_eq!(root_from_path(&note.cmx, note.position, &now), Some(wallet.get_anchor().unwrap()));
    let then = wallet.witness_at(note.position, 1).unwrap();
    assert_ne!(now, then);
    assert_eq!(wallet.root_at(1), Ok(then_root));
    assert_eq!(root_from_path(&note.cmx, note.position, &then), Some(then_root));
    assert_eq!(wallet.witness_at(2, 1), Err(WalletError::StateConsistency));
    assert_eq!(wallet.root_at(2), Err(WalletError::NotFound));
}

#[test]
fn merkle_path_fails_for_uncommitted_position() {
    let wallet = wallet_with(&[1000]);
    let mut note = wallet.list_notes(false)[0];
    note.position = 5;
    assert_eq!(wallet.get_merkle_path(&note), Err(WalletError::StateConsistency));
}

#[test]
fn ingest_bundle_keeps_commitments_before_failure() {
    let mut wallet = OrchardWalletState::new();
    let good = action_to(1, 40, 4);
    let good_cmx = good.cmx;
    let mut bad = action_to(1, 60, 5);
    bad.cmx = [0xffu8; 32];
    assert_eq!(wallet.ingest_bundle(&vec![good, bad], [6u8; 32], 12), Err(WalletError::Validation));
    let mut t = orchard_postfiat::CommitmentTree::new();
    t.append(&good_cmx).unwrap();
    assert_eq!(wallet.get_anchor(), t.root(0));
}

#[test]
fn ivk_with_zero_scalar_is_rejected() {
    let mut wallet = OrchardWalletState::new();
    let mut k = ivk_of(1);
    for b in k[32..].iter_mut() {
        *b = 0;
    }
    assert_eq!(wallet.add_ivk(k), Err(WalletError::Validation));
    assert!(bool::from(orchard::keys::IncomingViewingKey::from_bytes(&k).is_none()));
}

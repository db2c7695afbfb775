//! The decryption scanner's rules: which key owns an action, which position
//! it gets, and what a scanned bundle does to the note registry.

use crate::keys::{derive_external_ivk, external_ivk_of};
use crate::notes::{upsert, DecryptedNote, NoteId, NotePayload};
use orchard::keys::{IncomingViewingKey, PreparedIncomingViewingKey};
use orchard::note::{ExtractedNoteCommitment, Nullifier};
use orchard::note_encryption::{CompactAction, OrchardDomain};
use vstd::prelude::*;
use zcash_note_encryption::{try_compact_note_decryption, EphemeralKeyBytes};

verus! {

/// One action of a bundle as the scanner reads it: the revealed nullifier, the
/// new note's commitment, the ephemeral public key and the note ciphertext.
pub struct ShieldedAction {
    pub nullifier: [u8; 32],
    pub cmx: [u8; 32],
    pub ephemeral_key: [u8; 32],
    pub enc_ciphertext: Vec<u8>,
}

/// The note plaintext (recipient, value, rho, seed) that trial decryption of an
/// action's output with an incoming viewing key yields, or `None` where the key
/// does not decrypt it.
pub uninterp spec fn note_decryption_of(
    ivk: Seq<u8>,
    nullifier: Seq<u8>,
    cmx: Seq<u8>,
    ephemeral_key: Seq<u8>,
    ciphertext: Seq<u8>,
) -> Option<([u8; 43], u64, [u8; 32], [u8; 32])>;

/// Trial decryption of `a` with the key encoded by `ivk`.
pub open spec fn decryption(ivk: Seq<u8>, a: ShieldedAction) -> Option<
    ([u8; 43], u64, [u8; 32], [u8; 32]),
> {
    note_decryption_of(ivk, a.nullifier@, a.cmx@, a.ephemeral_key@, a.enc_ciphertext@)
}

/// Relies on `zcash_note_encryption::try_compact_note_decryption` in Orchard's
/// domain: the outcome depends on the key and the action's bytes alone. Keys,
/// nullifiers and commitments that do not parse, and ciphertexts shorter than
/// the compact prefix, decrypt to nothing.
#[verifier::external_body]
fn trial_decrypt(ivk: &[u8; 64], a: &ShieldedAction) -> (r: Option<NotePayload>)
    ensures
        r is Some <==> note_decryption_of(
            ivk@,
            a.nullifier@,
            a.cmx@,
            a.ephemeral_key@,
            a.enc_ciphertext@,
        ) is Some,
        r matches Some(p) ==> note_decryption_of(
            ivk@,
            a.nullifier@,
            a.cmx@,
            a.ephemeral_key@,
            a.enc_ciphertext@,
        ) == Some((p.recipient, p.value, p.rho, p.rseed)),
{
    let ivk = PreparedIncomingViewingKey::new(&IncomingViewingKey::from_bytes(ivk).into_option()?);
    let act = CompactAction::from_parts(
        Nullifier::from_bytes(&a.nullifier).into_option()?,
        ExtractedNoteCommitment::from_bytes(&a.cmx).into_option()?,
        EphemeralKeyBytes(a.ephemeral_key),
        a.enc_ciphertext.get(..52)?.try_into().ok()?,
    );
    let (note, _) = try_compact_note_decryption(&OrchardDomain::for_compact_action(&act), &ivk, &act)?;
    Some(NotePayload {
        recipient: note.recipient().to_raw_address_bytes(),
        value: note.value().inner(),
        rho: note.rho().to_bytes(),
        rseed: *note.rseed().as_bytes(),
    })
}

/// The key held in a registry slot, as bytes; `None` for a removed key.
pub open spec fn slot_view(slot: Option<[u8; 64]>) -> Option<Seq<u8>> {
    match slot {
        Some(k) => Some(k@),
        None => None,
    }
}

/// The registry slots as byte strings.
pub open spec fn slots_view(slots: Seq<Option<[u8; 64]>>) -> Seq<Option<Seq<u8>>> {
    slots.map_values(|s: Option<[u8; 64]>| slot_view(s))
}

/// The index of the first registered key, in slot order, that decrypts `a`.
pub open spec fn first_decrypting_key(ivks: Seq<Option<Seq<u8>>>, a: ShieldedAction) -> Option<nat>
    decreases ivks.len(),
{
    if ivks.len() == 0 {
        None
    } else {
        match first_decrypting_key(ivks.drop_last(), a) {
            Some(j) => Some(j),
            None => if ivks.last() is Some && decryption(ivks.last().unwrap(), a) is Some {
                Some((ivks.len() - 1) as nat)
            } else {
                None
            },
        }
    }
}

pub proof fn lemma_first_key_prefix(ivks: Seq<Option<Seq<u8>>>, a: ShieldedAction, j: int)
    requires
        0 <= j <= ivks.len(),
        first_decrypting_key(ivks.take(j), a) is Some,
    ensures
        first_decrypting_key(ivks, a) == first_decrypting_key(ivks.take(j), a),
    decreases ivks.len(),
{
    if j == ivks.len() {
        assert(ivks.take(j) =~= ivks);
    } else {
        assert(ivks.drop_last().take(j) =~= ivks.take(j));
        lemma_first_key_prefix(ivks.drop_last(), a, j);
    }
}

/// The position the staging map gives commitment `cmx`: its latest entry.
pub open spec fn staging_lookup(entries: Seq<([u8; 32], u64)>, cmx: Seq<u8>) -> Option<u64>
    decreases entries.len(),
{
    if entries.len() == 0 {
        None
    } else if entries.last().0@ == cmx {
        Some(entries.last().1)
    } else {
        staging_lookup(entries.drop_last(), cmx)
    }
}

/// The record the scanner makes of action `a` at index `i`, decrypted by key
/// `key_index` to plaintext `p` and placed at `position`.
pub open spec fn scanned_note(
    a: ShieldedAction,
    i: nat,
    key_index: nat,
    p: ([u8; 43], u64, [u8; 32], [u8; 32]),
    position: u64,
    tx_hash: [u8; 32],
    ledger_seq: u32,
    anchor: [u8; 32],
) -> DecryptedNote {
    DecryptedNote {
        note: NotePayload { recipient: p.0, value: p.1, rho: p.2, rseed: p.3 },
        cmx: a.cmx,
        nullifier: a.nullifier,
        amount: p.1,
        ledger_seq,
        tx_hash,
        action_idx: i as u32,
        position,
        anchor,
        ivk_index: key_index as usize,
    }
}

/// Registry notes, nullifier index entries, notes recorded so far, and whether
/// the scan has failed.
pub type ScanState = (Seq<DecryptedNote>, Seq<([u8; 32], NoteId)>, nat, bool);

/// What scanning action `a` at index `i` does to the scan state.
pub open spec fn scan_step(
    st: ScanState,
    ivks: Seq<Option<Seq<u8>>>,
    a: ShieldedAction,
    i: nat,
    staging: Seq<([u8; 32], u64)>,
    tx_hash: [u8; 32],
    ledger_seq: u32,
    anchor: [u8; 32],
) -> ScanState {
    if st.3 {
        st
    } else {
        match first_decrypting_key(ivks, a) {
            None => st,
            Some(j) => match staging_lookup(staging, a.cmx@) {
                None => (st.0, st.1, st.2, true),
                Some(pos) => {
                    let p = decryption(ivks[j as int].unwrap(), a).unwrap();
                    let n = scanned_note(a, i, j, p, pos, tx_hash, ledger_seq, anchor);
                    (upsert(st.0, n), st.1.push((a.nullifier, n.note_id_spec())), st.2 + 1, false)
                },
            },
        }
    }
}

/// The scan state after scanning `actions` from index `i` on.
pub open spec fn scan_from(
    st: ScanState,
    ivks: Seq<Option<Seq<u8>>>,
    actions: Seq<ShieldedAction>,
    i: nat,
    staging: Seq<([u8; 32], u64)>,
    tx_hash: [u8; 32],
    ledger_seq: u32,
    anchor: [u8; 32],
) -> ScanState
    decreases actions.len() - i,
{
    if i >= actions.len() {
        st
    } else {
        scan_from(
            scan_step(st, ivks, actions[i as int], i, staging, tx_hash, ledger_seq, anchor),
            ivks,
            actions,
            i + 1,
            staging,
            tx_hash,
            ledger_seq,
            anchor,
        )
    }
}

pub proof fn lemma_scan_failed_stays(
    st: ScanState,
    ivks: Seq<Option<Seq<u8>>>,
    actions: Seq<ShieldedAction>,
    i: nat,
    staging: Seq<([u8; 32], u64)>,
    tx_hash: [u8; 32],
    ledger_seq: u32,
    anchor: [u8; 32],
)
    requires
        st.3,
    ensures
        scan_from(st, ivks, actions, i, staging, tx_hash, ledger_seq, anchor) == st,
    decreases actions.len() - i,
{
    if i < actions.len() {
        lemma_scan_failed_stays(st, ivks, actions, i + 1, staging, tx_hash, ledger_seq, anchor);
    }
}

/// Trial-decrypts `a` with each registered key in slot order and returns the
/// first slot whose key succeeds, with the plaintext it gave.
pub fn find_owner(ivks: &Vec<Option<[u8; 64]>>, a: &ShieldedAction) -> (r: Option<(usize, NotePayload)>)
    ensures
        match (r, first_decrypting_key(slots_view(ivks@), *a)) {
            (Some((j, p)), Some(k)) => j == k && j < ivks@.len() && ivks@[j as int] is Some
                && decryption(ivks@[j as int].unwrap()@, *a) == Some(
                (p.recipient, p.value, p.rho, p.rseed),
            ),
            (None, None) => true,
            _ => false,
        },
{
    let ghost keys = slots_view(ivks@);
    let mut j: usize = 0;
    while j < ivks.len()
        invariant
            j <= ivks@.len(),
            keys == slots_view(ivks@),
            first_decrypting_key(keys.take(j as int), *a) is None,
        decreases ivks@.len() - j,
    {
        assert(keys.take(j + 1).drop_last() =~= keys.take(j as int));
        match &ivks[j] {
            Some(k) => {
                match trial_decrypt(k, a) {
                    Some(p) => {
                        assert(first_decrypting_key(keys.take(j + 1), *a) == Some(j as nat));
                        proof {
                            lemma_first_key_prefix(keys, *a, j + 1);
                        }
                        return Some((j, p));
                    },
                    None => {},
                }
            },
            None => {},
        }
        j = j + 1;
    }
    assert(keys.take(j as int) =~= keys);
    None
}

/// The value of the note in action `action_index` of `actions`, when the external
/// incoming viewing key of the full viewing key `fvk` decrypts it; `None` for an
/// index past the end, bytes that encode no full viewing key, or another owner.
pub fn try_decrypt_note(actions: &Vec<ShieldedAction>, action_index: usize, fvk: &[u8; 96]) -> (r:
    Option<u64>)
    ensures
        r == match external_ivk_of(fvk@) {
            Some(k) => if action_index < actions@.len() {
                match decryption(k, actions@[action_index as int]) {
                    Some(p) => Some(p.1),
                    None => None,
                }
            } else {
                None
            },
            None => None,
        },
{
    if action_index >= actions.len() {
        return None;
    }
    let ivk = match derive_external_ivk(fvk) {
        Some(k) => k,
        None => {
            return None;
        },
    };
    match trial_decrypt(&ivk, &actions[action_index]) {
        Some(p) => Some(p.value),
        None => None,
    }
}

} // verus!

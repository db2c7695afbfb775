//! The wallet state: registered viewing keys, note registry, commitment tree
//! with checkpoints, and the per-bundle staging of commitment positions.

use crate::accumulator::CommitmentTree;
use crate::error::WalletError;
use crate::keys::{derive_external_ivk, external_ivk_of, is_ivk_encoding, ivk_bytes_valid};
use crate::merkle::{
    auth_path, hashes_view, lemma_root_bytes, lemma_witness_round_trip, merkle_root, merkle_root_bytes,
    path_root,
};
use vstd::arithmetic::power2::{lemma2_to64, pow2};
use crate::notes::{
    eligible, listed, same_bytes, spent_after, unique_ids, unspent_total, upsert, DecryptedNote,
    NoteId, NotePayload, NoteRegistry,
};
use crate::scan::{
    find_owner, lemma_scan_failed_stays, scan_from, scan_step, scanned_note, staging_lookup,
    ShieldedAction,
};
use crate::selection::{select_notes, selection, sort_by_amount, sort_notes_by_amount};
use vstd::prelude::*;

verus! {

/// Whether two 64-byte keys are equal.
pub fn same_key(a: &[u8; 64], b: &[u8; 64]) -> (r: bool)
    ensures
        r == (a@ == b@),
{
    let mut i: usize = 0;
    while i < 64
        invariant
            i <= 64,
            a@.len() == 64,
            b@.len() == 64,
            forall|k: int| 0 <= k < i ==> a@[k] == b@[k],
        decreases 64 - i,
    {
        if a[i] != b[i] {
            return false;
        }
        i = i + 1;
    }
    assert(a@ =~= b@);
    true
}

/// `keys` with every slot holding `k` emptied; the other slots keep their place.
pub open spec fn without_key(keys: Seq<Option<Seq<u8>>>, k: Seq<u8>) -> Seq<Option<Seq<u8>>> {
    Seq::new(keys.len(), |i: int| if keys[i] == Some(k) { None } else { keys[i] })
}

/// The index of the first entry of `keys` equal to `k`.
pub open spec fn key_index(keys: Seq<Option<Seq<u8>>>, k: Seq<u8>) -> Option<nat>
    decreases keys.len(),
{
    if keys.len() == 0 {
        None
    } else {
        match key_index(keys.drop_last(), k) {
            Some(j) => Some(j),
            None => if keys.last() == Some(k) {
                Some((keys.len() - 1) as nat)
            } else {
                None
            },
        }
    }
}

proof fn lemma_key_index_prefix(keys: Seq<Option<Seq<u8>>>, k: Seq<u8>, j: int)
    requires
        0 <= j <= keys.len(),
        key_index(keys.take(j), k) is Some,
    ensures
        key_index(keys, k) == key_index(keys.take(j), k),
    decreases keys.len(),
{
    if j == keys.len() {
        assert(keys.take(j) =~= keys);
    } else {
        assert(keys.drop_last().take(j) =~= keys.take(j));
        lemma_key_index_prefix(keys.drop_last(), k, j);
    }
}

/// The owner filter that a full viewing key stands for: the index of its
/// external incoming viewing key among the registered keys.
pub open spec fn owner_of_fvk(keys: Seq<Option<Seq<u8>>>, fvk: Seq<u8>) -> Result<usize, WalletError> {
    match external_ivk_of(fvk) {
        None => Err(WalletError::Validation),
        Some(k) => match key_index(keys, k) {
            None => Err(WalletError::NotFound),
            Some(j) => Ok(j as usize),
        },
    }
}

/// Every note sits at a position the tree already holds, whose leaf is the
/// note's commitment.
pub open spec fn notes_committed(notes: Seq<DecryptedNote>, leaves: Seq<Seq<u8>>) -> bool {
    forall|i: int|
        0 <= i < notes.len() ==> #[trigger] notes[i].position < leaves.len() && leaves[notes[i].position as int]
            == notes[i].cmx@
}

/// Every staged position is held by the tree, and its leaf is the staged commitment.
pub open spec fn staging_committed(staging: Seq<([u8; 32], u64)>, leaves: Seq<Seq<u8>>) -> bool {
    forall|k: int|
        0 <= k < staging.len() ==> #[trigger] staging[k].1 < leaves.len() && leaves[staging[k].1 as int]
            == staging[k].0@
}

proof fn lemma_upsert_committed(notes: Seq<DecryptedNote>, n: DecryptedNote, leaves: Seq<Seq<u8>>)
    requires
        notes_committed(notes, leaves),
        n.position < leaves.len(),
        leaves[n.position as int] == n.cmx@,
    ensures
        notes_committed(upsert(notes, n), leaves),
{
    let u = upsert(notes, n);
    assert forall|i: int| 0 <= i < u.len() implies #[trigger] u[i].position < leaves.len()
        && leaves[u[i].position as int] == u[i].cmx@ by {
        if i < notes.len() && u[i] != n {
            assert(u[i] == notes[i]);
        }
    }
}

proof fn lemma_staging_bound(staging: Seq<([u8; 32], u64)>, cmx: Seq<u8>, leaves: Seq<Seq<u8>>)
    requires
        staging_committed(staging, leaves),
    ensures
        staging_lookup(staging, cmx) matches Some(p) ==> p < leaves.len() && leaves[p as int] == cmx,
    decreases staging.len(),
{
    if staging.len() > 0 {
        let d = staging.drop_last();
        assert forall|k: int| 0 <= k < d.len() implies #[trigger] d[k].1 < leaves.len()
            && leaves[d[k].1 as int] == d[k].0@ by {
            assert(d[k] == staging[k]);
        }
        lemma_staging_bound(d, cmx, leaves);
    }
}

/// Everything the wallet keeps. Viewing keys are held as their 64-byte raw
/// encodings in slots numbered in registration order; a note records its owner
/// as the slot number of the key that decrypted it. Removing a key empties its
/// slot, so no index is reused and the indices recorded on notes keep naming the
/// key they were scanned with. Only `reset` starts the numbering afresh.
pub struct OrchardWalletState {
    ivks: Vec<Option<[u8; 64]>>,
    notes: NoteRegistry,
    commitment_tree: CommitmentTree,
    last_checkpoint: Option<u32>,
    cmx_to_position: Vec<([u8; 32], u64)>,
}

impl OrchardWalletState {
    /// The key slots, in registration order; `None` marks a removed key.
    pub closed spec fn ivks(&self) -> Seq<Option<Seq<u8>>> {
        crate::scan::slots_view(self.ivks@)
    }

    /// The stored notes, in insertion order.
    pub closed spec fn notes(&self) -> Seq<DecryptedNote> {
        self.notes.notes()
    }

    /// The nullifier index entries, oldest first.
    pub closed spec fn index(&self) -> Seq<([u8; 32], NoteId)> {
        self.notes.index()
    }

    /// The identities of the notes marked spent.
    pub closed spec fn spent(&self) -> Set<(Seq<u8>, u32)> {
        self.notes.spent()
    }

    /// The commitment tree.
    pub closed spec fn tree(&self) -> CommitmentTree {
        self.commitment_tree
    }

    /// The commitments appended since the last scanned bundle, each with its position.
    pub closed spec fn staging(&self) -> Seq<([u8; 32], u64)> {
        self.cmx_to_position@
    }

    /// The ledger sequence of the latest checkpoint taken.
    pub closed spec fn last_checkpoint_seq(&self) -> Option<u32> {
        self.last_checkpoint
    }

    pub closed spec fn wf(&self) -> bool {
        &&& self.notes.wf()
        &&& self.commitment_tree.wf()
        &&& staging_committed(self.cmx_to_position@, self.commitment_tree.leaves())
        &&& forall|k: int|
            0 <= k < self.ivks@.len() && #[trigger] self.ivks@[k] is Some ==> is_ivk_encoding(
                self.ivks@[k].unwrap()@,
            )
        &&& notes_committed(self.notes.notes(), self.commitment_tree.leaves())
    }

    /// An empty wallet.
    pub fn new() -> (r: Self)
        ensures
            r.wf(),
            r.ivks() == Seq::<Option<Seq<u8>>>::empty(),
            r.notes() == Seq::<DecryptedNote>::empty(),
            r.index() == Seq::<([u8; 32], NoteId)>::empty(),
            r.spent() == Set::<(Seq<u8>, u32)>::empty(),
            r.tree().leaves() == Seq::<Seq<u8>>::empty(),
            r.tree().checkpoints() == Seq::<(u32, nat)>::empty(),
            r.staging() == Seq::<([u8; 32], u64)>::empty(),
            r.last_checkpoint_seq() is None,
    {
        let r = OrchardWalletState {
            ivks: Vec::new(),
            notes: NoteRegistry::new(),
            commitment_tree: CommitmentTree::new(),
            last_checkpoint: None,
            cmx_to_position: Vec::new(),
        };
        assert(r.ivks() =~= Seq::<Option<Seq<u8>>>::empty());
        r
    }

    /// Registers an incoming viewing key given as its raw encoding in a new slot;
    /// a key already registered is not added again. Fails with `Validation` on
    /// bytes that encode no key.
    pub fn add_ivk(&mut self, ivk: [u8; 64]) -> (r: Result<(), WalletError>)
        requires
            old(self).wf(),
        ensures
            final(self).wf(),
            !is_ivk_encoding(ivk@) ==> r == Err::<(), WalletError>(WalletError::Validation),
            !is_ivk_encoding(ivk@) ==> final(self).ivks() == old(self).ivks(),
            is_ivk_encoding(ivk@) ==> r is Ok && final(self).ivks() == if old(self).ivks().contains(
                Some(ivk@),
            ) {
                old(self).ivks()
            } else {
                old(self).ivks().push(Some(ivk@))
            },
            final(self).notes() == old(self).notes(),
            final(self).index() == old(self).index(),
            final(self).spent() == old(self).spent(),
            final(self).tree() == old(self).tree(),
            final(self).staging() == old(self).staging(),
            final(self).last_checkpoint_seq() == old(self).last_checkpoint_seq(),
    {
        let valid = ivk_bytes_valid(&ivk);
        if !valid {
            return Err(WalletError::Validation);
        }
        let mut i: usize = 0;
        while i < self.ivks.len()
            invariant
                i <= self.ivks@.len(),
                is_ivk_encoding(ivk@),
                self.wf(),
                *self == *old(self),
                forall|k: int| 0 <= k < i ==> #[trigger] self.ivks()[k] != Some(ivk@),
            decreases self.ivks@.len() - i,
        {
            let slot = self.ivks[i];
            assert(self.ivks()[i as int] == crate::scan::slot_view(slot));
            let hit = match slot {
                Some(x) => same_key(&x, &ivk),
                None => false,
            };
            if hit {
                assert(self.ivks()[i as int] == Some(ivk@));
                return Ok(());
            }
            assert(self.ivks()[i as int] != Some(ivk@));
            i = i + 1;
        }
        assert(!self.ivks().contains(Some(ivk@)));
        let ghost before = self.ivks@;
        self.ivks.push(Some(ivk));
        assert(self.ivks() =~= crate::scan::slots_view(before).push(Some(ivk@)));
        assert forall|k: int| 0 <= k < self.ivks@.len() && #[trigger] self.ivks@[k] is Some implies is_ivk_encoding(
            self.ivks@[k].unwrap()@,
        ) by {
            if k < before.len() {
                assert(self.ivks@[k] == before[k]);
            }
        }
        Ok(())
    }

    /// Unregisters `ivk`: every slot holding it is emptied, and no other slot moves.
    pub fn remove_ivk(&mut self, ivk: &[u8; 64])
        requires
            old(self).wf(),
        ensures
            final(self).wf(),
            final(self).ivks() == without_key(old(self).ivks(), ivk@),
            final(self).notes() == old(self).notes(),
            final(self).index() == old(self).index(),
            final(self).spent() == old(self).spent(),
            final(self).tree() == old(self).tree(),
            final(self).staging() == old(self).staging(),
            final(self).last_checkpoint_seq() == old(self).last_checkpoint_seq(),
    {
        let ghost keys = self.ivks();
        let mut i: usize = 0;
        while i < self.ivks.len()
            invariant
                i <= self.ivks@.len(),
                self.ivks@.len() == keys.len(),
                self.notes == old(self).notes,
                self.commitment_tree == old(self).commitment_tree,
                self.cmx_to_position == old(self).cmx_to_position,
                self.last_checkpoint == old(self).last_checkpoint,
                keys == old(self).ivks(),
                old(self).wf(),
                forall|k: int| 0 <= k < i ==> #[trigger] self.ivks()[k] == without_key(keys, ivk@)[k],
                forall|k: int| i <= k < self.ivks@.len() ==> #[trigger] self.ivks()[k] == keys[k],
                forall|k: int|
                    0 <= k < self.ivks@.len() && #[trigger] self.ivks@[k] is Some ==> is_ivk_encoding(
                        self.ivks@[k].unwrap()@,
                    ),
            decreases self.ivks@.len() - i,
        {
            let slot = self.ivks[i];
            assert(self.ivks()[i as int] == crate::scan::slot_view(slot));
            let hit = match slot {
                Some(x) => same_key(&x, ivk),
                None => false,
            };
            assert(hit == (keys[i as int] == Some(ivk@)));
            let ghost prev = self.ivks@;
            if hit {
                self.ivks.set(i, None);
            }
            assert forall|k: int| 0 <= k < self.ivks@.len() && k != i implies #[trigger] self.ivks()[k]
                == crate::scan::slots_view(prev)[k] by {
                assert(self.ivks@[k] == prev[k]);
            }
            assert(self.ivks()[i as int] == without_key(keys, ivk@)[i as int]);
            i = i + 1;
        }
        assert(self.ivks() =~= without_key(keys, ivk@));
    }

    /// The key slots in registration order: slot `i` holds the key whose index
    /// notes record as `i`, or `None` once that key was removed.
    pub fn list_ivks(&self) -> (r: &Vec<Option<[u8; 64]>>)
        ensures
            crate::scan::slots_view(r@) == self.ivks(),
    {
        &self.ivks
    }

    /// The commitment tree.
    pub fn commitment_tree(&self) -> (r: &CommitmentTree)
        ensures
            *r == self.tree(),
    {
        &self.commitment_tree
    }

    /// The position the staging map gives `cmx`.
    fn staging_position(&self, cmx: &[u8; 32]) -> (r: Option<u64>)
        ensures
            r == staging_lookup(self.staging(), cmx@),
    {
        let mut j: usize = self.cmx_to_position.len();
        assert(self.cmx_to_position@.take(j as int) =~= self.cmx_to_position@);
        while j > 0
            invariant
                j <= self.cmx_to_position@.len(),
                staging_lookup(self.cmx_to_position@, cmx@) == staging_lookup(
                    self.cmx_to_position@.take(j as int),
                    cmx@,
                ),
            decreases j,
        {
            assert(self.cmx_to_position@.take(j as int).drop_last() =~= self.cmx_to_position@.take(
                j - 1,
            ));
            if same_bytes(&self.cmx_to_position[j - 1].0, cmx) {
                return Some(self.cmx_to_position[j - 1].1);
            }
            j = j - 1;
        }
        None
    }

    /// Appends a commitment to the tree and stages its position for the next
    /// scanned bundle. Must be called for every commitment of the ledger, owned or
    /// not. Fails with `Validation` on a non-canonical commitment and `Capacity` on
    /// a full tree, changing nothing.
    pub fn append_commitment(&mut self, cmx: [u8; 32]) -> (r: Result<(), WalletError>)
        requires
            old(self).wf(),
        ensures
            final(self).wf(),
            ({
                let t = old(self).tree();
                &&& !crate::merkle::is_node_encoding(cmx@) ==> r == Err::<(), WalletError>(
                    WalletError::Validation,
                )
                &&& crate::merkle::is_node_encoding(cmx@) && t.size()
                    == crate::accumulator::LEAF_CAPACITY ==> r == Err::<(), WalletError>(
                    WalletError::Capacity,
                )
                &&& crate::merkle::is_node_encoding(cmx@) && t.size()
                    < crate::accumulator::LEAF_CAPACITY ==> r is Ok
            }),
            r is Ok ==> final(self).tree().leaves() == old(self).tree().leaves().push(cmx@)
                && final(self).staging() == old(self).staging().push(
                (cmx, old(self).tree().size() as u64),
            ),
            r is Err ==> final(self).tree().leaves() == old(self).tree().leaves()
                && final(self).staging() == old(self).staging(),
            final(self).tree().checkpoints() == old(self).tree().checkpoints(),
            final(self).ivks() == old(self).ivks(),
            final(self).notes() == old(self).notes(),
            final(self).index() == old(self).index(),
            final(self).spent() == old(self).spent(),
            final(self).last_checkpoint_seq() == old(self).last_checkpoint_seq(),
    {
        let ghost before = self.commitment_tree;
        let ghost staged = self.cmx_to_position@;
        match self.commitment_tree.append(&cmx) {
            Ok(p) => {
                assert(p == before.size());
                self.cmx_to_position.push((cmx, p));
                let ghost lv = self.commitment_tree.leaves();
                assert forall|k: int| 0 <= k < self.cmx_to_position@.len() implies #[trigger] self.cmx_to_position@[k].1
                    < lv.len() && lv[self.cmx_to_position@[k].1 as int] == self.cmx_to_position@[k].0@ by {
                    if k < staged.len() {
                        assert(self.cmx_to_position@[k] == staged[k]);
                        assert(lv[staged[k].1 as int] == before.leaves()[staged[k].1 as int]);
                    }
                }
                assert forall|i: int| 0 <= i < self.notes.notes().len() implies #[trigger] self.notes.notes()[i].position < lv.len()
                    && lv[self.notes.notes()[i].position as int] == self.notes.notes()[i].cmx@ by {
                    let q = self.notes.notes()[i].position as int;
                    assert(lv[q] == before.leaves()[q]);
                }
                Ok(())
            },
            Err(e) => {
                proof {
                    assert(self.commitment_tree.leaves() == before.leaves());
                }
                Err(e)
            },
        }
    }
}

impl OrchardWalletState {
    /// Records a decrypted note whose commitment was appended earlier in this
    /// bundle, at the position staged for that commitment. Fails with
    /// `StateConsistency`, changing nothing, when no position is staged for `cmx`.
    pub fn add_note(
        &mut self,
        note: NotePayload,
        cmx: [u8; 32],
        nullifier: [u8; 32],
        tx_hash: [u8; 32],
        action_idx: u32,
        ledger_seq: u32,
        anchor: [u8; 32],
        ivk_index: usize,
    ) -> (r: Result<(), WalletError>)
        requires
            old(self).wf(),
        ensures
            final(self).wf(),
            staging_lookup(old(self).staging(), cmx@) is None ==> r == Err::<(), WalletError>(
                WalletError::StateConsistency,
            ) && final(self).notes() == old(self).notes() && final(self).index() == old(
                self,
            ).index(),
            staging_lookup(old(self).staging(), cmx@) matches Some(pos) ==> r is Ok
                && final(self).notes() == upsert(
                old(self).notes(),
                (DecryptedNote {
                    note,
                    cmx,
                    nullifier,
                    amount: note.value,
                    ledger_seq,
                    tx_hash,
                    action_idx,
                    position: pos,
                    anchor,
                    ivk_index,
                }),
            ) && final(self).index() == old(self).index().push(
                (nullifier, (NoteId { tx_hash, action_idx })),
            ),
            final(self).spent() == old(self).spent(),
            final(self).ivks() == old(self).ivks(),
            final(self).tree() == old(self).tree(),
            final(self).staging() == old(self).staging(),
            final(self).last_checkpoint_seq() == old(self).last_checkpoint_seq(),
    {
        match self.staging_position(&cmx) {
            None => Err(WalletError::StateConsistency),
            Some(position) => {
                let n = DecryptedNote {
                    note,
                    cmx,
                    nullifier,
                    amount: note.value,
                    ledger_seq,
                    tx_hash,
                    action_idx,
                    position,
                    anchor,
                    ivk_index,
                };
                proof {
                    assert(staging_lookup(self.staging(), cmx@) == Some(position));
                    lemma_staging_bound(self.staging(), cmx@, self.commitment_tree.leaves());
                    lemma_upsert_committed(self.notes.notes(), n, self.commitment_tree.leaves());
                }
                self.notes.insert(n);
                Ok(())
            },
        }
    }

    /// Scans one bundle whose commitments have all been appended: each action is
    /// trial-decrypted with the registered keys in order, and the first key that
    /// succeeds owns the note, which is recorded with the action's commitment and
    /// nullifier, the position staged for its commitment and the current root.
    /// Returns how many notes were recorded. Fails with `StateConsistency` when an
    /// owned action has no staged position; notes recorded before stay. The
    /// staging map is empty afterwards in either case.
    pub fn try_decrypt_notes_from_bundle(
        &mut self,
        bundle: &Vec<ShieldedAction>,
        tx_hash: [u8; 32],
        ledger_seq: u32,
    ) -> (r: Result<usize, WalletError>)
        requires
            old(self).wf(),
            bundle@.len() <= u32::MAX,
        ensures
            final(self).wf(),
            ({
                let res = scan_from(
                    (old(self).notes(), old(self).index(), 0nat, false),
                    old(self).ivks(),
                    bundle@,
                    0,
                    old(self).staging(),
                    tx_hash,
                    ledger_seq,
                    merkle_root_bytes(old(self).tree().leaves()),
                );
                &&& final(self).notes() == res.0
                &&& final(self).index() == res.1
                &&& res.3 ==> r == Err::<usize, WalletError>(WalletError::StateConsistency)
                &&& !res.3 ==> r == Ok::<usize, WalletError>(res.2 as usize)
            }),
            final(self).staging() == Seq::<([u8; 32], u64)>::empty(),
            final(self).spent() == old(self).spent(),
            final(self).ivks() == old(self).ivks(),
            final(self).tree() == old(self).tree(),
            final(self).last_checkpoint_seq() == old(self).last_checkpoint_seq(),
    {
        let ghost keys = self.ivks();
        let ghost staged = self.staging();
        let ghost root = merkle_root_bytes(self.tree().leaves());
        proof {
            lemma_root_bytes(self.tree().leaves());
        }
        let ghost start = (self.notes(), self.index(), 0nat, false);
        let anchor = match self.commitment_tree.root(0) {
            Ok(h) => h,
            Err(_) => [0u8; 32],
        };
        let mut count: usize = 0;
        let mut i: usize = 0;
        while i < bundle.len()
            invariant
                self.wf(),
                i <= bundle@.len(),
                bundle@.len() <= u32::MAX,
                count <= i,
                keys == self.ivks(),
                staged == self.staging(),
                start == (old(self).notes(), old(self).index(), 0nat, false),
                root == merkle_root_bytes(self.tree().leaves()),
                root@ == merkle_root(self.tree().leaves()),
                self.tree() == old(self).tree(),
                self.ivks == old(self).ivks,
                self.cmx_to_position == old(self).cmx_to_position,
                self.last_checkpoint == old(self).last_checkpoint,
                self.spent() == old(self).spent(),
                self.tree().size() > 0 ==> anchor@ == root@,
                scan_from(start, keys, bundle@, 0, staged, tx_hash, ledger_seq, root) == scan_from(
                    (self.notes(), self.index(), count as nat, false),
                    keys,
                    bundle@,
                    i as nat,
                    staged,
                    tx_hash,
                    ledger_seq,
                    root,
                ),
            decreases bundle@.len() - i,
        {
            let a = &bundle[i];
            let ghost st = (self.notes(), self.index(), count as nat, false);
            match find_owner(&self.ivks, a) {
                None => {},
                Some((j, p)) => {
                    match self.staging_position(&a.cmx) {
                        None => {
                            proof {
                                let failed = (st.0, st.1, st.2, true);
                                assert(bundle@[i as int] == *a);
                                assert(scan_step(st, keys, *a, i as nat, staged, tx_hash, ledger_seq, root) == failed);
                                lemma_scan_failed_stays(failed, keys, bundle@, (i + 1) as nat, staged, tx_hash, ledger_seq, root);
                                assert(scan_from(st, keys, bundle@, i as nat, staged, tx_hash, ledger_seq, root)
                                    == scan_from(failed, keys, bundle@, (i + 1) as nat, staged, tx_hash, ledger_seq, root));
                            }
                            self.cmx_to_position.clear();
                            return Err(WalletError::StateConsistency);
                        },
                        Some(position) => {
                            proof {
                                assert(staged.len() > 0);
                                assert(staged[0].1 < self.tree().size());
                            }
                            let n = DecryptedNote {
                                note: p,
                                cmx: a.cmx,
                                nullifier: a.nullifier,
                                amount: p.value,
                                ledger_seq,
                                tx_hash,
                                action_idx: i as u32,
                                position,
                                anchor,
                                ivk_index: j,
                            };
                            proof {
                                let pv = crate::scan::decryption(keys[j as int].unwrap(), *a).unwrap();
                                assert(keys[j as int] == Some(self.ivks@[j as int].unwrap()@));
                                assert(anchor =~= root);
                                assert(n == scanned_note(*a, i as nat, j as nat, pv, position, tx_hash, ledger_seq, root));
                                lemma_staging_bound(staged, a.cmx@, self.commitment_tree.leaves());
                                lemma_upsert_committed(self.notes.notes(), n, self.commitment_tree.leaves());
                            }
                            self.notes.insert(n);
                            count = count + 1;
                        },
                    }
                },
            }
            i = i + 1;
        }
        self.cmx_to_position.clear();
        Ok(count)
    }

    /// Marks the note that `nullifier` belongs to as spent. An unknown nullifier
    /// changes nothing, and marking twice is the same as marking once.
    pub fn mark_spent(&mut self, nullifier: &[u8; 32])
        requires
            old(self).wf(),
        ensures
            final(self).wf(),
            final(self).spent() == spent_after(old(self).spent(), old(self).index(), nullifier@),
            final(self).notes() == old(self).notes(),
            final(self).index() == old(self).index(),
            final(self).ivks() == old(self).ivks(),
            final(self).tree() == old(self).tree(),
            final(self).staging() == old(self).staging(),
            final(self).last_checkpoint_seq() == old(self).last_checkpoint_seq(),
    {
        self.notes.mark_spent(nullifier);
    }

    /// The current anchor. Fails with `NotFound` while the tree is empty.
    pub fn get_anchor(&self) -> (r: Result<[u8; 32], WalletError>)
        requires
            self.wf(),
        ensures
            self.tree().size() == 0 ==> r == Err::<[u8; 32], WalletError>(WalletError::NotFound),
            self.tree().size() > 0 ==> r is Ok,
            r matches Ok(h) ==> h@ == merkle_root(self.tree().leaves()),
    {
        self.commitment_tree.root(0)
    }

    /// Sum of the amounts of the unspent notes, saturated at `u64::MAX`.
    pub fn get_balance(&self) -> (r: u64)
        ensures
            r as nat == if unspent_total(self.notes(), self.spent()) > u64::MAX {
                u64::MAX as nat
            } else {
                unspent_total(self.notes(), self.spent())
            },
    {
        self.notes.balance()
    }

    /// The notes in insertion order, spent ones only when `include_spent`.
    pub fn list_notes(&self, include_spent: bool) -> (r: Vec<DecryptedNote>)
        ensures
            r@ == listed(self.notes(), self.spent(), include_spent),
    {
        self.notes.list(include_spent)
    }

    /// The first note, in insertion order, with commitment `cmx`.
    pub fn get_note(&self, cmx: &[u8; 32]) -> (r: Option<DecryptedNote>)
        ensures
            r matches Some(n) ==> exists|i: int|
                0 <= i < self.notes().len() && self.notes()[i] == n && n.cmx@ == cmx@ && forall|
                    j: int,
                | 0 <= j < i ==> (#[trigger] self.notes()[j]).cmx@ != cmx@,
            r is None ==> forall|i: int|
                0 <= i < self.notes().len() ==> (#[trigger] self.notes()[i]).cmx@ != cmx@,
    {
        let r = self.notes.get(cmx);
        proof {
            if let Some(n) = r {
                let ns = self.notes.notes();
                let i = choose|i: int|
                    0 <= i < ns.len() && ns[i] == n && n.cmx@ == cmx@ && forall|j: int|
                        0 <= j < i ==> (#[trigger] ns[j]).cmx@ != cmx@;
                assert(self.notes()[i] == n);
                assert(forall|j: int| 0 <= j < i ==> (#[trigger] self.notes()[j]).cmx@ != cmx@);
            }
        }
        r
    }

    /// The unspent notes, smallest amount first, ties in insertion order.
    pub fn get_spendable_notes(&self) -> (r: Vec<DecryptedNote>)
        ensures
            r@ == sort_by_amount(eligible(self.notes(), self.spent(), None)),
    {
        let v = self.notes.eligible_notes(None);
        sort_notes_by_amount(&v)
    }

    /// Selects unspent notes (of key `owner` when given) smallest first until they
    /// cover `target`; fails with `InsufficientBalance` when they cannot.
    pub fn select_notes_for_owner(&self, target: u64, owner: Option<usize>) -> (r: Result<
        Vec<DecryptedNote>,
        WalletError,
    >)
        ensures
            match (r, selection(self.notes(), self.spent(), owner, target)) {
                (Ok(v), Ok(s)) => v@ == s,
                (Err(e), Err(f)) => e == f,
                _ => false,
            },
    {
        select_notes(&self.notes, target, owner)
    }

    /// The authentication path of `note` in the current tree. Fails with
    /// `StateConsistency` exactly when the tree does not hold its position. For a
    /// note of this wallet the path hashes its commitment up to the current anchor.
    pub fn get_merkle_path(&self, note: &DecryptedNote) -> (r: Result<Vec<[u8; 32]>, WalletError>)
        requires
            self.wf(),
        ensures
            note.position < self.tree().size() <==> r is Ok,
            r is Err ==> r == Err::<Vec<[u8; 32]>, WalletError>(WalletError::StateConsistency),
            r matches Ok(p) ==> hashes_view(p@) == auth_path(
                self.tree().leaves(),
                note.position as nat,
            ),
            r matches Ok(p) ==> (self.notes().contains(*note) ==> path_root(
                note.cmx@,
                note.position as nat,
                hashes_view(p@),
            ) == merkle_root(self.tree().leaves())),
    {
        let r = self.commitment_tree.witness(note.position, 0);
        proof {
            if r is Ok && self.notes().contains(*note) {
                self.lemma_note_round_trip(*note);
            }
        }
        r
    }

    /// A note of the wallet hashes up its authentication path to the current root.
    pub proof fn lemma_note_round_trip(&self, note: DecryptedNote)
        requires
            self.wf(),
            self.notes().contains(note),
        ensures
            note.position < self.tree().size(),
            self.tree().leaves()[note.position as int] == note.cmx@,
            path_root(note.cmx@, note.position as nat, auth_path(self.tree().leaves(), note.position as nat))
                == merkle_root(self.tree().leaves()),
    {
        let i = choose|i: int| 0 <= i < self.notes().len() && self.notes()[i] == note;
        assert(self.notes.notes()[i] == note);
        self.commitment_tree.lemma_wf_bounds();
        lemma2_to64();
        lemma_witness_round_trip(self.tree().leaves(), note.position as nat);
    }

    /// A well-formed wallet holds a well-formed tree; every stored note and every
    /// staged entry sits at a leaf holding its commitment.
    pub proof fn lemma_wf_parts(&self)
        requires
            self.wf(),
        ensures
            self.tree().wf(),
            notes_committed(self.notes(), self.tree().leaves()),
            staging_committed(self.staging(), self.tree().leaves()),
            crate::notes::unique_ids(self.notes()),
            crate::notes::index_names_notes(self.index(), self.notes()),
    {
        self.notes.lemma_wf_parts();
    }

    /// The anchor `depth` checkpoints back (depth 0: current). Fails with
    /// `NotFound` exactly when that state is not retained, or at depth 0 on an
    /// empty tree.
    pub fn root_at(&self, depth: usize) -> (r: Result<[u8; 32], WalletError>)
        requires
            self.wf(),
        ensures
            r is Ok <==> self.tree().has_depth(depth as nat) && !(depth == 0 && self.tree().size()
                == 0),
            r is Err ==> r == Err::<[u8; 32], WalletError>(WalletError::NotFound),
            r matches Ok(h) ==> h@ == merkle_root(self.tree().leaves_at_depth(depth as nat)),
    {
        self.commitment_tree.root(depth)
    }

    /// The authentication path of `position` in the tree state `depth` checkpoints
    /// back. Fails with `StateConsistency` exactly when that state is not retained
    /// or does not hold the position.
    pub fn witness_at(&self, position: u64, depth: usize) -> (r: Result<Vec<[u8; 32]>, WalletError>)
        requires
            self.wf(),
        ensures
            self.tree().has_depth(depth as nat) && position < self.tree().leaves_at_depth(
                depth as nat,
            ).len() <==> r is Ok,
            r is Err ==> r == Err::<Vec<[u8; 32]>, WalletError>(WalletError::StateConsistency),
            r matches Ok(p) ==> hashes_view(p@) == auth_path(
                self.tree().leaves_at_depth(depth as nat),
                position as nat,
            ),
    {
        self.commitment_tree.witness(position, depth)
    }

    /// The anchor to spend `note` against: the current root, whatever the note
    /// recorded when it was received. Fails with `StateConsistency` while the tree
    /// is empty.
    pub fn get_note_anchor(&self, note: &DecryptedNote) -> (r: Result<[u8; 32], WalletError>)
        requires
            self.wf(),
        ensures
            self.tree().size() == 0 ==> r == Err::<[u8; 32], WalletError>(
                WalletError::StateConsistency,
            ),
            self.tree().size() > 0 ==> r is Ok,
            r matches Ok(h) ==> h@ == merkle_root(self.tree().leaves()),
    {
        match self.commitment_tree.root(0) {
            Ok(h) => Ok(h),
            Err(_) => Err(WalletError::StateConsistency),
        }
    }

    /// Takes a checkpoint of the tree under `ledger_seq`, which must be above every
    /// retained checkpoint's; says whether it was taken.
    pub fn checkpoint(&mut self, ledger_seq: u32) -> (r: bool)
        requires
            old(self).wf(),
        ensures
            final(self).wf(),
            r == (old(self).tree().checkpoints().len() == 0 || old(
                self,
            ).tree().checkpoints().last().0 < ledger_seq),
            r ==> final(self).tree().checkpoints() == crate::accumulator::retain_last(
                old(self).tree().checkpoints().push((ledger_seq, old(self).tree().size())),
                crate::accumulator::MAX_CHECKPOINTS as nat,
            ) && final(self).last_checkpoint_seq() == Some(ledger_seq),
            !r ==> final(self).tree().checkpoints() == old(self).tree().checkpoints()
                && final(self).last_checkpoint_seq() == old(self).last_checkpoint_seq(),
            final(self).tree().leaves() == old(self).tree().leaves(),
            final(self).notes() == old(self).notes(),
            final(self).index() == old(self).index(),
            final(self).spent() == old(self).spent(),
            final(self).ivks() == old(self).ivks(),
            final(self).staging() == old(self).staging(),
    {
        let ok = self.commitment_tree.checkpoint(ledger_seq);
        if ok {
            self.last_checkpoint = Some(ledger_seq);
        }
        ok
    }

    /// The ledger sequence of the latest checkpoint taken.
    pub fn last_checkpoint(&self) -> (r: Option<u32>)
        ensures
            r == self.last_checkpoint_seq(),
    {
        self.last_checkpoint
    }

    /// Discards all state: the registered keys, the notes, the nullifier index,
    /// the spent set, the tree with its checkpoints and the staging map.
    pub fn reset(&mut self)
        requires
            old(self).wf(),
        ensures
            final(self).wf(),
            final(self).ivks() == Seq::<Option<Seq<u8>>>::empty(),
            final(self).notes() == Seq::<DecryptedNote>::empty(),
            final(self).index() == Seq::<([u8; 32], NoteId)>::empty(),
            final(self).spent() == Set::<(Seq<u8>, u32)>::empty(),
            final(self).tree().leaves() == Seq::<Seq<u8>>::empty(),
            final(self).tree().checkpoints() == Seq::<(u32, nat)>::empty(),
            final(self).staging() == Seq::<([u8; 32], u64)>::empty(),
            final(self).last_checkpoint_seq() is None,
    {
        *self = OrchardWalletState::new();
    }
}

impl OrchardWalletState {
    /// For the notes of one spend: the current anchor, shared by all of them, and
    /// each note's authentication path against it, in the order given. Fails with
    /// `StateConsistency` while the tree is empty and where a note's position is
    /// not in the tree or has no witness data.
    pub fn prepare_spend(&self, selected: &Vec<DecryptedNote>) -> (r: Result<
        ([u8; 32], Vec<Vec<[u8; 32]>>),
        WalletError,
    >)
        requires
            self.wf(),
        ensures
            self.tree().size() == 0 ==> r is Err,
            (exists|i: int|
                0 <= i < selected@.len() && #[trigger] selected@[i].position >= self.tree().size())
                ==> r is Err,
            self.tree().size() > 0 && (forall|i: int|
                0 <= i < selected@.len() ==> #[trigger] selected@[i].position < self.tree().size())
                ==> r is Ok,
            r matches Err(e) ==> e == WalletError::StateConsistency,
            r matches Ok((anchor, paths)) ==> forall|i: int|
                0 <= i < paths@.len() && self.notes().contains(#[trigger] selected@[i]) ==> path_root(
                    selected@[i].cmx@,
                    selected@[i].position as nat,
                    hashes_view(paths@[i]@),
                ) == anchor@,
            r matches Ok((anchor, paths)) ==> {
                &&& anchor@ == merkle_root(self.tree().leaves())
                &&& paths@.len() == selected@.len()
                &&& forall|i: int|
                    0 <= i < paths@.len() ==> hashes_view(#[trigger] paths@[i]@) == auth_path(
                        self.tree().leaves(),
                        selected@[i].position as nat,
                    )
            },
    {
        let anchor = match self.commitment_tree.root(0) {
            Ok(h) => h,
            Err(_) => {
                return Err(WalletError::StateConsistency);
            },
        };
        let mut paths: Vec<Vec<[u8; 32]>> = Vec::new();
        let mut i: usize = 0;
        while i < selected.len()
            invariant
                self.wf(),
                i <= selected@.len(),
                paths@.len() == i,
                forall|k: int| 0 <= k < i ==> #[trigger] selected@[k].position < self.tree().size(),
                forall|k: int|
                    0 <= k < i ==> hashes_view(#[trigger] paths@[k]@) == auth_path(
                        self.tree().leaves(),
                        selected@[k].position as nat,
                    ),
            decreases selected@.len() - i,
        {
            match self.commitment_tree.witness(selected[i].position, 0) {
                Ok(p) => {
                    paths.push(p);
                },
                Err(e) => {
                    return Err(e);
                },
            }
            i = i + 1;
        }
        proof {
            assert forall|k: int|
                0 <= k < paths@.len() && self.notes().contains(#[trigger] selected@[k]) implies path_root(
                selected@[k].cmx@,
                selected@[k].position as nat,
                hashes_view(paths@[k]@),
            ) == anchor@ by {
                self.lemma_note_round_trip(selected@[k]);
            }
        }
        Ok((anchor, paths))
    }
}

impl OrchardWalletState {
    /// The index of the first registered key equal to `k`.
    fn find_key(&self, k: &[u8; 64]) -> (r: Option<usize>)
        ensures
            match (r, key_index(self.ivks(), k@)) {
                (Some(j), Some(i)) => j == i,
                (None, None) => true,
                _ => false,
            },
    {
        let ghost keys = self.ivks();
        let mut j: usize = 0;
        while j < self.ivks.len()
            invariant
                j <= self.ivks@.len(),
                keys == self.ivks(),
                key_index(keys.take(j as int), k@) is None,
            decreases self.ivks@.len() - j,
        {
            assert(keys.take(j + 1).drop_last() =~= keys.take(j as int));
            let slot = self.ivks[j];
            assert(self.ivks()[j as int] == crate::scan::slot_view(slot));
            let hit = match slot {
                Some(x) => same_key(&x, k),
                None => false,
            };
            assert(hit == (keys[j as int] == Some(k@)));
            if hit {
                assert(key_index(keys.take(j + 1), k@) == Some(j as nat));
                proof {
                    lemma_key_index_prefix(keys, k@, j + 1);
                }
                return Some(j);
            }
            j = j + 1;
        }
        assert(keys.take(j as int) =~= keys);
        None
    }

    /// Selects notes for a spend of `target_amount`, smallest first. With a full
    /// viewing key only the notes of its external incoming viewing key count.
    /// Fails with `Validation` on bytes that encode no full viewing key, with
    /// `NotFound` when its key is not registered, and with `InsufficientBalance`
    /// when the eligible notes fall short.
    pub fn select_notes(&self, target_amount: u64, fvk: Option<&[u8; 96]>) -> (r: Result<
        Vec<DecryptedNote>,
        WalletError,
    >)
        ensures
            ({
                let expected = match fvk {
                    None => selection(self.notes(), self.spent(), None, target_amount),
                    Some(f) => match owner_of_fvk(self.ivks(), f@) {
                        Err(e) => Err(e),
                        Ok(j) => selection(self.notes(), self.spent(), Some(j), target_amount),
                    },
                };
                match (r, expected) {
                    (Ok(v), Ok(s)) => v@ == s,
                    (Err(e), Err(f)) => e == f,
                    _ => false,
                }
            }),
    {
        match fvk {
            None => self.select_notes_for_owner(target_amount, None),
            Some(f) => match derive_external_ivk(f) {
                None => Err(WalletError::Validation),
                Some(k) => match self.find_key(&k) {
                    None => Err(WalletError::NotFound),
                    Some(j) => self.select_notes_for_owner(target_amount, Some(j)),
                },
            },
        }
    }
}

/// The staging entries that appending the commitments of `bundle` to a tree of
/// `base` leaves produces.
pub open spec fn bundle_staging(bundle: Seq<ShieldedAction>, base: nat) -> Seq<([u8; 32], u64)> {
    Seq::new(bundle.len(), |i: int| (bundle[i].cmx, (base + i) as u64))
}

/// The commitments of `bundle` as tree leaves.
pub open spec fn bundle_leaves(bundle: Seq<ShieldedAction>) -> Seq<Seq<u8>> {
    bundle.map_values(|a: ShieldedAction| a.cmx@)
}

impl OrchardWalletState {
    /// Ingests one bundle: appends every action's commitment to the tree, then
    /// scans the actions as `try_decrypt_notes_from_bundle` does, with positions
    /// staged for this bundle alone. Returns how many notes were recorded. When a
    /// commitment cannot be appended (`Validation`, `Capacity`) the ones before it
    /// stay appended and nothing is scanned. The staging map is empty afterwards.
    pub fn ingest_bundle(&mut self, bundle: &Vec<ShieldedAction>, tx_hash: [u8; 32], ledger_seq: u32) -> (r:
        Result<usize, WalletError>)
        requires
            old(self).wf(),
            bundle@.len() <= u32::MAX,
        ensures
            final(self).wf(),
            final(self).staging() == Seq::<([u8; 32], u64)>::empty(),
            final(self).ivks() == old(self).ivks(),
            final(self).spent() == old(self).spent(),
            final(self).tree().checkpoints() == old(self).tree().checkpoints(),
            final(self).last_checkpoint_seq() == old(self).last_checkpoint_seq(),
            (exists|k: int|
                0 <= k < bundle@.len() && !crate::merkle::is_node_encoding(
                    #[trigger] bundle@[k].cmx@,
                )) || old(self).tree().size() + bundle@.len() > crate::accumulator::LEAF_CAPACITY
                ==> r is Err && final(self).notes() == old(self).notes(),
            r matches Err(e) && (e == WalletError::Validation || e == WalletError::Capacity) ==> exists|
                k: int,
            |
                0 <= k < bundle@.len() && final(self).tree().leaves() == old(self).tree().leaves()
                    + bundle_leaves(bundle@.take(k)) && final(self).notes() == old(self).notes(),
            ({
                let leaves = old(self).tree().leaves() + bundle_leaves(bundle@);
                let res = scan_from(
                    (old(self).notes(), old(self).index(), 0nat, false),
                    old(self).ivks(),
                    bundle@,
                    0,
                    bundle_staging(bundle@, old(self).tree().size()),
                    tx_hash,
                    ledger_seq,
                    merkle_root_bytes(leaves),
                );
                (forall|k: int|
                    0 <= k < bundle@.len() ==> crate::merkle::is_node_encoding(
                        #[trigger] bundle@[k].cmx@,
                    )) && old(self).tree().size() + bundle@.len() <= crate::accumulator::LEAF_CAPACITY
                    ==> {
                    &&& final(self).tree().leaves() == leaves
                    &&& final(self).notes() == res.0
                    &&& final(self).index() == res.1
                    &&& res.3 ==> r == Err::<usize, WalletError>(WalletError::StateConsistency)
                    &&& !res.3 ==> r == Ok::<usize, WalletError>(res.2 as usize)
                }
            }),
    {
        self.cmx_to_position.clear();
        let ghost base = self.tree().size();
        let ghost start_leaves = self.tree().leaves();
        proof {
            self.commitment_tree.lemma_wf_bounds();
        }
        let mut i: usize = 0;
        while i < bundle.len()
            invariant
                self.wf(),
                i <= bundle@.len(),
                bundle@.len() <= u32::MAX,
                base == old(self).tree().size(),
                start_leaves == old(self).tree().leaves(),
                forall|k: int|
                    0 <= k < i ==> crate::merkle::is_node_encoding(#[trigger] bundle@[k].cmx@),
                base + i <= crate::accumulator::LEAF_CAPACITY,
                self.tree().leaves() == start_leaves + bundle_leaves(bundle@.take(i as int)),
                self.staging() == bundle_staging(bundle@.take(i as int), base),
                self.ivks() == old(self).ivks(),
                self.notes() == old(self).notes(),
                self.index() == old(self).index(),
                self.spent() == old(self).spent(),
                self.tree().checkpoints() == old(self).tree().checkpoints(),
                self.last_checkpoint_seq() == old(self).last_checkpoint_seq(),
            decreases bundle@.len() - i,
        {
            let ghost before = self.staging();
            match self.append_commitment(bundle[i].cmx) {
                Ok(()) => {},
                Err(e) => {
                    self.cmx_to_position.clear();
                    return Err(e);
                },
            }
            proof {
                self.commitment_tree.lemma_wf_bounds();
            }
            assert(bundle_leaves(bundle@.take(i + 1)) =~= bundle_leaves(bundle@.take(i as int)).push(
                bundle@[i as int].cmx@,
            ));
            assert(self.staging() =~= bundle_staging(bundle@.take(i + 1), base));
            i = i + 1;
        }
        assert(bundle@.take(bundle@.len() as int) =~= bundle@);
        self.try_decrypt_notes_from_bundle(bundle, tx_hash, ledger_seq)
    }
}

/// A note is recorded only at a position its commitment already holds in the
/// tree, and appending keeps it so: every stored note's position is below the
/// tree's leaf count, and the leaf there is the note's commitment.
pub proof fn lemma_notes_committed(w: &OrchardWalletState)
    requires
        w.wf(),
    ensures
        forall|i: int| 0 <= i < w.notes().len() ==> #[trigger] w.notes()[i].position < w.tree().size(),
        notes_committed(w.notes(), w.tree().leaves()),
{
}

impl Default for OrchardWalletState {
    fn default() -> (r: Self)
        ensures
            r.wf(),
            r.ivks() == Seq::<Option<Seq<u8>>>::empty(),
            r.notes() == Seq::<DecryptedNote>::empty(),
            r.tree().leaves() == Seq::<Seq<u8>>::empty(),
            r.last_checkpoint_seq() is None,
    {
        OrchardWalletState::new()
    }
}

} // verus!

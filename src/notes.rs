//! The note registry: decrypted notes keyed by (transaction, action), the
//! nullifier index and the set of spent notes.

use vstd::prelude::*;

verus! {

/// Whether two 32-byte strings are equal.
pub fn same_bytes(a: &[u8; 32], b: &[u8; 32]) -> (r: bool)
    ensures
        r == (a@ == b@),
{
    let mut i: usize = 0;
    while i < 32
        invariant
            i <= 32,
            a@.len() == 32,
            b@.len() == 32,
            forall|k: int| 0 <= k < i ==> a@[k] == b@[k],
        decreases 32 - i,
    {
        if a[i] != b[i] {
            return false;
        }
        i = i + 1;
    }
    assert(a@ =~= b@);
    true
}

/// Identity of a note: the transaction that created it and the index of the
/// action within that transaction.
#[derive(Clone, Copy, Debug)]
pub struct NoteId {
    pub tx_hash: [u8; 32],
    pub action_idx: u32,
}

impl View for NoteId {
    type V = (Seq<u8>, u32);

    open spec fn view(&self) -> (Seq<u8>, u32) {
        (self.tx_hash@, self.action_idx)
    }
}

impl NoteId {
    /// Whether two identities are equal.
    pub fn same(&self, other: &NoteId) -> (r: bool)
        ensures
            r == (self@ == other@),
    {
        self.action_idx == other.action_idx && same_bytes(&self.tx_hash, &other.tx_hash)
    }
}

/// The plaintext of a decrypted note: recipient address, value, `rho` and the
/// random seed, enough to rebuild the note for spending.
#[derive(Clone, Copy, Debug)]
pub struct NotePayload {
    pub recipient: [u8; 43],
    pub value: u64,
    pub rho: [u8; 32],
    pub rseed: [u8; 32],
}

impl View for NotePayload {
    type V = (Seq<u8>, u64, Seq<u8>, Seq<u8>);

    open spec fn view(&self) -> (Seq<u8>, u64, Seq<u8>, Seq<u8>) {
        (self.recipient@, self.value, self.rho@, self.rseed@)
    }
}

/// A note owned by one of the wallet's viewing keys, with what spending it needs.
#[derive(Clone, Copy, Debug)]
pub struct DecryptedNote {
    /// The note plaintext.
    pub note: NotePayload,
    /// The note commitment, the note's leaf in the commitment tree.
    pub cmx: [u8; 32],
    /// The nullifier that marks the note as spent.
    pub nullifier: [u8; 32],
    /// The value of the note.
    pub amount: u64,
    /// Ledger sequence in which the note was received.
    pub ledger_seq: u32,
    /// Transaction that created the note.
    pub tx_hash: [u8; 32],
    /// Index of the action within that transaction.
    pub action_idx: u32,
    /// Position of the commitment in the tree.
    pub position: u64,
    /// Tree root when the note was recorded; informational only.
    pub anchor: [u8; 32],
    /// Index, in key registration order, of the viewing key that decrypted it.
    pub ivk_index: usize,
}

impl DecryptedNote {
    pub open spec fn id(&self) -> (Seq<u8>, u32) {
        (self.tx_hash@, self.action_idx)
    }

    /// The identity of this note.
    pub fn note_id(&self) -> (r: NoteId)
        ensures
            r@ == self.id(),
            r == self.note_id_spec(),
    {
        NoteId { tx_hash: self.tx_hash, action_idx: self.action_idx }
    }
}

/// Whether some note of `notes` has identity `id`.
pub open spec fn has_id(notes: Seq<DecryptedNote>, id: (Seq<u8>, u32)) -> bool {
    exists|i: int| 0 <= i < notes.len() && #[trigger] notes[i].id() == id
}

/// `notes` with `n` stored: in place of the note with the same identity, or
/// after all others.
pub open spec fn upsert(notes: Seq<DecryptedNote>, n: DecryptedNote) -> Seq<DecryptedNote> {
    if has_id(notes, n.id()) {
        notes.update(choose|i: int| 0 <= i < notes.len() && #[trigger] notes[i].id() == n.id(), n)
    } else {
        notes.push(n)
    }
}

/// No two notes share an identity.
pub open spec fn unique_ids(notes: Seq<DecryptedNote>) -> bool {
    forall|i: int, j: int|
        0 <= i < notes.len() && 0 <= j < notes.len() && i != j ==> #[trigger] notes[i].id()
            != #[trigger] notes[j].id()
}

/// Every entry of the nullifier index names a note of `notes`.
pub open spec fn index_names_notes(entries: Seq<([u8; 32], NoteId)>, notes: Seq<DecryptedNote>) -> bool {
    forall|k: int| 0 <= k < entries.len() ==> has_id(notes, #[trigger] entries[k].1@)
}

proof fn lemma_upsert_keeps_ids(notes: Seq<DecryptedNote>, n: DecryptedNote, id: (Seq<u8>, u32))
    requires
        has_id(notes, id) || id == n.id(),
    ensures
        has_id(upsert(notes, n), id),
{
    let u = upsert(notes, n);
    if id == n.id() {
        if has_id(notes, n.id()) {
            let c = choose|i: int| 0 <= i < notes.len() && #[trigger] notes[i].id() == n.id();
            assert(u[c].id() == id);
        } else {
            assert(u[notes.len() as int].id() == id);
        }
    } else {
        let w = choose|i: int| 0 <= i < notes.len() && #[trigger] notes[i].id() == id;
        assert(u[w].id() == id);
    }
}

proof fn lemma_index_after_insert(
    entries: Seq<([u8; 32], NoteId)>,
    notes: Seq<DecryptedNote>,
    n: DecryptedNote,
)
    requires
        index_names_notes(entries, notes),
    ensures
        index_names_notes(entries.push((n.nullifier, n.note_id_spec())), upsert(notes, n)),
{
    let e = entries.push((n.nullifier, n.note_id_spec()));
    assert forall|k: int| 0 <= k < e.len() implies has_id(upsert(notes, n), #[trigger] e[k].1@) by {
        if k < entries.len() {
            assert(e[k] == entries[k]);
            lemma_upsert_keeps_ids(notes, n, entries[k].1@);
        } else {
            lemma_upsert_keeps_ids(notes, n, n.id());
        }
    }
}

/// The identity the nullifier index gives `nf`: its latest entry.
pub open spec fn index_lookup(entries: Seq<([u8; 32], NoteId)>, nf: Seq<u8>) -> Option<
    (Seq<u8>, u32),
>
    decreases entries.len(),
{
    if entries.len() == 0 {
        None
    } else if entries.last().0@ == nf {
        Some(entries.last().1@)
    } else {
        index_lookup(entries.drop_last(), nf)
    }
}

/// Whether the note with identity `id` counts as spent under `spent`.
pub open spec fn is_spent(spent: Set<(Seq<u8>, u32)>, n: DecryptedNote) -> bool {
    spent.contains(n.id())
}

/// The notes of `notes` that `list_notes` reports, in order.
pub open spec fn listed(notes: Seq<DecryptedNote>, spent: Set<(Seq<u8>, u32)>, include_spent: bool) -> Seq<
    DecryptedNote,
>
    decreases notes.len(),
{
    if notes.len() == 0 {
        Seq::empty()
    } else {
        let prev = listed(notes.drop_last(), spent, include_spent);
        if include_spent || !is_spent(spent, notes.last()) {
            prev.push(notes.last())
        } else {
            prev
        }
    }
}

/// Sum of the amounts of the unspent notes.
pub open spec fn unspent_total(notes: Seq<DecryptedNote>, spent: Set<(Seq<u8>, u32)>) -> nat
    decreases notes.len(),
{
    if notes.len() == 0 {
        0
    } else {
        unspent_total(notes.drop_last(), spent) + if is_spent(spent, notes.last()) {
            0nat
        } else {
            notes.last().amount as nat
        }
    }
}

/// The spent set after marking `nf` spent: the note the index gives it joins the set.
pub open spec fn spent_after(
    spent: Set<(Seq<u8>, u32)>,
    entries: Seq<([u8; 32], NoteId)>,
    nf: Seq<u8>,
) -> Set<(Seq<u8>, u32)> {
    match index_lookup(entries, nf) {
        Some(id) => spent.insert(id),
        None => spent,
    }
}

/// Whether `n` may be selected: unspent, and owned by key `owner` when one is given.
pub open spec fn is_eligible(spent: Set<(Seq<u8>, u32)>, owner: Option<usize>, n: DecryptedNote) -> bool {
    !is_spent(spent, n) && match owner {
        Some(k) => n.ivk_index == k,
        None => true,
    }
}

/// The notes of `notes` that coin selection may use, in order.
pub open spec fn eligible(notes: Seq<DecryptedNote>, spent: Set<(Seq<u8>, u32)>, owner: Option<usize>) -> Seq<
    DecryptedNote,
>
    decreases notes.len(),
{
    if notes.len() == 0 {
        Seq::empty()
    } else {
        let prev = eligible(notes.drop_last(), spent, owner);
        if is_eligible(spent, owner, notes.last()) {
            prev.push(notes.last())
        } else {
            prev
        }
    }
}

/// Decrypted notes in insertion order, the nullifier index and the spent set.
pub struct NoteRegistry {
    notes: Vec<DecryptedNote>,
    nullifiers: Vec<([u8; 32], NoteId)>,
    spent: Vec<NoteId>,
}

impl NoteRegistry {
    /// The stored notes, in the order they were first inserted.
    pub closed spec fn notes(&self) -> Seq<DecryptedNote> {
        self.notes@
    }

    /// The entries of the nullifier index, oldest first; a later entry for a
    /// nullifier overrides an earlier one.
    pub closed spec fn index(&self) -> Seq<([u8; 32], NoteId)> {
        self.nullifiers@
    }

    /// The identities marked spent.
    pub closed spec fn spent(&self) -> Set<(Seq<u8>, u32)> {
        self.spent@.map_values(|n: NoteId| n@).to_set()
    }

    pub closed spec fn wf(&self) -> bool {
        &&& unique_ids(self.notes@)
        &&& index_names_notes(self.nullifiers@, self.notes@)
    }

    /// In a well-formed registry no two notes share an identity and every
    /// nullifier index entry names a stored note.
    pub proof fn lemma_wf_parts(&self)
        requires
            self.wf(),
        ensures
            unique_ids(self.notes()),
            index_names_notes(self.index(), self.notes()),
    {
    }

    /// An empty registry.
    pub fn new() -> (r: Self)
        ensures
            r.wf(),
            r.notes() == Seq::<DecryptedNote>::empty(),
            r.index() == Seq::<([u8; 32], NoteId)>::empty(),
            r.spent() == Set::<(Seq<u8>, u32)>::empty(),
    {
        let r = NoteRegistry { notes: Vec::new(), nullifiers: Vec::new(), spent: Vec::new() };
        assert(r.spent() =~= Set::<(Seq<u8>, u32)>::empty());
        r
    }

    /// Stores `note` (replacing the note of the same identity, if any) and points
    /// its nullifier at it.
    pub fn insert(&mut self, note: DecryptedNote)
        requires
            old(self).wf(),
        ensures
            final(self).wf(),
            final(self).notes() == upsert(old(self).notes(), note),
            final(self).index() == old(self).index().push((note.nullifier, note.note_id_spec())),
            final(self).spent() == old(self).spent(),
    {
        let mut i: usize = 0;
        let id = note.note_id();
        proof {
            lemma_index_after_insert(self.nullifiers@, self.notes@, note);
        }
        while i < self.notes.len()
            invariant
                i <= self.notes@.len(),
                self.notes@ == old(self).notes@,
                self.nullifiers@ == old(self).nullifiers@,
                self.spent@ == old(self).spent@,
                id@ == note.id(),
                id == note.note_id_spec(),
                unique_ids(self.notes@),
                index_names_notes(
                    self.nullifiers@.push((note.nullifier, note.note_id_spec())),
                    upsert(self.notes@, note),
                ),
                forall|k: int| 0 <= k < i ==> #[trigger] self.notes@[k].id() != note.id(),
            decreases self.notes@.len() - i,
        {
            if self.notes[i].note_id().same(&id) {
                let ghost chosen = choose|k: int|
                    0 <= k < self.notes@.len() && #[trigger] self.notes@[k].id() == note.id();
                assert(has_id(self.notes@, note.id()));
                assert(chosen == i as int);
                let ghost before = self.notes@;
                self.notes.set(i, note);
                self.nullifiers.push((note.nullifier, id));
                assert forall|a: int, b: int|
                    0 <= a < self.notes@.len() && 0 <= b < self.notes@.len() && a != b implies #[trigger] self.notes@[a].id()
                        != #[trigger] self.notes@[b].id() by {
                    if a == i as int {
                        assert(before[b].id() != before[i as int].id());
                    } else if b == i as int {
                        assert(before[a].id() != before[i as int].id());
                    } else {
                        assert(before[a].id() != before[b].id());
                    }
                }
                return;
            }
            i = i + 1;
        }
        assert(!has_id(self.notes@, note.id()));
        let ghost before = self.notes@;
        self.notes.push(note);
        self.nullifiers.push((note.nullifier, id));
        assert forall|a: int, b: int|
            0 <= a < self.notes@.len() && 0 <= b < self.notes@.len() && a != b implies #[trigger] self.notes@[a].id()
                != #[trigger] self.notes@[b].id() by {
            if a < before.len() && b < before.len() {
                assert(before[a].id() != before[b].id());
            } else if a < before.len() {
                assert(before[a].id() != note.id());
            } else {
                assert(before[b].id() != note.id());
            }
        }
    }
}

impl NoteRegistry {
    /// Whether the note with identity `id` is marked spent.
    pub fn is_spent_id(&self, id: &NoteId) -> (r: bool)
        ensures
            r == self.spent().contains(id@),
    {
        let mut i: usize = 0;
        while i < self.spent.len()
            invariant
                i <= self.spent@.len(),
                forall|k: int| 0 <= k < i ==> #[trigger] self.spent@[k]@ != id@,
            decreases self.spent@.len() - i,
        {
            if self.spent[i].same(id) {
                assert(self.spent@.map_values(|n: NoteId| n@)[i as int] == id@);
                return true;
            }
            i = i + 1;
        }
        assert(!self.spent@.map_values(|n: NoteId| n@).contains(id@));
        false
    }

    /// The note identity the nullifier index gives `nf`, if any.
    pub fn lookup_nullifier(&self, nf: &[u8; 32]) -> (r: Option<NoteId>)
        ensures
            r matches Some(id) ==> index_lookup(self.index(), nf@) == Some(id@),
            r is None ==> index_lookup(self.index(), nf@) is None,
    {
        let mut j: usize = self.nullifiers.len();
        assert(self.nullifiers@.take(j as int) =~= self.nullifiers@);
        while j > 0
            invariant
                j <= self.nullifiers@.len(),
                index_lookup(self.nullifiers@, nf@) == index_lookup(
                    self.nullifiers@.take(j as int),
                    nf@,
                ),
            decreases j,
        {
            let ghost pre = self.nullifiers@.take(j as int);
            assert(pre.drop_last() =~= self.nullifiers@.take(j - 1));
            if same_bytes(&self.nullifiers[j - 1].0, nf) {
                return Some(self.nullifiers[j - 1].1);
            }
            j = j - 1;
        }
        None
    }

    /// Marks the note that `nf` belongs to as spent; an unknown nullifier changes
    /// nothing.
    pub fn mark_spent(&mut self, nf: &[u8; 32])
        requires
            old(self).wf(),
        ensures
            final(self).wf(),
            final(self).notes() == old(self).notes(),
            final(self).index() == old(self).index(),
            final(self).spent() == spent_after(old(self).spent(), old(self).index(), nf@),
    {
        match self.lookup_nullifier(nf) {
            None => {},
            Some(id) => {
                if !self.is_spent_id(&id) {
                    let ghost before = self.spent@;
                    self.spent.push(id);
                    let ghost ms = before.map_values(|n: NoteId| n@);
                    let ghost ns = self.spent@.map_values(|n: NoteId| n@);
                    assert(ns =~= ms.push(id@));
                    assert forall|a: (Seq<u8>, u32)| ns.contains(a) <==> (ms.contains(a) || a == id@) by {
                        if ns.contains(a) {
                            let k = choose|k: int| 0 <= k < ns.len() && ns[k] == a;
                            if k < ms.len() {
                                assert(ms[k] == a);
                            }
                        }
                        if ms.contains(a) {
                            let k = choose|k: int| 0 <= k < ms.len() && ms[k] == a;
                            assert(ns[k] == a);
                        }
                        if a == id@ {
                            assert(ns[ms.len() as int] == a);
                        }
                    }
                    assert(self.spent() =~= ms.to_set().insert(id@));
                } else {
                    assert(self.spent() =~= self.spent().insert(id@));
                }
            },
        }
    }

    /// The notes in insertion order, leaving out spent ones unless `include_spent`.
    pub fn list(&self, include_spent: bool) -> (r: Vec<DecryptedNote>)
        ensures
            r@ == listed(self.notes(), self.spent(), include_spent),
    {
        let mut out: Vec<DecryptedNote> = Vec::new();
        let mut i: usize = 0;
        while i < self.notes.len()
            invariant
                i <= self.notes@.len(),
                out@ == listed(self.notes@.take(i as int), self.spent(), include_spent),
            decreases self.notes@.len() - i,
        {
            let n = self.notes[i];
            assert(self.notes@.take(i + 1).drop_last() =~= self.notes@.take(i as int));
            if include_spent || !self.is_spent_id(&n.note_id()) {
                out.push(n);
            }
            i = i + 1;
        }
        assert(self.notes@.take(self.notes@.len() as int) =~= self.notes@);
        out
    }

    /// Sum of the amounts of the unspent notes, saturated at `u64::MAX`.
    pub fn balance(&self) -> (r: u64)
        ensures
            r as nat == if unspent_total(self.notes(), self.spent()) > u64::MAX {
                u64::MAX as nat
            } else {
                unspent_total(self.notes(), self.spent())
            },
    {
        let mut total: u64 = 0;
        let mut i: usize = 0;
        while i < self.notes.len()
            invariant
                i <= self.notes@.len(),
                total as nat == if unspent_total(self.notes@.take(i as int), self.spent())
                    > u64::MAX {
                    u64::MAX as nat
                } else {
                    unspent_total(self.notes@.take(i as int), self.spent())
                },
            decreases self.notes@.len() - i,
        {
            let n = self.notes[i];
            assert(self.notes@.take(i + 1).drop_last() =~= self.notes@.take(i as int));
            if !self.is_spent_id(&n.note_id()) {
                total = total.saturating_add(n.amount);
            }
            i = i + 1;
        }
        assert(self.notes@.take(self.notes@.len() as int) =~= self.notes@);
        total
    }

    /// The first note, in insertion order, whose commitment is `cmx`.
    pub fn get(&self, cmx: &[u8; 32]) -> (r: Option<DecryptedNote>)
        ensures
            r matches Some(n) ==> exists|i: int|
                0 <= i < self.notes().len() && self.notes()[i] == n && n.cmx@ == cmx@ && forall|
                    j: int,
                | 0 <= j < i ==> (#[trigger] self.notes()[j]).cmx@ != cmx@,
            r is None ==> forall|i: int|
                0 <= i < self.notes().len() ==> (#[trigger] self.notes()[i]).cmx@ != cmx@,
    {
        let mut i: usize = 0;
        while i < self.notes.len()
            invariant
                i <= self.notes@.len(),
                forall|j: int| 0 <= j < i ==> (#[trigger] self.notes@[j]).cmx@ != cmx@,
            decreases self.notes@.len() - i,
        {
            if same_bytes(&self.notes[i].cmx, cmx) {
                let n = self.notes[i];
                assert(self.notes@[i as int] == n);
                assert(self.notes() == self.notes@);
                assert(forall|j: int| 0 <= j < i ==> (#[trigger] self.notes()[j]).cmx@ != cmx@);
                return Some(n);
            }
            i = i + 1;
        }
        None
    }

    /// Drops every note, index entry and spent mark.
    pub fn clear(&mut self)
        ensures
            final(self).wf(),
            final(self).notes() == Seq::<DecryptedNote>::empty(),
            final(self).index() == Seq::<([u8; 32], NoteId)>::empty(),
            final(self).spent() == Set::<(Seq<u8>, u32)>::empty(),
    {
        *self = NoteRegistry::new();
    }
}

impl NoteRegistry {
    /// The notes that coin selection may use, in insertion order.
    pub fn eligible_notes(&self, owner: Option<usize>) -> (r: Vec<DecryptedNote>)
        ensures
            r@ == eligible(self.notes(), self.spent(), owner),
    {
        let mut out: Vec<DecryptedNote> = Vec::new();
        let mut i: usize = 0;
        while i < self.notes.len()
            invariant
                i <= self.notes@.len(),
                out@ == eligible(self.notes@.take(i as int), self.spent(), owner),
            decreases self.notes@.len() - i,
        {
            let n = self.notes[i];
            assert(self.notes@.take(i + 1).drop_last() =~= self.notes@.take(i as int));
            let owned = match owner {
                Some(k) => n.ivk_index == k,
                None => true,
            };
            if owned && !self.is_spent_id(&n.note_id()) {
                out.push(n);
            }
            i = i + 1;
        }
        assert(self.notes@.take(self.notes@.len() as int) =~= self.notes@);
        out
    }
}

impl DecryptedNote {
    pub open spec fn note_id_spec(&self) -> NoteId {
        NoteId { tx_hash: self.tx_hash, action_idx: self.action_idx }
    }
}

/// Marking a nullifier spent a second time leaves the spent set as the first
/// marking left it.
pub proof fn lemma_mark_spent_idempotent(
    spent: Set<(Seq<u8>, u32)>,
    index: Seq<([u8; 32], NoteId)>,
    nf: Seq<u8>,
)
    ensures
        spent_after(spent_after(spent, index, nf), index, nf) == spent_after(spent, index, nf),
{
    match index_lookup(index, nf) {
        Some(id) => {
            assert(spent.insert(id).insert(id) =~= spent.insert(id));
        },
        None => {},
    }
}

/// Marking a nullifier spent never removes a note from the spent set.
pub proof fn lemma_mark_spent_monotone(
    spent: Set<(Seq<u8>, u32)>,
    index: Seq<([u8; 32], NoteId)>,
    nf: Seq<u8>,
)
    ensures
        spent.subset_of(spent_after(spent, index, nf)),
{
}

} // verus!

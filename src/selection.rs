//! Coin selection: smallest notes first until the target is covered.

use crate::error::WalletError;
use crate::notes::{eligible, DecryptedNote, NoteRegistry};
use vstd::prelude::*;

verus! {

/// `sorted` with `x` placed after every note whose amount is at most its own.
pub open spec fn insert_by_amount(sorted: Seq<DecryptedNote>, x: DecryptedNote) -> Seq<
    DecryptedNote,
>
    decreases sorted.len(),
{
    if sorted.len() == 0 {
        seq![x]
    } else if sorted.last().amount <= x.amount {
        sorted.push(x)
    } else {
        insert_by_amount(sorted.drop_last(), x).push(sorted.last())
    }
}

/// `s` ordered by ascending amount; notes of equal amount keep their order in `s`.
pub open spec fn sort_by_amount(s: Seq<DecryptedNote>) -> Seq<DecryptedNote>
    decreases s.len(),
{
    if s.len() == 0 {
        Seq::empty()
    } else {
        insert_by_amount(sort_by_amount(s.drop_last()), s.last())
    }
}

/// Sum of the amounts of `s`.
pub open spec fn amount_sum(s: Seq<DecryptedNote>) -> nat
    decreases s.len(),
{
    if s.len() == 0 {
        0
    } else {
        amount_sum(s.drop_last()) + s.last().amount as nat
    }
}

/// The least `k` from `from` on at which the first `k` notes of `s` sum to at
/// least `target`, or the length of `s` where none does.
pub open spec fn cover_from(s: Seq<DecryptedNote>, target: nat, from: nat) -> nat
    decreases s.len() - from,
{
    if from >= s.len() || amount_sum(s.take(from as int)) >= target {
        from
    } else {
        cover_from(s, target, from + 1)
    }
}

/// What selection returns for `target` over the given notes: the shortest prefix of
/// the eligible notes, smallest first, that covers the target; or the shortfall.
pub open spec fn selection(
    notes: Seq<DecryptedNote>,
    spent: Set<(Seq<u8>, u32)>,
    owner: Option<usize>,
    target: u64,
) -> Result<Seq<DecryptedNote>, WalletError> {
    let sorted = sort_by_amount(eligible(notes, spent, owner));
    if amount_sum(sorted) >= target {
        Ok(sorted.take(cover_from(sorted, target as nat, 0) as int))
    } else {
        Err(WalletError::InsufficientBalance { available: amount_sum(sorted) as u64, required: target })
    }
}

proof fn lemma_insert_at(s: Seq<DecryptedNote>, x: DecryptedNote, j: int)
    requires
        0 <= j <= s.len(),
        forall|k: int| j <= k < s.len() ==> #[trigger] s[k].amount > x.amount,
        j == 0 || s[j - 1].amount <= x.amount,
    ensures
        insert_by_amount(s, x) == s.insert(j, x),
    decreases s.len(),
{
    if s.len() == 0 {
        assert(s.insert(j, x) =~= seq![x]);
    } else if j == s.len() {
        assert(s.insert(j, x) =~= s.push(x));
    } else {
        let d = s.drop_last();
        assert(s.last().amount > x.amount);
        lemma_insert_at(d, x, j);
        assert(s.insert(j, x) =~= d.insert(j, x).push(s.last()));
    }
}

proof fn lemma_sum_prefix_le(s: Seq<DecryptedNote>, k: int)
    requires
        0 <= k <= s.len(),
    ensures
        amount_sum(s.take(k)) <= amount_sum(s),
    decreases s.len(),
{
    if k < s.len() {
        assert(s.drop_last().take(k) =~= s.take(k));
        lemma_sum_prefix_le(s.drop_last(), k);
    } else {
        assert(s.take(k) =~= s);
    }
}

/// `v` ordered by ascending amount, keeping the order of notes of equal amount.
pub fn sort_notes_by_amount(v: &Vec<DecryptedNote>) -> (r: Vec<DecryptedNote>)
    ensures
        r@ == sort_by_amount(v@),
{
    let mut out: Vec<DecryptedNote> = Vec::new();
    let mut i: usize = 0;
    while i < v.len()
        invariant
            i <= v@.len(),
            out@ == sort_by_amount(v@.take(i as int)),
        decreases v@.len() - i,
    {
        let x = v[i];
        let mut j: usize = out.len();
        while j > 0 && out[j - 1].amount > x.amount
            invariant
                j <= out@.len(),
                forall|k: int| j <= k < out@.len() ==> #[trigger] out@[k].amount > x.amount,
            decreases j,
        {
            j = j - 1;
        }
        proof {
            lemma_insert_at(out@, x, j as int);
            assert(v@.take(i + 1).drop_last() =~= v@.take(i as int));
        }
        out.insert(j, x);
        i = i + 1;
    }
    assert(v@.take(v@.len() as int) =~= v@);
    out
}

/// Selects unspent notes, restricted to those of key `owner` when given, smallest
/// amount first (ties in insertion order) until they sum to at least `target`.
/// Fails with `InsufficientBalance` when all eligible notes together fall short.
pub fn select_notes(registry: &NoteRegistry, target: u64, owner: Option<usize>) -> (r: Result<
    Vec<DecryptedNote>,
    WalletError,
>)
    ensures
        match (r, selection(registry.notes(), registry.spent(), owner, target)) {
            (Ok(v), Ok(s)) => v@ == s,
            (Err(e), Err(f)) => e == f,
            _ => false,
        },
{
    let elig = registry.eligible_notes(owner);
    let sorted = sort_notes_by_amount(&elig);
    let ghost s = sorted@;
    let mut total: u128 = 0;
    let mut k: usize = 0;
    while k < sorted.len() && total < target as u128
        invariant
            s == sorted@,
            k <= s.len(),
            total == amount_sum(s.take(k as int)),
            cover_from(s, target as nat, 0) == cover_from(s, target as nat, k as nat),
            k > 0 ==> amount_sum(s.take(k - 1)) < target,
        decreases s.len() - k,
    {
        assert(s.take(k + 1).drop_last() =~= s.take(k as int));
        total = total + sorted[k].amount as u128;
        k = k + 1;
    }
    proof {
        lemma_sum_prefix_le(s, k as int);
        if k == s.len() {
            assert(s.take(k as int) =~= s);
        }
    }
    if total >= target as u128 {
        let mut chosen = sorted;
        chosen.truncate(k);
        Ok(chosen)
    } else {
        Err(WalletError::InsufficientBalance { available: total as u64, required: target })
    }
}

/// Selection is a function of the stored notes, the spent set and the arguments:
/// equal wallet states give the same ordered result.
pub proof fn lemma_select_deterministic(
    a: &NoteRegistry,
    b: &NoteRegistry,
    target: u64,
    owner: Option<usize>,
)
    requires
        a.notes() == b.notes(),
        a.spent() == b.spent(),
    ensures
        selection(a.notes(), a.spent(), owner, target) == selection(
            b.notes(),
            b.spent(),
            owner,
            target,
        ),
{
}

} // verus!

use orchard_postfiat::{orchard_test_get_empty_anchor, root_from_path, CommitmentTree, WalletError};

fn leaf(i: u32) -> [u8; 32] {
    let mut b = [0u8; 32];
    b[..4].copy_from_slice(&i.to_le_bytes());
    b[31] = 0x01;
    b
}

#[test]
fn append_assigns_positions_in_order() {
    let mut t = CommitmentTree::new();
    for i in 0..10u32 {
        assert_eq!(t.append(&leaf(i)), Ok(i as u64));
    }
    assert_eq!(t.len(), 10);
}

#[test]
fn empty_tree_has_no_anchor() {
    let t = CommitmentTree::new();
    assert_eq!(t.root(0), Err(WalletError::NotFound));
    assert_eq!(t.root(1), Err(WalletError::NotFound));
}

#[test]
fn empty_anchor_is_known_constant_of_depth_32() {
    let a = orchard_test_get_empty_anchor();
    assert_eq!(a.len(), 32);
    assert_ne!(a, [0u8; 32]);
    assert_eq!(a, orchard_test_get_empty_anchor());
}

#[test]
fn non_canonical_commitment_is_rejected() {
    let mut t = CommitmentTree::new();
    assert_eq!(t.append(&[0xffu8; 32]), Err(WalletError::Validation));
    assert_eq!(t.len(), 0);
}

#[test]
fn root_depends_on_order_of_commitments() {
    let mut a = CommitmentTree::new();
    let mut b = CommitmentTree::new();
    let mut c = CommitmentTree::new();
    for i in [1u32, 2, 3] {
        a.append(&leaf(i)).unwrap();
        c.append(&leaf(i)).unwrap();
    }
    for i in [3u32, 2, 1] {
        b.append(&leaf(i)).unwrap();
    }
    assert_eq!(a.root(0).unwrap(), c.root(0).unwrap());
    assert_ne!(a.root(0).unwrap(), b.root(0).unwrap());
}

#[test]
fn root_changes_with_each_append() {
    let mut t = CommitmentTree::new();
    t.append(&leaf(0)).unwrap();
    let r1 = t.root(0).unwrap();
    t.append(&leaf(1)).unwrap();
    let r2 = t.root(0).unwrap();
    assert_ne!(r1, r2);
    assert_ne!(r1, orchard_test_get_empty_anchor());
}

#[test]
fn witness_hashes_to_current_root_for_every_position() {
    let mut t = CommitmentTree::new();
    for i in 0..7u32 {
        t.append(&leaf(i)).unwrap();
    }
    let root = t.root(0).unwrap();
    for p in 0..7u64 {
        let path = t.witness(p, 0).unwrap();
        assert_eq!(path.len(), 32);
        assert_eq!(root_from_path(&leaf(p as u32), p, &path), Some(root));
        assert_ne!(root_from_path(&leaf(p as u32 + 100), p, &path), Some(root));
    }
}

#[test]
fn root_from_path_rejects_malformed_input() {
    let path = vec![[0u8; 32]; 31];
    assert_eq!(root_from_path(&[0u8; 32], 0, &path), None);
    let path = vec![[0xffu8; 32]; 32];
    assert_eq!(root_from_path(&[0u8; 32], 0, &path), None);
}

#[test]
fn witness_of_uncommitted_position_fails() {
    let mut t = CommitmentTree::new();
    t.append(&leaf(0)).unwrap();
    assert_eq!(t.witness(1, 0), Err(WalletError::StateConsistency));
    assert_eq!(t.witness(0, 1), Err(WalletError::StateConsistency));
}

#[test]
fn checkpointed_witness_differs_and_validates() {
    let mut t = CommitmentTree::new();
    for i in 0..3u32 {
        t.append(&leaf(i)).unwrap();
    }
    assert!(t.checkpoint(5));
    let old_root = t.root(0).unwrap();
    for i in 3..6u32 {
        t.append(&leaf(i)).unwrap();
    }
    assert_eq!(t.root(1).unwrap(), old_root);
    let now = t.witness(1, 0).unwrap();
    let then = t.witness(1, 1).unwrap();
    assert_ne!(now, then);
    assert_eq!(root_from_path(&leaf(1), 1, &now), Some(t.root(0).unwrap()));
    assert_eq!(root_from_path(&leaf(1), 1, &then), Some(t.root(1).unwrap()));
    assert_eq!(t.witness(4, 1), Err(WalletError::StateConsistency));
}

#[test]
fn checkpoint_ids_must_increase() {
    let mut t = CommitmentTree::new();
    assert!(t.checkpoint(5));
    assert!(!t.checkpoint(5));
    assert!(!t.checkpoint(4));
    assert!(t.checkpoint(6));
}

#[test]
fn oldest_checkpoint_is_evicted_beyond_one_hundred() {
    let mut t = CommitmentTree::new();
    t.append(&leaf(0)).unwrap();
    for id in 1..=100u32 {
        assert!(t.checkpoint(id));
    }
    assert!(t.root(100).is_ok());
    assert!(t.checkpoint(101));
    assert!(t.root(100).is_ok());
    assert_eq!(t.root(101), Err(WalletError::NotFound));
}

#[test]
fn reset_empties_tree_and_history() {
    let mut t = CommitmentTree::new();
    t.append(&leaf(0)).unwrap();
    t.checkpoint(1);
    t.reset();
    assert_eq!(t.len(), 0);
    assert_eq!(t.root(0), Err(WalletError::NotFound));
    assert_eq!(t.root(1), Err(WalletError::NotFound));
    assert_eq!(t.append(&leaf(9)), Ok(0));
}

#[test]
fn bundle_builder_test_empty_anchor() {
    let anchor_bytes = orchard_test_get_empty_anchor();
    assert_eq!(anchor_bytes.len(), 32);
    let anchor2 = orchard_test_get_empty_anchor();
    assert_eq!(anchor_bytes, anchor2);
}

fn modulus_le() -> [u8; 32] {
    let mut m = [0u8; 32];
    m[..16].copy_from_slice(&[
        0x01, 0x00, 0x00, 0x00, 0xed, 0x30, 0x2d, 0x99, 0x1b, 0xf9, 0x4c, 0x09, 0xfc, 0x98, 0x46, 0x22,
    ]);
    m[31] = 0x40;
    m
}

#[test]
fn commitment_canonicity_matches_field_modulus() {
    let mut t = CommitmentTree::new();
    assert_eq!(t.append(&modulus_le()), Err(WalletError::Validation));
    let mut below = modulus_le();
    below[0] = 0x00;
    assert_eq!(t.append(&below), Ok(0));
    for b in [modulus_le(), below, [0xffu8; 32], [0u8; 32], [0x3fu8; 32]] {
        let orchard_accepts =
            bool::from(orchard::tree::MerkleHashOrchard::from_bytes(&b).is_some());
        let mut probe = CommitmentTree::new();
        assert_eq!(probe.append(&b).is_ok(), orchard_accepts);
    }
}

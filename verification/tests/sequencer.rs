use state_root::multiproof::MultiProof;
use state_root::sequencer::ProofSequencer;
use state_root::update::SparseTrieUpdate;

/// An update that is recognised by the only account that it changes.
fn tagged(tag: u8) -> SparseTrieUpdate {
    let mut update = SparseTrieUpdate::default();
    update.state.accounts.insert([tag; 32], None);
    update
}

fn tags(updates: &Vec<SparseTrieUpdate>) -> Vec<u8> {
    updates.iter().map(|u| u.state.accounts.keys().next().unwrap()[0]).collect()
}

#[test]
fn test_add_proof_in_sequence() {
    let mut sequencer = ProofSequencer::new();
    let proof1 = MultiProof::default();
    let proof2 = MultiProof::default();
    sequencer.next_sequence = 2;

    let ready = sequencer.add_proof(0, SparseTrieUpdate::from_multiproof(proof1));
    assert_eq!(ready.len(), 1);
    assert!(!sequencer.has_pending());

    let ready = sequencer.add_proof(1, SparseTrieUpdate::from_multiproof(proof2));
    assert_eq!(ready.len(), 1);
    assert!(!sequencer.has_pending());
}

#[test]
fn test_add_proof_out_of_order() {
    let mut sequencer = ProofSequencer::new();
    let proof1 = MultiProof::default();
    let proof2 = MultiProof::default();
    let proof3 = MultiProof::default();
    sequencer.next_sequence = 3;

    let ready = sequencer.add_proof(2, SparseTrieUpdate::from_multiproof(proof3));
    assert_eq!(ready.len(), 0);
    assert!(sequencer.has_pending());

    let ready = sequencer.add_proof(0, SparseTrieUpdate::from_multiproof(proof1));
    assert_eq!(ready.len(), 1);
    assert!(sequencer.has_pending());

    let ready = sequencer.add_proof(1, SparseTrieUpdate::from_multiproof(proof2));
    assert_eq!(ready.len(), 2);
    assert!(!sequencer.has_pending());
}

#[test]
fn test_add_proof_with_gaps() {
    let mut sequencer = ProofSequencer::new();
    let proof1 = MultiProof::default();
    let proof3 = MultiProof::default();
    sequencer.next_sequence = 3;

    let ready = sequencer.add_proof(0, SparseTrieUpdate::from_multiproof(proof1));
    assert_eq!(ready.len(), 1);

    let ready = sequencer.add_proof(2, SparseTrieUpdate::from_multiproof(proof3));
    assert_eq!(ready.len(), 0);
    assert!(sequencer.has_pending());
}

#[test]
fn test_add_proof_duplicate_sequence() {
    let mut sequencer = ProofSequencer::new();
    let proof1 = MultiProof::default();
    let proof2 = MultiProof::default();

    let ready = sequencer.add_proof(0, SparseTrieUpdate::from_multiproof(proof1));
    assert_eq!(ready.len(), 1);

    let ready = sequencer.add_proof(0, SparseTrieUpdate::from_multiproof(proof2));
    assert_eq!(ready.len(), 0);
    assert!(!sequencer.has_pending());
}

#[test]
fn test_add_proof_batch_processing() {
    let mut sequencer = ProofSequencer::new();
    let proofs: Vec<_> = (0..5).map(|_| MultiProof::default()).collect();
    sequencer.next_sequence = 5;

    sequencer.add_proof(4, SparseTrieUpdate::from_multiproof(proofs[4].clone()));
    sequencer.add_proof(2, SparseTrieUpdate::from_multiproof(proofs[2].clone()));
    sequencer.add_proof(1, SparseTrieUpdate::from_multiproof(proofs[1].clone()));
    sequencer.add_proof(3, SparseTrieUpdate::from_multiproof(proofs[3].clone()));

    let ready = sequencer.add_proof(0, SparseTrieUpdate::from_multiproof(proofs[0].clone()));
    assert_eq!(ready.len(), 5);
    assert!(!sequencer.has_pending());
}

#[test]
fn numbers_are_handed_out_in_order() {
    let mut sequencer = ProofSequencer::new();
    assert_eq!(sequencer.next_sequence(), 0);
    assert_eq!(sequencer.next_sequence(), 1);
    assert_eq!(sequencer.next_sequence, 2);
}

#[test]
fn proofs_come_out_by_number_in_whatever_order_they_arrive() {
    for order in [[0u64, 1, 2, 3], [3, 2, 1, 0], [2, 0, 3, 1], [1, 3, 0, 2]] {
        let mut sequencer = ProofSequencer::new();
        let mut delivered = Vec::new();
        for number in order {
            let ready = sequencer.add_proof(number, tagged(number as u8));
            delivered.extend(tags(&ready));
        }
        assert_eq!(delivered, vec![0, 1, 2, 3]);
        assert_eq!(sequencer.next_to_deliver, 4);
        assert!(!sequencer.has_pending());
    }
}

#[test]
fn the_later_of_two_buffered_proofs_of_one_number_stays() {
    let mut sequencer = ProofSequencer::new();
    assert!(sequencer.add_proof(1, tagged(10)).is_empty());
    assert!(sequencer.add_proof(1, tagged(11)).is_empty());
    assert_eq!(tags(&sequencer.add_proof(0, tagged(0))), vec![0, 11]);
}

#[test]
fn a_late_proof_leaves_the_buffer_as_it_is() {
    let mut sequencer = ProofSequencer::new();
    sequencer.add_proof(0, tagged(0));
    sequencer.add_proof(2, tagged(2));
    assert!(sequencer.add_proof(0, tagged(9)).is_empty());
    assert_eq!(sequencer.next_to_deliver, 1);
    assert_eq!(tags(&sequencer.add_proof(1, tagged(1))), vec![1, 2]);
}

#[test]
fn there_is_room_unless_every_number_is_used_up() {
    let mut sequencer = ProofSequencer::new();
    assert!(sequencer.has_room_for(0));
    assert!(sequencer.has_room_for(u64::MAX));
    sequencer.next_to_deliver = u64::MAX - 1;
    assert!(sequencer.has_room_for(u64::MAX));
    assert!(sequencer.has_room_for(u64::MAX - 1));
    assert!(sequencer.add_proof(u64::MAX, tagged(1)).is_empty());
    assert!(!sequencer.has_room_for(u64::MAX - 1));
    assert!(sequencer.has_room_for(3));
}

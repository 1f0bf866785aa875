use nostdb_core::generation::Generation;
use nostdb_core::journal::JournalRecord;
use nostdb_core::crc::crc32c;
use nostdb_core::journal::encode_transaction;
use nostdb_core::journal::replay;

const KIND_COMMIT: u32 = 4;

fn promote(staged: &str, destination: &str) -> JournalRecord {
    JournalRecord::Promote {
        staged: staged.to_owned(),
        destination: destination.to_owned(),
    }
}

#[test]
fn every_record_kind_round_trips() {
    let records = vec![
        JournalRecord::Begin {
            generation: Generation::from_raw(7),
        },
        promote("a.tmp", "a"),
        JournalRecord::Remove {
            path: "old".to_owned(),
        },
        JournalRecord::Commit,
    ];
    let mut bytes = Vec::new();
    for record in &records {
        bytes.extend_from_slice(&record.encode());
    }
    let recovery = replay(&bytes);
    assert!(!recovery.truncated);
    assert_eq!(recovery.committed, records);
    assert!(recovery.abandoned_staged.is_empty());
}

#[test]
fn a_committed_transaction_is_recovered_with_its_generation() {
    let bytes = encode_transaction(
        Generation::from_raw(9),
        &[promote("root.nostdb.tmp", "root.nostdb")],
    );
    let recovery = replay(&bytes);
    assert_eq!(
        recovery.committed_generation(),
        Some(Generation::from_raw(9))
    );
    assert!(recovery.abandoned_staged.is_empty());
    assert!(!recovery.truncated);
}

#[test]
fn replay_is_idempotent_over_the_same_bytes() {
    let bytes = encode_transaction(Generation::from_raw(3), &[promote("x.tmp", "x")]);
    assert_eq!(replay(&bytes), replay(&bytes));
}

#[test]
fn an_uncommitted_tail_is_rolled_back_rather_than_applied() {
    let mut bytes = encode_transaction(Generation::from_raw(1), &[promote("a.tmp", "a")]);
    bytes.extend_from_slice(
        &JournalRecord::Begin {
            generation: Generation::from_raw(2),
        }
        .encode(),
    );
    bytes.extend_from_slice(&promote("b.tmp", "b").encode());

    let recovery = replay(&bytes);
    assert_eq!(
        recovery.committed_generation(),
        Some(Generation::from_raw(1))
    );
    assert_eq!(recovery.abandoned_staged, vec!["b.tmp".to_owned()]);
    assert!(!recovery.truncated);
}

#[test]
fn a_torn_tail_is_discarded_at_every_truncation_point() {
    let bytes = encode_transaction(Generation::from_raw(5), &[promote("a.tmp", "a")]);
    let full = replay(&bytes);
    assert!(!full.truncated);

    for cut in 1..bytes.len() {
        let recovery = replay(&bytes[..cut]);
        assert!(
            recovery.truncated || recovery.committed_generation().is_none(),
            "a cut at {cut} was neither reported as truncated nor left uncommitted"
        );
    }
}

#[test]
fn a_corrupt_record_stops_replay_rather_than_being_trusted() {
    let mut bytes = encode_transaction(Generation::from_raw(4), &[promote("a.tmp", "a")]);
    let last = bytes.len() - 1;
    bytes[last] ^= 0xFF;
    let recovery = replay(&bytes);
    assert!(recovery.truncated);
    assert_eq!(recovery.committed_generation(), None);
}

#[test]
fn a_payload_that_does_not_match_its_kind_is_rejected() {
    let payload = b"unexpected";
    let kind = KIND_COMMIT;
    let length = payload.len() as u32;
    let mut covered = Vec::new();
    covered.extend_from_slice(&kind.to_le_bytes());
    covered.extend_from_slice(&length.to_le_bytes());
    covered.extend_from_slice(payload);

    let mut bytes = Vec::new();
    bytes.extend_from_slice(&kind.to_le_bytes());
    bytes.extend_from_slice(&length.to_le_bytes());
    bytes.extend_from_slice(&crc32c(&covered).to_le_bytes());
    bytes.extend_from_slice(payload);

    let recovery = replay(&bytes);
    assert!(recovery.truncated);
    assert!(recovery.committed.is_empty());
}

#[test]
fn an_unknown_record_kind_stops_replay() {
    let kind = 999_u32;
    let length = 0_u32;
    let mut covered = Vec::new();
    covered.extend_from_slice(&kind.to_le_bytes());
    covered.extend_from_slice(&length.to_le_bytes());

    let mut bytes = Vec::new();
    bytes.extend_from_slice(&kind.to_le_bytes());
    bytes.extend_from_slice(&length.to_le_bytes());
    bytes.extend_from_slice(&crc32c(&covered).to_le_bytes());

    assert!(replay(&bytes).truncated);
}

#[test]
fn an_empty_journal_recovers_to_nothing() {
    let recovery = replay(&[]);
    assert!(!recovery.truncated);
    assert!(recovery.committed.is_empty());
    assert!(recovery.abandoned_staged.is_empty());
    assert_eq!(recovery.committed_generation(), None);
}

#[test]
fn the_last_committed_transaction_wins() {
    let mut bytes = encode_transaction(Generation::from_raw(1), &[promote("a.tmp", "a")]);
    bytes.extend_from_slice(&encode_transaction(
        Generation::from_raw(2),
        &[promote("b.tmp", "b")],
    ));
    let recovery = replay(&bytes);
    assert_eq!(
        recovery.committed_generation(),
        Some(Generation::from_raw(2))
    );
}

#[test]
fn a_commit_without_a_begin_commits_nothing() {
    let mut bytes = promote("a.tmp", "a").encode();
    bytes.extend(JournalRecord::Commit.encode());
    let recovery = replay(&bytes);
    assert!(recovery.committed.is_empty());
    assert_eq!(recovery.committed_generation(), None);
    assert_eq!(recovery.abandoned_staged, vec!["a.tmp".to_owned()]);

    let mut whole = encode_transaction(Generation::from_raw(4), &[promote("b.tmp", "b")]);
    whole.extend(&bytes);
    let recovery = replay(&whole);
    assert_eq!(recovery.committed.len(), 3);
    assert_eq!(recovery.committed[1], promote("b.tmp", "b"));
    assert_eq!(recovery.abandoned_staged, vec!["a.tmp".to_owned()]);
}

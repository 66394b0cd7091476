//! Behavioral tests of the invite ledger.

use invite_ledger::ledger::{InvitesRepo, CheckResult, ConsumeResult, LedgerError, check_entry,
    consume_entry, new_code};
use invite_ledger::shared::SharedLedger;

fn probe_unknown(code: &[u8]) -> Vec<u8> {
    // a code that was certainly never generated: distinct from the one given
    if code == b"zzzzzzzz" {
        b"yyyyyyyy".to_vec()
    } else {
        b"zzzzzzzz".to_vec()
    }
}

#[test]
fn generated_code_is_well_formed() {
    let mut repo = InvitesRepo::new();
    let code = repo.new_invite().expect("minting must succeed");
    assert_eq!(code.len(), 8);
    for b in &code {
        assert!(b.is_ascii_alphanumeric());
    }
}

#[test]
fn generated_code_checks_unused() {
    let mut repo = InvitesRepo::new();
    let code = repo.new_invite().expect("minting must succeed");
    assert_eq!(repo.check_invite(&code), Ok(CheckResult::Unused));
}

#[test]
fn full_lifecycle() {
    let mut repo = InvitesRepo::new();
    let code = repo.new_invite().expect("minting must succeed");
    assert_eq!(repo.check_invite(&code), Ok(CheckResult::Unused));
    assert_eq!(repo.use_invite(&code), Ok(ConsumeResult::Consumed));
    assert_eq!(repo.check_invite(&code), Ok(CheckResult::Used));
    assert_eq!(repo.use_invite(&code), Ok(ConsumeResult::AlreadyUsed));
    let unknown = probe_unknown(&code);
    assert_eq!(repo.check_invite(&unknown), Ok(CheckResult::NotFound));
}

#[test]
fn unknown_code_not_found() {
    let repo = InvitesRepo::new();
    assert_eq!(repo.check_invite(b"zzzzzzzz"), Ok(CheckResult::NotFound));
}

#[test]
fn unknown_code_consume_not_found() {
    let mut repo = InvitesRepo::new();
    assert_eq!(repo.use_invite(b"zzzzzzzz"), Ok(ConsumeResult::NotFound));
    assert_eq!(repo.check_invite(b"zzzzzzzz"), Ok(CheckResult::NotFound));
}

#[test]
fn idempotent_rejection() {
    let mut repo = InvitesRepo::new();
    let code = repo.new_invite().expect("minting must succeed");
    assert_eq!(repo.use_invite(&code), Ok(ConsumeResult::Consumed));
    for _ in 0..5 {
        assert_eq!(repo.use_invite(&code), Ok(ConsumeResult::AlreadyUsed));
        assert_eq!(repo.check_invite(&code), Ok(CheckResult::Used));
    }
}

#[test]
fn two_consumers_one_success() {
    let mut repo = InvitesRepo::new();
    let code = repo.new_invite().expect("minting must succeed");
    let first = repo.use_invite(&code);
    let second = repo.use_invite(&code);
    assert_eq!(first, Ok(ConsumeResult::Consumed));
    assert_eq!(second, Ok(ConsumeResult::AlreadyUsed));
    assert_eq!(repo.check_invite(&code), Ok(CheckResult::Used));
}

#[test]
fn generated_codes_are_distinct() {
    let mut repo = InvitesRepo::new();
    let mut codes: Vec<Vec<u8>> = Vec::new();
    for _ in 0..100 {
        codes.push(repo.new_invite().expect("minting must succeed"));
    }
    for i in 0..codes.len() {
        for j in (i + 1)..codes.len() {
            assert_ne!(codes[i], codes[j]);
        }
    }
}

#[test]
fn collision_is_not_overwritten() {
    let mut repo = InvitesRepo::new();
    assert!(repo.record_invite(b"AB12cd34"));
    assert_eq!(repo.use_invite(b"AB12cd34"), Ok(ConsumeResult::Consumed));
    // recording the same code again collides and must leave the used state
    assert!(!repo.record_invite(b"AB12cd34"));
    assert_eq!(repo.check_invite(b"AB12cd34"), Ok(CheckResult::Used));
}

#[test]
fn audit_lists_exactly_the_unused_codes() {
    let mut repo = InvitesRepo::new();
    let mut codes: Vec<Vec<u8>> = Vec::new();
    for _ in 0..6 {
        codes.push(repo.new_invite().expect("minting must succeed"));
    }
    assert_eq!(repo.use_invite(&codes[1]), Ok(ConsumeResult::Consumed));
    assert_eq!(repo.use_invite(&codes[4]), Ok(ConsumeResult::Consumed));
    let listed = repo.active_invites().expect("audit must succeed");

    let mut expected: Vec<Vec<u8>> = codes
        .iter()
        .enumerate()
        .filter(|(i, _)| *i != 1 && *i != 4)
        .map(|(_, c)| c.clone())
        .collect();
    expected.sort();
    assert_eq!(listed, expected);
}

#[test]
fn audit_is_sorted_ascending() {
    let mut repo = InvitesRepo::new();
    for _ in 0..20 {
        repo.new_invite().expect("minting must succeed");
    }
    let listed = repo.active_invites().expect("audit must succeed");
    assert_eq!(listed.len(), 20);
    for w in listed.windows(2) {
        assert!(w[0] < w[1]);
    }
}

#[test]
fn audit_lists_known_codes_in_order() {
    let mut repo = InvitesRepo::new();
    assert!(repo.record_invite(b"ZZ99aa00"));
    assert!(repo.record_invite(b"AB12cd34"));
    assert!(repo.record_invite(b"mm55MM55"));
    assert_eq!(
        repo.active_invites(),
        Ok(vec![
            b"AB12cd34".to_vec(),
            b"ZZ99aa00".to_vec(),
            b"mm55MM55".to_vec(),
        ])
    );
    assert_eq!(repo.use_invite(b"ZZ99aa00"), Ok(ConsumeResult::Consumed));
    assert_eq!(
        repo.active_invites(),
        Ok(vec![b"AB12cd34".to_vec(), b"mm55MM55".to_vec()])
    );
}

#[test]
fn audit_of_fully_consumed_ledger_is_empty() {
    let mut repo = InvitesRepo::new();
    let code = repo.new_invite().expect("minting must succeed");
    assert_eq!(repo.use_invite(&code), Ok(ConsumeResult::Consumed));
    assert_eq!(repo.active_invites(), Ok(Vec::new()));
}

#[test]
fn audit_of_empty_ledger_is_empty() {
    let repo = InvitesRepo::new();
    assert_eq!(repo.active_invites(), Ok(Vec::new()));
}

#[test]
fn check_entry_classifies_every_value() {
    assert_eq!(check_entry(None), Ok(CheckResult::NotFound));
    assert_eq!(check_entry(Some(&vec![0u8])), Ok(CheckResult::Unused));
    assert_eq!(check_entry(Some(&vec![1u8])), Ok(CheckResult::Used));
    assert_eq!(check_entry(Some(&vec![7u8])), Err(LedgerError::Inconsistent));
    assert_eq!(check_entry(Some(&vec![0u8, 0u8])), Err(LedgerError::Inconsistent));
    assert_eq!(check_entry(Some(&Vec::new())), Err(LedgerError::Inconsistent));
}

#[test]
fn consume_entry_decides_every_value() {
    assert_eq!(consume_entry(None), Ok((ConsumeResult::NotFound, None)));
    assert_eq!(
        consume_entry(Some(&vec![0u8])),
        Ok((ConsumeResult::Consumed, Some(vec![1u8])))
    );
    assert_eq!(consume_entry(Some(&vec![1u8])), Ok((ConsumeResult::AlreadyUsed, None)));
    assert_eq!(consume_entry(Some(&vec![9u8])), Err(LedgerError::Inconsistent));
}

#[test]
fn shared_ledger_single_consumption() {
    let ledger = SharedLedger::new();
    let code = ledger.generate().expect("minting must succeed");
    assert_eq!(ledger.check(&code), Ok(CheckResult::Unused));
    let first = ledger.consume(&code);
    let second = ledger.consume(&code);
    assert_eq!(first, Ok(ConsumeResult::Consumed));
    assert_eq!(second, Ok(ConsumeResult::AlreadyUsed));
    assert_eq!(ledger.check(&code), Ok(CheckResult::Used));
}

#[test]
fn shared_ledger_audit() {
    let ledger = SharedLedger::new();
    let a = ledger.generate().expect("minting must succeed");
    let b = ledger.generate().expect("minting must succeed");
    assert_eq!(ledger.consume(&a), Ok(ConsumeResult::Consumed));
    let listed = ledger.list_unused().expect("audit must succeed");
    assert_eq!(listed, vec![b.clone()]);
    assert_eq!(ledger.check(&b), Ok(CheckResult::Unused));
}

#[test]
fn new_code_draws_eight_alphanumerics() {
    for _ in 0..50 {
        let code = new_code();
        assert_eq!(code.len(), 8);
        for b in &code {
            assert!(b.is_ascii_alphanumeric());
        }
    }
}

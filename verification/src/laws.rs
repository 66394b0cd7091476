//! The ledger's laws, each proved over the abstract ledger state.
//!
//! The ledger state is the map from storage keys to stored values that
//! [`crate::ledger::InvitesRepo::contents`] exposes; minting, checking,
//! consuming and auditing are pinned down by the contracts in
//! [`crate::ledger`].  The proofs here state what those contracts add up to.

use vstd::prelude::*;
use crate::codes::{invite_key, unused_bytes, lemma_invite_key_injective};
use crate::ledger::{CheckResult, ConsumeResult, check_of, consume_of, code_unused, code_used,
    code_absent, lists_unused};

verus! {

/// Uniqueness of minted codes.  Minting records a code that was absent and
/// no operation ever removes a record, so once `c1` is minted, every ledger
/// state that still holds its record can only mint some other code: a code
/// absent there, as minting demands, cannot be `c1`.
pub proof fn lemma_generated_codes_distinct(
    m1: Map<Seq<u8>, Seq<u8>>,
    c1: Seq<u8>,
    m2: Map<Seq<u8>, Seq<u8>>,
    c2: Seq<u8>,
)
    requires
        code_absent(m1, c1),
        m1.insert(invite_key(c1), unused_bytes()).dom().subset_of(m2.dom()),
        code_absent(m2, c2),
    ensures
        c1 != c2,
{
    assert(m2.contains_key(invite_key(c1)));
}

/// A freshly minted code checks as unused.
pub proof fn lemma_new_invite_checks_unused(m: Map<Seq<u8>, Seq<u8>>, c: Seq<u8>)
    ensures
        check_of(m.insert(invite_key(c), unused_bytes()), c) == Some(CheckResult::Unused),
{
}

/// Single consumption of an unused code: the first consume answers
/// `Consumed` and leaves the code used, and on the resulting state every
/// further consume answers `AlreadyUsed` and changes nothing.  Calls of
/// `use_invite` take the ledger exclusively, so racing consumers observe
/// exactly this chain, one after the other.
pub proof fn lemma_single_consumption(m: Map<Seq<u8>, Seq<u8>>, c: Seq<u8>)
    requires
        code_unused(m, c),
    ensures
        consume_of(m, c) matches Some((res, m2)) && res == ConsumeResult::Consumed && code_used(
            m2,
            c,
        ) && consume_of(m2, c) == Some((ConsumeResult::AlreadyUsed, m2)),
{
}

/// Idempotent rejection: consuming an already used code answers
/// `AlreadyUsed` and leaves the state as it is, so any number of repetitions
/// answers the same.
pub proof fn lemma_already_used_rejected(m: Map<Seq<u8>, Seq<u8>>, c: Seq<u8>)
    requires
        code_used(m, c),
    ensures
        consume_of(m, c) == Some((ConsumeResult::AlreadyUsed, m)),
{
}

/// A code never recorded checks as not found, and consuming it answers
/// `NotFound` without changing the state.
pub proof fn lemma_unknown_code(m: Map<Seq<u8>, Seq<u8>>, c: Seq<u8>)
    requires
        code_absent(m, c),
    ensures
        check_of(m, c) == Some(CheckResult::NotFound),
        consume_of(m, c) == Some((ConsumeResult::NotFound, m)),
{
}

/// Records are append-only under minting: recording a fresh code removes no
/// record and touches no other code's record.  Together with
/// [`lemma_consume_preserves_records`] this lets the freshness hypothesis of
/// [`lemma_generated_codes_distinct`] be carried across any run of ledger
/// operations.
pub proof fn lemma_generate_preserves_records(
    m: Map<Seq<u8>, Seq<u8>>,
    c: Seq<u8>,
    c2: Seq<u8>,
)
    requires
        code_absent(m, c),
    ensures
        m.dom().subset_of(m.insert(invite_key(c), unused_bytes()).dom()),
        code_used(m, c2) ==> code_used(m.insert(invite_key(c), unused_bytes()), c2),
        code_unused(m, c2) ==> code_unused(m.insert(invite_key(c), unused_bytes()), c2),
{
}

/// Records are append-only and one-way: consuming a code removes no record,
/// keeps every used code used, and touches no other code's record.
pub proof fn lemma_consume_preserves_records(
    m: Map<Seq<u8>, Seq<u8>>,
    c: Seq<u8>,
    res: ConsumeResult,
    m2: Map<Seq<u8>, Seq<u8>>,
    c2: Seq<u8>,
)
    requires
        consume_of(m, c) == Some((res, m2)),
    ensures
        m2.dom() == m.dom(),
        code_used(m, c2) ==> code_used(m2, c2),
        c2 != c ==> (code_unused(m, c2) ==> code_unused(m2, c2)),
{
    if code_unused(m, c) {
        assert(m2.dom() =~= m.dom());
    }
    if c2 != c && invite_key(c2) == invite_key(c) {
        lemma_invite_key_injective(c2, c);
    }
}

/// Audit exactness: a code stands in a faithful audit if and only if its
/// recorded state is unused, so the audit never lists a used or unknown
/// code and never omits an unused one.
pub proof fn lemma_audit_exact(m: Map<Seq<u8>, Seq<u8>>, out: Seq<Vec<u8>>, c: Seq<u8>)
    requires
        lists_unused(m, out),
    ensures
        (exists|ri: int| 0 <= ri < out.len() && (#[trigger] out[ri])@ == c) <==> code_unused(m, c),
{
}

} // verus!

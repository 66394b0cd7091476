//! The invite ledger: mints codes, answers checks, and consumes each code at
//! most once.
//!
//! The ledger's abstract state is the map [`InvitesRepo::contents`] from
//! storage keys to stored values.  A generated code is recorded under
//! `"INVITE:" + code` with the value `0x00`; consuming it flips the value to
//! `0x01`, exactly once.  Records are never removed, and no state ever moves
//! back from used to unused.

use vstd::prelude::*;
use rand::RngExt;
use crate::bytes::{lex_lt, bytes_eq, lemma_lex_lt_prefix};
use crate::codes::{CODE_LEN, is_alnum_byte, is_code, invite_key, is_invite_key, code_of_key,
    key_prefix, unused_bytes, used_bytes, is_unused_value, is_used_value, encode_key, decode_key,
    lemma_code_of_invite_key, lemma_invite_key_of_key};
use crate::store::{Store, distinct_keys, sorted, has_key, lemma_sorted_distinct,
    lemma_entry_value};

verus! {

/// What a validity check reports about a code.
#[derive(Clone, Copy, PartialEq, Eq, Debug)]
pub enum CheckResult {
    /// The code exists and has not been consumed.
    Unused,
    /// The code exists and has already been consumed.
    Used,
    /// No such code was ever issued.
    NotFound,
}

/// What an attempt to consume a code reports.
#[derive(Clone, Copy, PartialEq, Eq, Debug)]
pub enum ConsumeResult {
    /// The code was unused and is now marked used; only one caller ever
    /// observes this for a given code.
    Consumed,
    /// The code had already been consumed; nothing changed.
    AlreadyUsed,
    /// No such code was ever issued; nothing changed.
    NotFound,
}

/// A failure the ledger reports instead of answering.
#[derive(Clone, Copy, PartialEq, Eq, Debug)]
pub enum LedgerError {
    /// A stored record is not one the ledger could have written: its key or
    /// value bytes are malformed.
    Inconsistent,
}

/// The code `c` is recorded and not yet consumed.
pub open spec fn code_unused(m: Map<Seq<u8>, Seq<u8>>, c: Seq<u8>) -> bool {
    m.contains_key(invite_key(c)) && is_unused_value(m[invite_key(c)])
}

/// The code `c` is recorded and already consumed.
pub open spec fn code_used(m: Map<Seq<u8>, Seq<u8>>, c: Seq<u8>) -> bool {
    m.contains_key(invite_key(c)) && is_used_value(m[invite_key(c)])
}

/// The code `c` was never recorded.
pub open spec fn code_absent(m: Map<Seq<u8>, Seq<u8>>, c: Seq<u8>) -> bool {
    !m.contains_key(invite_key(c))
}

/// Every record is one the ledger could have written: a well-formed key
/// holding a single state byte.
pub open spec fn ledger_inv(m: Map<Seq<u8>, Seq<u8>>) -> bool {
    forall|k: Seq<u8>| #[trigger] m.contains_key(k) ==> is_invite_key(k) && (is_unused_value(m[k])
        || is_used_value(m[k]))
}

/// What a check of code `c` answers on ledger state `m`, or `None` when the
/// record for `c` is malformed.
pub open spec fn check_of(m: Map<Seq<u8>, Seq<u8>>, c: Seq<u8>) -> Option<CheckResult> {
    entry_check(entry_of(m, c))
}

/// What consuming code `c` does to ledger state `m`: the answer and the next
/// state, or `None` when the record for `c` is malformed.
pub open spec fn consume_of(m: Map<Seq<u8>, Seq<u8>>, c: Seq<u8>) -> Option<
    (ConsumeResult, Map<Seq<u8>, Seq<u8>>),
> {
    match entry_consume(entry_of(m, c)) {
        Some((res, write)) => Some(
            (
                res,
                match write {
                    Some(v) => m.insert(invite_key(c), v),
                    None => m,
                },
            ),
        ),
        None => None,
    }
}

/// The stored value for code `c` in state `m`, if any.
pub open spec fn entry_of(m: Map<Seq<u8>, Seq<u8>>, c: Seq<u8>) -> Option<Seq<u8>> {
    if m.contains_key(invite_key(c)) {
        Some(m[invite_key(c)])
    } else {
        None
    }
}

/// The check answer a stored value stands for; `None` when malformed.
pub open spec fn entry_check(e: Option<Seq<u8>>) -> Option<CheckResult> {
    match e {
        None => Some(CheckResult::NotFound),
        Some(v) => if is_unused_value(v) {
            Some(CheckResult::Unused)
        } else if is_used_value(v) {
            Some(CheckResult::Used)
        } else {
            None
        },
    }
}

/// The consume decision a stored value stands for: the answer and the value
/// to write back, if any; `None` when malformed.
pub open spec fn entry_consume(e: Option<Seq<u8>>) -> Option<(ConsumeResult, Option<Seq<u8>>)> {
    match e {
        None => Some((ConsumeResult::NotFound, None)),
        Some(v) => if is_unused_value(v) {
            Some((ConsumeResult::Consumed, Some(used_bytes())))
        } else if is_used_value(v) {
            Some((ConsumeResult::AlreadyUsed, None))
        } else {
            None
        },
    }
}

/// The single byte marking an unused code.
pub fn unused_value() -> (r: Vec<u8>)
    ensures
        r@ == unused_bytes(),
{
    let mut v: Vec<u8> = Vec::new();
    v.push(0u8);
    proof {
        assert(v@ =~= unused_bytes());
    }
    v
}

/// The single byte marking a used code.
pub fn used_value() -> (r: Vec<u8>)
    ensures
        r@ == used_bytes(),
{
    let mut v: Vec<u8> = Vec::new();
    v.push(1u8);
    proof {
        assert(v@ =~= used_bytes());
    }
    v
}

/// The view of an optional stored value.
pub open spec fn opt_bytes_view(e: Option<&Vec<u8>>) -> Option<Seq<u8>> {
    match e {
        Some(v) => Some(v@),
        None => None,
    }
}

/// Decides what a check answers for a stored value, exactly as
/// [`entry_check`] says; reports the malformed values as inconsistent.
pub fn check_entry(entry: Option<&Vec<u8>>) -> (r: Result<CheckResult, LedgerError>)
    ensures
        match r {
            Ok(c) => entry_check(opt_bytes_view(entry)) == Some(c),
            Err(_) => entry_check(opt_bytes_view(entry)) is None,
        },
{
    match entry {
        None => Ok(CheckResult::NotFound),
        Some(v) => {
            if bytes_eq(v.as_slice(), unused_value().as_slice()) {
                Ok(CheckResult::Unused)
            } else if bytes_eq(v.as_slice(), used_value().as_slice()) {
                Ok(CheckResult::Used)
            } else {
                proof {
                    if is_unused_value(v@) {
                        assert(v@ =~= unused_bytes());
                    }
                    if is_used_value(v@) {
                        assert(v@ =~= used_bytes());
                    }
                }
                Err(LedgerError::Inconsistent)
            }
        },
    }
}

/// Decides what consuming does for a stored value: the answer and the value
/// to write back, exactly as [`entry_consume`] says; reports the malformed
/// values as inconsistent.
pub fn consume_entry(entry: Option<&Vec<u8>>) -> (r: Result<
    (ConsumeResult, Option<Vec<u8>>),
    LedgerError,
>)
    ensures
        match r {
            Ok((res, write)) => entry_consume(opt_bytes_view(entry)) == Some(
                (res, opt_bytes_view_owned(write)),
            ),
            Err(_) => entry_consume(opt_bytes_view(entry)) is None,
        },
{
    match entry {
        None => Ok((ConsumeResult::NotFound, None)),
        Some(v) => {
            if bytes_eq(v.as_slice(), unused_value().as_slice()) {
                Ok((ConsumeResult::Consumed, Some(used_value())))
            } else if bytes_eq(v.as_slice(), used_value().as_slice()) {
                Ok((ConsumeResult::AlreadyUsed, None))
            } else {
                proof {
                    if is_unused_value(v@) {
                        assert(v@ =~= unused_bytes());
                    }
                    if is_used_value(v@) {
                        assert(v@ =~= used_bytes());
                    }
                }
                Err(LedgerError::Inconsistent)
            }
        },
    }
}

/// `out` is a faithful audit of `m`: exactly the unused codes, each once, in
/// ascending lexicographic order, of a ledger whose records are all
/// well-formed.
pub open spec fn lists_unused(m: Map<Seq<u8>, Seq<u8>>, out: Seq<Vec<u8>>) -> bool {
    &&& ledger_inv(m)
    &&& forall|ri: int| 0 <= ri < out.len() ==> code_unused(m, (#[trigger] out[ri])@)
    &&& forall|c: Seq<u8>|
        code_unused(m, c) ==> exists|ri: int| 0 <= ri < out.len() && (#[trigger] out[ri])@ == c
    &&& forall|ri: int, rj: int|
        0 <= ri < rj < out.len() ==> lex_lt((#[trigger] out[ri])@, (#[trigger] out[rj])@)
}

/// The view of an optional owned value.
pub open spec fn opt_bytes_view_owned(e: Option<Vec<u8>>) -> Option<Seq<u8>> {
    match e {
        Some(v) => Some(v@),
        None => None,
    }
}

/// Relies on rand's `Alphanumeric` distribution: every sampled byte is one
/// of the 62 ASCII alphanumerics `0`-`9`, `A`-`Z`, `a`-`z`.
#[verifier::external_body]
fn sample_alphanumeric(n: usize) -> (r: Vec<u8>)
    ensures
        r@.len() == n,
        forall|i: int| 0 <= i < r@.len() ==> is_alnum_byte(#[trigger] r@[i]),
{
    rand::rng().sample_iter(&rand::distr::Alphanumeric).take(n).collect()
}

/// Draws one fresh random invite code: eight alphanumeric symbols.
pub fn new_code() -> (r: Vec<u8>)
    ensures
        is_code(r@),
{
    sample_alphanumeric(CODE_LEN)
}

/// The invite ledger.
pub struct InvitesRepo {
    store: Store,
}

impl InvitesRepo {
    /// The ledger's state: the map from storage keys to stored values.
    pub closed spec fn contents(self) -> Map<Seq<u8>, Seq<u8>> {
        self.store.contents()
    }

    /// The underlying store is well-formed.
    pub closed spec fn wf(self) -> bool {
        self.store.wf()
    }

    /// Creates a ledger with no records.
    pub fn new() -> (r: Self)
        ensures
            r.wf(),
            r.contents() == Map::<Seq<u8>, Seq<u8>>::empty(),
    {
        InvitesRepo { store: Store::new() }
    }

    /// Records `code` as unused if and only if no record for it exists;
    /// answers whether it did.  A collision never overwrites the existing
    /// record.
    pub fn record_invite(&mut self, code: &[u8]) -> (fresh: bool)
        requires
            old(self).wf(),
            is_code(code@),
        ensures
            final(self).wf(),
            fresh == code_absent(old(self).contents(), code@),
            fresh ==> final(self).contents() == old(self).contents().insert(
                invite_key(code@),
                unused_bytes(),
            ),
            !fresh ==> final(self).contents() == old(self).contents(),
    {
        let key = encode_key(code);
        match self.store.get(key.as_slice()) {
            Some(_) => false,
            None => {
                self.store.put(key.as_slice(), unused_value().as_slice());
                true
            },
        }
    }

    /// Mints one fresh random code and records it as unused.
    ///
    /// A drawn code that collides with a recorded one is retried, not
    /// overwritten.  A collision takes a recorded code, so on a ledger where
    /// no code is recorded a code is owed — and returned at the first draw.
    /// `None` can come only when collisions are possible at all, and then
    /// only after an astronomically large number of independent draws all
    /// collided; no caller observes it in practice, and the ledger is then
    /// unchanged.
    pub fn new_invite(&mut self) -> (r: Option<Vec<u8>>)
        requires
            old(self).wf(),
        ensures
            final(self).wf(),
            match r {
                Some(code) => {
                    &&& is_code(code@)
                    &&& code_absent(old(self).contents(), code@)
                    &&& final(self).contents() == old(self).contents().insert(
                        invite_key(code@),
                        unused_bytes(),
                    )
                },
                None => final(self).contents() == old(self).contents(),
            },
            (forall|c: Seq<u8>| #[trigger] is_code(c) ==> code_absent(old(self).contents(), c))
                ==> r is Some,
    {
        let mut attempts: u64 = 0;
        while attempts < u64::MAX
            invariant
                self.wf(),
                self.contents() == old(self).contents(),
                (forall|c: Seq<u8>| #[trigger] is_code(c) ==> code_absent(
                    old(self).contents(),
                    c,
                )) ==> attempts == 0,
            decreases u64::MAX - attempts,
        {
            let code = new_code();
            if self.record_invite(code.as_slice()) {
                return Some(code);
            }
            attempts = attempts + 1;
        }
        None
    }

    /// Answers what state a code is in.  Never mutates, so repeated checks
    /// are safe.
    pub fn check_invite(&self, code: &[u8]) -> (r: Result<CheckResult, LedgerError>)
        requires
            self.wf(),
        ensures
            match r {
                Ok(c) => check_of(self.contents(), code@) == Some(c),
                Err(_) => check_of(self.contents(), code@) is None,
            },
    {
        let key = encode_key(code);
        let entry = self.store.get(key.as_slice());
        check_entry(entry.as_ref())
    }

    /// Consumes a code: marks it used if and only if it is recorded and
    /// still unused, and answers what happened.  At most one call ever
    /// answers `Consumed` for a given code; every later call answers
    /// `AlreadyUsed` and changes nothing.
    pub fn use_invite(&mut self, code: &[u8]) -> (r: Result<ConsumeResult, LedgerError>)
        requires
            old(self).wf(),
        ensures
            final(self).wf(),
            match r {
                Ok(res) => consume_of(old(self).contents(), code@) == Some(
                    (res, final(self).contents()),
                ),
                Err(_) => consume_of(old(self).contents(), code@) is None && final(self).contents()
                    == old(self).contents(),
            },
    {
        let key = encode_key(code);
        let entry = self.store.get(key.as_slice());
        match consume_entry(entry.as_ref()) {
            Ok((res, write)) => {
                match write {
                    Some(v) => {
                        self.store.put(key.as_slice(), v.as_slice());
                    },
                    None => {},
                }
                Ok(res)
            },
            Err(e) => Err(e),
        }
    }

    /// Lists every code whose recorded state is unused, in ascending
    /// lexicographic order, from one consistent snapshot of the ledger.
    /// Reports the ledger as inconsistent instead when some record is
    /// malformed.
    #[verifier::rlimit(60)]
    pub fn active_invites(&self) -> (r: Result<Vec<Vec<u8>>, LedgerError>)
        requires
            self.wf(),
        ensures
            match r {
                Ok(out) => lists_unused(self.contents(), out@),
                Err(_) => !ledger_inv(self.contents()),
            },
    {
        let ghost s = self.store.entries_seq();
        let ghost m = self.contents();
        proof {
            lemma_sorted_distinct(s);
        }
        let n = self.store.num_entries();
        let mut out: Vec<Vec<u8>> = Vec::new();
        let mut i: usize = 0;
        while i < n
            invariant
                0 <= i <= n,
                n == s.len(),
                s == self.store.entries_seq(),
                m == self.contents(),
                self.wf(),
                sorted(s),
                distinct_keys(s),
                forall|j: int|
                    0 <= j < i ==> is_invite_key((#[trigger] s[j]).0) && (is_unused_value(s[j].1)
                        || is_used_value(s[j].1)),
                forall|ri: int|
                    0 <= ri < out@.len() ==> code_unused(m, (#[trigger] out@[ri])@),
                forall|ri: int, j: int|
                    0 <= ri < out@.len() && i <= j < s.len() ==> lex_lt(
                        invite_key((#[trigger] out@[ri])@),
                        (#[trigger] s[j]).0,
                    ),
                forall|ri: int, rj: int|
                    0 <= ri < rj < out@.len() ==> lex_lt(
                        (#[trigger] out@[ri])@,
                        (#[trigger] out@[rj])@,
                    ),
                forall|j: int|
                    0 <= j < i && is_unused_value((#[trigger] s[j]).1) ==> exists|ri: int|
                        0 <= ri < out@.len() && (#[trigger] out@[ri])@ == code_of_key(s[j].0),
            decreases n - i,
        {
            let key = self.store.key_at(i);
            let val = self.store.value_at(i);
            let code = match decode_key(key.as_slice()) {
                Some(c) => c,
                None => {
                    proof {
                        lemma_entry_value(s, i as int);
                    }
                    return Err(LedgerError::Inconsistent);
                },
            };
            proof {
                lemma_invite_key_of_key(key@);
                assert(invite_key(code@) == key@);
                lemma_entry_value(s, i as int);
            }
            if bytes_eq(val.as_slice(), unused_value().as_slice()) {
                proof {
                    assert(code_unused(m, code@));
                    assert forall|ri: int| 0 <= ri < out@.len() implies lex_lt(
                        (#[trigger] out@[ri])@,
                        code@,
                    ) by {
                        assert(lex_lt(invite_key(out@[ri]@), s[i as int].0));
                        lemma_lex_lt_prefix(key_prefix(), out@[ri]@, code@);
                    }
                }
                let ghost out_old = out@;
                out.push(code);
                proof {
                    assert(out@ == out_old.push(code));
                    assert(out@[out@.len() - 1]@ == code_of_key(s[i as int].0));
                    assert forall|j: int|
                        0 <= j <= i && is_unused_value((#[trigger] s[j]).1) implies exists|ri: int|
                        0 <= ri < out@.len() && (#[trigger] out@[ri])@ == code_of_key(s[j].0) by {
                        if j < i {
                            let ri = choose|ri: int|
                                0 <= ri < out_old.len() && (#[trigger] out_old[ri])@
                                    == code_of_key(s[j].0);
                            assert(out@[ri]@ == code_of_key(s[j].0));
                        } else {
                            assert(out@[out@.len() - 1]@ == code_of_key(s[j].0));
                        }
                    }
                }
            } else if bytes_eq(val.as_slice(), used_value().as_slice()) {
                // consumed: not listed
            } else {
                proof {
                    lemma_entry_value(s, i as int);
                    if is_unused_value(val@) {
                        assert(val@ =~= unused_bytes());
                    }
                    if is_used_value(val@) {
                        assert(val@ =~= used_bytes());
                    }
                }
                return Err(LedgerError::Inconsistent);
            }
            i = i + 1;
        }
        proof {
            assert forall|k: Seq<u8>| #[trigger] m.contains_key(k) implies is_invite_key(k) && (
            is_unused_value(m[k]) || is_used_value(m[k])) by {
                assert(has_key(s, k));
                let j = choose|j: int| 0 <= j < s.len() && s[j].0 == k;
                lemma_entry_value(s, j);
            }
            assert forall|c: Seq<u8>| code_unused(m, c) implies exists|ri: int|
                0 <= ri < out@.len() && (#[trigger] out@[ri])@ == c by {
                assert(has_key(s, invite_key(c)));
                let j = choose|j: int| 0 <= j < s.len() && s[j].0 == invite_key(c);
                lemma_entry_value(s, j);
                assert(is_unused_value(s[j].1));
                let ri = choose|ri: int|
                    0 <= ri < out@.len() && (#[trigger] out@[ri])@ == code_of_key(s[j].0);
                lemma_code_of_invite_key(c);
                assert(out@[ri]@ == c);
            }
            assert(lists_unused(m, out@));
        }
        Ok(out)
    }
}

} // verus!

//! Invite codes and their storage encoding.
//!
//! A code is exactly eight ASCII alphanumeric bytes.  A code `c` is stored
//! under the key `"INVITE:" + c`; the stored value is a single byte, `0x00`
//! while the code is unused and `0x01` once it has been consumed.

use vstd::prelude::*;

verus! {

/// Number of symbols in an invite code.
pub const CODE_LEN: usize = 8;

/// A byte is one of the 62 ASCII alphanumerics: `0`-`9`, `A`-`Z`, `a`-`z`.
pub open spec fn is_alnum_byte(b: u8) -> bool {
    (48 <= b <= 57) || (65 <= b <= 90) || (97 <= b <= 122)
}

/// A well-formed invite code: exactly [`CODE_LEN`] alphanumeric bytes.
pub open spec fn is_code(c: Seq<u8>) -> bool {
    &&& c.len() == CODE_LEN
    &&& forall|i: int| 0 <= i < c.len() ==> is_alnum_byte(#[trigger] c[i])
}

/// The bytes of `"INVITE:"`, the prefix of every storage key.
pub open spec fn key_prefix() -> Seq<u8> {
    seq![73u8, 78u8, 86u8, 73u8, 84u8, 69u8, 58u8]
}

/// The storage key of a code: the bytes of `"INVITE:"` followed by the code.
pub open spec fn invite_key(c: Seq<u8>) -> Seq<u8> {
    key_prefix() + c
}

/// A key that some well-formed code is stored under.
pub open spec fn is_invite_key(k: Seq<u8>) -> bool {
    &&& k.len() == key_prefix().len() + CODE_LEN
    &&& k.subrange(0, key_prefix().len() as int) == key_prefix()
    &&& is_code(k.subrange(key_prefix().len() as int, k.len() as int))
}

/// The code a well-formed key stores.
pub open spec fn code_of_key(k: Seq<u8>) -> Seq<u8> {
    k.subrange(key_prefix().len() as int, k.len() as int)
}

/// The stored value marking a code as not yet consumed.
pub open spec fn unused_bytes() -> Seq<u8> {
    seq![0u8]
}

/// The stored value marking a code as consumed.
pub open spec fn used_bytes() -> Seq<u8> {
    seq![1u8]
}

/// `v` is the stored value of an unconsumed code: the single byte `0x00`.
pub open spec fn is_unused_value(v: Seq<u8>) -> bool {
    v.len() == 1 && v[0] == 0
}

/// `v` is the stored value of a consumed code: the single byte `0x01`.
pub open spec fn is_used_value(v: Seq<u8>) -> bool {
    v.len() == 1 && v[0] == 1
}

/// Two distinct codes are stored under two distinct keys.
pub proof fn lemma_invite_key_injective(c1: Seq<u8>, c2: Seq<u8>)
    requires
        invite_key(c1) == invite_key(c2),
    ensures
        c1 == c2,
{
    assert(c1 =~= invite_key(c1).subrange(key_prefix().len() as int, invite_key(c1).len() as int));
    assert(c2 =~= invite_key(c2).subrange(key_prefix().len() as int, invite_key(c2).len() as int));
}

/// A key always decodes back to the code it was built from.
pub proof fn lemma_code_of_invite_key(c: Seq<u8>)
    ensures
        code_of_key(invite_key(c)) == c,
        is_code(c) ==> is_invite_key(invite_key(c)),
{
    assert(invite_key(c).subrange(0, key_prefix().len() as int) =~= key_prefix());
    assert(invite_key(c).subrange(key_prefix().len() as int, invite_key(c).len() as int) =~= c);
}

/// A well-formed key is the key of the code it stores.
pub proof fn lemma_invite_key_of_key(k: Seq<u8>)
    requires
        is_invite_key(k),
    ensures
        invite_key(code_of_key(k)) == k,
        is_code(code_of_key(k)),
{
    assert(invite_key(code_of_key(k)) =~= k);
}

/// Decides whether a byte is ASCII alphanumeric.
pub fn is_alnum(b: u8) -> (r: bool)
    ensures
        r == is_alnum_byte(b),
{
    (48 <= b && b <= 57) || (65 <= b && b <= 90) || (97 <= b && b <= 122)
}

/// Decides whether `code` is a well-formed invite code.
pub fn is_valid_code(code: &[u8]) -> (r: bool)
    ensures
        r == is_code(code@),
{
    if code.len() != CODE_LEN {
        return false;
    }
    let mut i: usize = 0;
    while i < code.len()
        invariant
            0 <= i <= code@.len(),
            code@.len() == CODE_LEN,
            forall|j: int| 0 <= j < i ==> is_alnum_byte(#[trigger] code@[j]),
        decreases code@.len() - i,
    {
        if !is_alnum(code[i]) {
            return false;
        }
        i = i + 1;
    }
    true
}

/// Builds the storage key for a code: the bytes of `"INVITE:"` then the code.
pub fn encode_key(code: &[u8]) -> (r: Vec<u8>)
    ensures
        r@ == invite_key(code@),
{
    let mut key: Vec<u8> = Vec::new();
    key.push(73);
    key.push(78);
    key.push(86);
    key.push(73);
    key.push(84);
    key.push(69);
    key.push(58);
    let mut i: usize = 0;
    while i < code.len()
        invariant
            0 <= i <= code@.len(),
            key@ == key_prefix() + code@.subrange(0, i as int),
        decreases code@.len() - i,
    {
        key.push(code[i]);
        assert(key@ =~= key_prefix() + code@.subrange(0, i + 1 as int));
        i = i + 1;
    }
    assert(key@ =~= invite_key(code@));
    key
}

/// Extracts the code from a storage key, or `None` if the key is not the
/// well-formed key of some code.
pub fn decode_key(key: &[u8]) -> (r: Option<Vec<u8>>)
    ensures
        match r {
            Some(code) => is_invite_key(key@) && code@ == code_of_key(key@),
            None => !is_invite_key(key@),
        },
{
    if key.len() != 7 + CODE_LEN {
        return None;
    }
    let prefix: [u8; 7] = [73, 78, 86, 73, 84, 69, 58];
    let mut i: usize = 0;
    while i < 7
        invariant
            0 <= i <= 7,
            key@.len() == 7 + CODE_LEN,
            prefix@ == key_prefix(),
            forall|j: int| 0 <= j < i ==> key@[j] == key_prefix()[j],
        decreases 7 - i,
    {
        if key[i] != prefix[i] {
            assert(key@.subrange(0, key_prefix().len() as int) != key_prefix()) by {
                assert(key@.subrange(0, key_prefix().len() as int)[i as int] != key_prefix()[i as int]);
            }
            return None;
        }
        i = i + 1;
    }
    assert(key@.subrange(0, key_prefix().len() as int) =~= key_prefix());
    let mut code: Vec<u8> = Vec::new();
    let mut j: usize = 7;
    while j < key.len()
        invariant
            7 <= j <= key@.len(),
            key@.len() == 7 + CODE_LEN,
            code@ == key@.subrange(7, j as int),
        decreases key@.len() - j,
    {
        code.push(key[j]);
        assert(code@ =~= key@.subrange(7, j + 1 as int));
        j = j + 1;
    }
    assert(code@ =~= code_of_key(key@));
    if is_valid_code(code.as_slice()) {
        Some(code)
    } else {
        None
    }
}

} // verus!

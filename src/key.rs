use crate::error::GxtError;
use vstd::prelude::*;
use vstd::string::*;
use vstd::utf8::*;

verus! {

/// A key character is printable ASCII.
pub open spec fn key_char_ok(c: char) -> bool {
    0x20 <= c as u32 <= 0x7E
}

/// A key is one to eight printable ASCII characters.
pub open spec fn valid_key(k: Seq<char>) -> bool {
    &&& 1 <= k.len() <= 8
    &&& forall|i: int| 0 <= i < k.len() ==> key_char_ok(#[trigger] k[i])
}

/// The eight-byte slot of a valid key: its bytes, then zeros.
pub open spec fn key_slot(k: Seq<char>) -> Seq<u8> {
    Seq::new(8, |i: int| if i < k.len() { k[i] as u8 } else { 0u8 })
}

/// The index of the first zero byte of `raw` at or after `i`, or its length.
pub open spec fn zero_stop(raw: Seq<u8>, i: int) -> int
    decreases raw.len() - i,
{
    if i < 0 || i >= raw.len() || raw[i] == 0 {
        i
    } else {
        zero_stop(raw, i + 1)
    }
}

/// The bytes of a slot before its first zero byte.
pub open spec fn slot_text(raw: Seq<u8>) -> Seq<u8> {
    raw.take(zero_stop(raw, 0))
}

/// Relies on `String::from_utf8`: it succeeds exactly on valid UTF-8 and then holds the decoded text.
#[verifier::external_body]
fn string_from_utf8(b: Vec<u8>) -> (r: Option<String>)
    ensures
        r is Some <==> valid_utf8(b@),
        r matches Some(s) ==> s@ == decode_utf8(b@),
{
    String::from_utf8(b).ok()
}

/// Checks that `key` is one to eight printable ASCII characters.
pub fn validate_key(key: &str) -> (r: Result<(), GxtError>)
    ensures
        r is Ok <==> valid_key(key@),
        r matches Err(e) ==> e matches GxtError::InvalidKey { key: k } && k@ == key@,
{
    let n = key.unicode_len();
    if n == 0 || n > 8 {
        return Err(GxtError::InvalidKey { key: key.to_owned() });
    }
    let mut i: usize = 0;
    while i < n
        invariant
            n == key@.len(),
            1 <= n <= 8,
            i <= n,
            forall|j: int| 0 <= j < i ==> key_char_ok(#[trigger] key@[j]),
        decreases n - i,
    {
        let c = key.get_char(i);
        if (c as u32) < 0x20 || (c as u32) > 0x7E {
            return Err(GxtError::InvalidKey { key: key.to_owned() });
        }
        i = i + 1;
    }
    Ok(())
}

/// Reads a key from its eight-byte slot: the bytes before the first zero, as UTF-8 text.
pub fn decode_key_8bytes(raw: &[u8]) -> (r: Result<String, GxtError>)
    requires
        raw@.len() == 8,
    ensures
        match r {
            Ok(s) => valid_utf8(slot_text(raw@)) && s@ == decode_utf8(slot_text(raw@)),
            Err(e) => !valid_utf8(slot_text(raw@)) && e == GxtError::InvalidKeyEncoding,
        },
{
    let mut trimmed: Vec<u8> = Vec::new();
    let mut j: usize = 0;
    while j < raw.len() && raw[j] != 0
        invariant
            j <= raw@.len() == 8,
            zero_stop(raw@, j as int) == zero_stop(raw@, 0),
            trimmed@ == raw@.take(j as int),
        decreases raw@.len() - j,
    {
        trimmed.push(raw[j]);
        j = j + 1;
        assert(trimmed@ =~= raw@.take(j as int));
    }
    assert(trimmed@ == slot_text(raw@));
    match string_from_utf8(trimmed) {
        Some(s) => Ok(s),
        None => Err(GxtError::InvalidKeyEncoding),
    }
}

/// Writes a valid key into its eight-byte slot.
pub fn encode_key_8bytes(key: &str) -> (r: Result<[u8; 8], GxtError>)
    ensures
        r is Ok <==> valid_key(key@),
        r matches Ok(b) ==> b@ == key_slot(key@),
        r matches Err(e) ==> e matches GxtError::InvalidKey { key: k } && k@ == key@,
{
    validate_key(key)?;
    let n = key.unicode_len();
    let mut out = [0u8; 8];
    let mut i: usize = 0;
    while i < 8
        invariant
            n == key@.len(),
            valid_key(key@),
            i <= 8,
            forall|j: int| 0 <= j < i ==> out@[j] == #[trigger] key_slot(key@)[j],
        decreases 8 - i,
    {
        if i < n {
            let c = key.get_char(i);
            out[i] = c as u8;
        } else {
            out[i] = 0;
        }
        i = i + 1;
    }
    assert(out@ =~= key_slot(key@));
    Ok(out)
}

/// Reading a valid key's slot back gives the key.
pub proof fn lemma_key_round_trip(k: Seq<char>)
    requires
        valid_key(k),
    ensures
        valid_utf8(slot_text(key_slot(k))),
        decode_utf8(slot_text(key_slot(k))) == k,
{
    let raw = key_slot(k);
    assert forall|i: int| 0 <= i < k.len() implies raw[i] != 0 by {
        lemma_ascii_cast(k[i]);
    }
    lemma_zero_stop_from(raw, 0, k.len() as int);
    assert(is_ascii_chars(k)) by {
        assert forall|i: int| 0 <= i < k.len() implies '\0' <= #[trigger] k[i] <= '\u{7f}' by {
            lemma_ascii_cast(k[i]);
        }
    }
    is_ascii_chars_encode_utf8(k);
    assert(slot_text(raw) =~= encode_utf8(k));
    encode_utf8_valid_utf8(k);
    encode_utf8_decode_utf8(k);
}

proof fn lemma_ascii_cast(c: char)
    requires
        0x20 <= c as u32 <= 0x7e,
    ensures
        c as u8 == c as u32,
        c as u8 != 0,
        '\0' <= c <= '\u{7f}',
{
}

proof fn lemma_zero_stop_from(raw: Seq<u8>, i: int, n: int)
    requires
        0 <= i <= n <= raw.len(),
        n == raw.len() || raw[n] == 0,
        forall|j: int| i <= j < n ==> raw[j] != 0,
    ensures
        zero_stop(raw, i) == n,
    decreases n - i,
{
    if i < n {
        lemma_zero_stop_from(raw, i + 1, n);
    }
}

} // verus!

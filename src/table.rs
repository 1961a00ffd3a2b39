use crate::cursor::{le_bytes, lemma_le_bytes_round_trip, read_bytes, read_u32_le, require_magic, u32_at};
use crate::error::GxtError;
use crate::key::{
    decode_key_8bytes, encode_key_8bytes, key_slot, lemma_key_round_trip, slot_text, valid_key,
    validate_key,
};
use crate::text::{
    decode_utf16z_with_escapes, display_of, encode_units, encode_utf16z_with_escapes,
    lemma_scan_value_bytes, scan_units, value_bytes,
};
use vstd::prelude::*;
use vstd::utf8::{decode_utf8, valid_utf8};

verus! {

/// One row of a string table.
#[derive(Debug, Clone, PartialEq, Eq)]
pub struct GxtEntry {
    pub key: String,
    pub value: String,
}

/// A table together with the file it was read from, if any.
#[derive(Debug, Clone, PartialEq, Eq)]
pub struct GxtDocument {
    /// `None` for a table that was never saved.
    pub file_path: Option<String>,
    pub entries: Vec<GxtEntry>,
}

/// Where a table was saved.
#[derive(Debug, Clone, PartialEq, Eq)]
pub struct SaveResult {
    pub file_path: Option<String>,
}

/// The tag of the key index section, `TKEY`.
pub open spec fn tkey_tag() -> Seq<u8> {
    seq![0x54u8, 0x4B, 0x45, 0x59]
}

/// The tag of the value section, `TDAT`.
pub open spec fn tdat_tag() -> Seq<u8> {
    seq![0x54u8, 0x44, 0x41, 0x54]
}

/// Entry `i` has a valid key that no earlier entry has.
pub open spec fn key_ok_at(es: Seq<GxtEntry>, i: int) -> bool {
    &&& valid_key(es[i].key@)
    &&& forall|j: int| 0 <= j < i ==> es[j].key@ != es[i].key@
}

pub open spec fn keys_ok_upto(es: Seq<GxtEntry>, n: int) -> bool {
    forall|i: int| 0 <= i < n ==> key_ok_at(es, i)
}

/// Every key is valid and no key occurs twice.
pub open spec fn valid_entries(es: Seq<GxtEntry>) -> bool {
    keys_ok_upto(es, es.len() as int)
}

/// `e` reports the first entry, in table order, whose key is invalid or repeated.
pub open spec fn is_validation_error(es: Seq<GxtEntry>, e: GxtError) -> bool {
    exists|i: int|
        0 <= i < es.len() && keys_ok_upto(es, i) && !key_ok_at(es, i) && if !valid_key(
            es[i].key@,
        ) {
            e matches GxtError::InvalidKey { key: k } && k@ == es[i].key@
        } else {
            e matches GxtError::DuplicateKey { key: k } && k@ == es[i].key@
        }
}

/// The units of entry `i`'s value, where its escapes are valid.
pub open spec fn value_units(es: Seq<GxtEntry>, i: int) -> Seq<u16> {
    encode_units(es[i].value@)->Ok_0
}

/// The value section of a table: each value's bytes, in table order.
pub open spec fn value_section(es: Seq<GxtEntry>) -> Seq<u8>
    decreases es.len(),
{
    if es.len() == 0 {
        Seq::empty()
    } else {
        value_section(es.drop_last()) + value_bytes(value_units(es, es.len() - 1))
    }
}

/// The key records of a table: for each entry, its value's offset and its key slot.
pub open spec fn key_records(es: Seq<GxtEntry>) -> Seq<u8>
    decreases es.len(),
{
    if es.len() == 0 {
        Seq::empty()
    } else {
        key_records(es.drop_last()) + le_bytes(value_section(es.drop_last()).len() as u32)
            + key_slot(es.last().key@)
    }
}

/// The first value error in table order: an escape above `0x10FFFF`, or a value section
/// that outgrows a 32-bit size.
pub open spec fn section_error(es: Seq<GxtEntry>) -> Option<GxtError>
    decreases es.len(),
{
    if es.len() == 0 {
        None
    } else {
        match section_error(es.drop_last()) {
            Some(e) => Some(e),
            None => match encode_units(es.last().value@) {
                Err(cp) => Some(GxtError::InvalidEscapeCodepoint { codepoint: cp }),
                Ok(_) => if value_section(es).len() > u32::MAX {
                    Some(GxtError::ValueSectionTooLarge)
                } else {
                    None
                },
            },
        }
    }
}

/// The bytes of a table's file.
#[verifier::opaque]
pub open spec fn file_bytes(es: Seq<GxtEntry>) -> Seq<u8> {
    tkey_tag() + le_bytes((12 * es.len()) as u32) + key_records(es) + tdat_tag() + le_bytes(
        value_section(es).len() as u32,
    ) + value_section(es)
}

/// Checks every key in table order: it must be valid and must not repeat an earlier key.
pub fn validate_entries(entries: &[GxtEntry]) -> (r: Result<(), GxtError>)
    ensures
        r is Ok <==> valid_entries(entries@),
        r matches Err(e) ==> is_validation_error(entries@, e),
{
    let mut i: usize = 0;
    while i < entries.len()
        invariant
            i <= entries@.len(),
            keys_ok_upto(entries@, i as int),
        decreases entries@.len() - i,
    {
        let r = validate_key(entries[i].key.as_str());
        if r.is_err() {
            assert(!key_ok_at(entries@, i as int));
            return r;
        }
        let mut j: usize = 0;
        while j < i
            invariant
                i < entries@.len(),
                j <= i,
                keys_ok_upto(entries@, i as int),
                valid_key(entries@[i as int].key@),
                forall|m: int| 0 <= m < j ==> entries@[m].key@ != entries@[i as int].key@,
            decreases i - j,
        {
            if entries[j].key == entries[i].key {
                let e = GxtError::DuplicateKey { key: entries[i].key.clone() };
                assert(entries@[j as int].key@ == entries@[i as int].key@);
                assert(!key_ok_at(entries@, i as int));
                assert(is_validation_error(entries@, e));
                return Err(e);
            }
            j = j + 1;
        }
        i = i + 1;
    }
    Ok(())
}

fn push_u32_le(out: &mut Vec<u8>, v: u32)
    ensures
        final(out)@ == old(out)@ + le_bytes(v),
{
    out.push((v % 0x100) as u8);
    out.push((v / 0x100 % 0x100) as u8);
    out.push((v / 0x1_0000 % 0x100) as u8);
    out.push((v / 0x100_0000) as u8);
    assert(final(out)@ =~= old(out)@ + le_bytes(v));
}

fn push_bytes(out: &mut Vec<u8>, b: &[u8])
    ensures
        final(out)@ == old(out)@ + b@,
{
    let mut i: usize = 0;
    while i < b.len()
        invariant
            i <= b@.len(),
            out@ == old(out)@ + b@.take(i as int),
        decreases b@.len() - i,
    {
        out.push(b[i]);
        i = i + 1;
        assert(out@ =~= old(out)@ + b@.take(i as int));
    }
    assert(b@.take(i as int) =~= b@);
}

proof fn lemma_prefix_step(es: Seq<GxtEntry>, i: int)
    requires
        0 <= i < es.len(),
    ensures
        es.take(i + 1).drop_last() == es.take(i),
        es.take(i + 1).last() == es[i],
        value_units(es.take(i + 1), i) == value_units(es, i),
{
    assert(es.take(i + 1).drop_last() =~= es.take(i));
}

/// Encodes a table: the key index with one record per entry in table order, then the
/// value section with each value's units and terminator at the offset its record gives.
pub fn build_gxt_bytes(entries: &[GxtEntry]) -> (r: Result<Vec<u8>, GxtError>)
    requires
        12 * entries@.len() <= u32::MAX,
    ensures
        r is Ok <==> valid_entries(entries@) && section_error(entries@) is None,
        r matches Ok(b) ==> b@ == file_bytes(entries@),
        !valid_entries(entries@) ==> (r matches Err(e) && is_validation_error(entries@, e)),
        valid_entries(entries@) && r is Err ==> r == Err::<Vec<u8>, GxtError>(
            section_error(entries@)->0,
        ),
{
    validate_entries(entries)?;
    reveal(file_bytes);
    let ghost es = entries@;
    let mut out: Vec<u8> = Vec::new();
    let tkey: [u8; 4] = [0x54, 0x4B, 0x45, 0x59];
    push_bytes(&mut out, &tkey);
    push_u32_le(&mut out, (entries.len() as u32) * 12);
    let mut val_field: Vec<u8> = Vec::new();
    let mut offset: u32 = 0;
    let mut i: usize = 0;
    assert(es.take(0) =~= Seq::<GxtEntry>::empty());
    while i < entries.len()
        invariant
            es == entries@,
            valid_entries(es),
            i <= es.len(),
            out@ == tkey_tag() + le_bytes((12 * es.len()) as u32) + key_records(es.take(i as int)),
            val_field@ == value_section(es.take(i as int)),
            offset as int == val_field@.len(),
            section_error(es.take(i as int)) is None,
        decreases es.len() - i,
    {
        proof {
            lemma_prefix_step(es, i as int);
            assert(key_ok_at(es, i as int));
        }
        push_u32_le(&mut out, offset);
        let key8 = encode_key_8bytes(entries[i].key.as_str())?;
        push_bytes(&mut out, &key8);
        let ghost before = val_field@;
        let written = match encode_utf16z_with_escapes(entries[i].value.as_str(), &mut val_field) {
            Ok(w) => w,
            Err(e) => {
                proof {
                    assert(section_error(es.take(i + 1)) == Some(e));
                    lemma_section_error_extends(es, i + 1);
                }
                return Err(e);
            },
        };
        if offset > u32::MAX - written {
            proof {
                assert(section_error(es.take(i + 1)) == Some(GxtError::ValueSectionTooLarge));
                lemma_section_error_extends(es, i + 1);
            }
            return Err(GxtError::ValueSectionTooLarge);
        }
        offset = offset + written;
        i = i + 1;
    }
    assert(es.take(i as int) =~= es);
    let tdat: [u8; 4] = [0x54, 0x44, 0x41, 0x54];
    push_bytes(&mut out, &tdat);
    push_u32_le(&mut out, offset);
    push_bytes(&mut out, val_field.as_slice());
    Ok(out)
}

/// Once a prefix of the table has a value error, the whole table has that error.
proof fn lemma_section_error_extends(es: Seq<GxtEntry>, n: int)
    requires
        0 <= n <= es.len(),
        section_error(es.take(n)) is Some,
    ensures
        section_error(es) == section_error(es.take(n)),
    decreases es.len() - n,
{
    if n < es.len() {
        lemma_prefix_step(es, n);
        lemma_section_error_extends(es, n + 1);
    } else {
        assert(es.take(n) =~= es);
    }
}

/// The size of the key index, as the header gives it.
pub open spec fn key_field_size(b: Seq<u8>) -> int {
    u32_at(b, 4) as int
}

/// The number of key records, as the header gives it.
pub open spec fn record_count(b: Seq<u8>) -> int {
    key_field_size(b) / 12
}

/// The value offset of key record `k`.
pub open spec fn record_offset(b: Seq<u8>, k: int) -> u32 {
    u32_at(b, 8 + 12 * k)
}

/// The key bytes of key record `k`: its slot up to the first zero byte.
pub open spec fn record_key(b: Seq<u8>, k: int) -> Seq<u8> {
    slot_text(b.subrange(12 + 12 * k, 20 + 12 * k))
}

/// The size of the value section, as its header gives it.
pub open spec fn value_field_size(b: Seq<u8>) -> int {
    u32_at(b, 12 + key_field_size(b)) as int
}

/// The value section.
pub open spec fn value_field(b: Seq<u8>) -> Seq<u8> {
    b.subrange(16 + key_field_size(b), 16 + key_field_size(b) + value_field_size(b))
}

/// Key record `k` holds UTF-8 text that no earlier record holds.
pub open spec fn record_ok(b: Seq<u8>, k: int) -> bool {
    &&& valid_utf8(record_key(b, k))
    &&& forall|j: int|
        0 <= j < k ==> decode_utf8(#[trigger] record_key(b, j)) != decode_utf8(record_key(b, k))
}

/// Key record `k` points at an even offset inside the value section where a terminated
/// value starts.
pub open spec fn value_ok(b: Seq<u8>, k: int) -> bool {
    &&& record_offset(b, k) < value_field_size(b)
    &&& record_offset(b, k) % 2 == 0
    &&& scan_units(value_field(b), record_offset(b, k) as int) is Some
}

/// The two tags are in place, the sections fit the buffer, the key index is a whole number
/// of records, and every record is good.
pub open spec fn well_formed(b: Seq<u8>) -> bool {
    &&& b.len() >= 8
    &&& b.take(4) == tkey_tag()
    &&& key_field_size(b) % 12 == 0
    &&& b.len() >= 16 + key_field_size(b)
    &&& b.subrange(8 + key_field_size(b), 12 + key_field_size(b)) == tdat_tag()
    &&& b.len() >= 16 + key_field_size(b) + value_field_size(b)
    &&& forall|k: int| 0 <= k < record_count(b) ==> record_ok(b, k) && value_ok(b, k)
}

/// `e` is the entry that key record `k` of `b` describes.
pub open spec fn decoded_entry(b: Seq<u8>, k: int, e: GxtEntry) -> bool {
    &&& e.key@ == decode_utf8(record_key(b, k))
    &&& e.value@ == display_of(scan_units(value_field(b), record_offset(b, k) as int)->0)
}

/// Decodes a whole buffer into its entries, in key index order.
pub fn parse_gxt_bytes(bytes: &[u8]) -> (r: Result<Vec<GxtEntry>, GxtError>)
    ensures
        r is Ok <==> well_formed(bytes@),
        r matches Ok(es) ==> {
            &&& es@.len() == record_count(bytes@)
            &&& forall|k: int| 0 <= k < es@.len() ==> decoded_entry(bytes@, k, #[trigger] es@[k])
        },
        bytes@.len() < 4 ==> r == Err::<Vec<GxtEntry>, GxtError>(GxtError::UnexpectedEndOfData),
        bytes@.len() >= 4 && bytes@.take(4) != tkey_tag() ==> (r matches Err(
            GxtError::MagicMismatch { at, .. },
        ) && at == 0),
        4 <= bytes@.len() < 8 && bytes@.take(4) == tkey_tag() ==> r == Err::<Vec<GxtEntry>, GxtError>(
            GxtError::UnexpectedEndOfData,
        ),
        r == Err::<Vec<GxtEntry>, GxtError>(GxtError::UnexpectedEndOfData) ==> bytes@.len() < 16
            + key_field_size(bytes@) + value_field_size(bytes@) || bytes@.len() < 16
            + key_field_size(bytes@),
        r matches Err(GxtError::MagicMismatch { at, .. }) ==> (at == 0 && bytes@.take(4)
            != tkey_tag()) || (at == 8 + key_field_size(bytes@) && bytes@.subrange(
            at as int,
            at + 4,
        ) != tdat_tag()),
        bytes@.len() >= 8 && bytes@.take(4) == tkey_tag() && key_field_size(bytes@) % 12 != 0
            ==> r == Err::<Vec<GxtEntry>, GxtError>(
            GxtError::InvalidKeyFieldSize { size: u32_at(bytes@, 4) },
        ),
        r matches Err(GxtError::InvalidKeyEncoding) ==> exists|k: int|
            0 <= k < record_count(bytes@) && !valid_utf8(#[trigger] record_key(bytes@, k)),
        r matches Err(GxtError::DuplicateKey { key }) ==> exists|j: int, k: int|
            0 <= j < k < record_count(bytes@) && decode_utf8(#[trigger] record_key(bytes@, j))
                == key@ && decode_utf8(#[trigger] record_key(bytes@, k)) == key@,
        r matches Err(GxtError::ValueOffsetOutOfRange { key, offset }) ==> exists|k: int|
            0 <= k < record_count(bytes@) && #[trigger] record_offset(bytes@, k) == offset
                && offset >= value_field_size(bytes@) && key@ == decode_utf8(record_key(bytes@, k)),
        r matches Err(GxtError::UnalignedValueOffset { key, offset }) ==> exists|k: int|
            0 <= k < record_count(bytes@) && #[trigger] record_offset(bytes@, k) == offset
                && offset % 2 == 1 && key@ == decode_utf8(record_key(bytes@, k)),
        r matches Err(GxtError::TruncatedValue) ==> exists|k: int|
            0 <= k < record_count(bytes@) && scan_units(
                value_field(bytes@),
                #[trigger] record_offset(bytes@, k) as int,
            ) is None,
{
    let ghost b = bytes@;
    let mut cur: usize = 0;
    let tkey: [u8; 4] = [0x54, 0x4B, 0x45, 0x59];
    require_magic(bytes, &mut cur, &tkey)?;
    let key_size = read_u32_le(bytes, &mut cur)? as usize;
    if key_size % 12 != 0 {
        return Err(GxtError::InvalidKeyFieldSize { size: key_size as u32 });
    }
    let entry_count = key_size / 12;
    let mut keys: Vec<(String, u32)> = Vec::new();
    let mut k: usize = 0;
    while k < entry_count
        invariant
            b == bytes@,
            b.len() >= 8,
            b.take(4) == tkey_tag(),
            key_size == key_field_size(b),
            key_size % 12 == 0,
            entry_count == record_count(b),
            k <= entry_count,
            cur == 8 + 12 * k,
            cur <= b.len(),
            keys@.len() == k,
            forall|j: int| 0 <= j < k ==> #[trigger] record_ok(b, j),
            forall|j: int|
                0 <= j < k ==> (#[trigger] keys@[j]).0@ == decode_utf8(record_key(b, j))
                    && keys@[j].1 == record_offset(b, j),
        decreases entry_count - k,
    {
        let idx = read_u32_le(bytes, &mut cur)?;
        let key_raw = read_bytes(bytes, &mut cur, 8)?;
        let key = match decode_key_8bytes(key_raw) {
            Ok(s) => s,
            Err(e) => {
                assert(!record_ok(b, k as int));
                return Err(e);
            },
        };
        let mut j: usize = 0;
        while j < k
            invariant
                b == bytes@,
                b.len() >= 8,
                b.take(4) == tkey_tag(),
                key_field_size(b) % 12 == 0,
                entry_count == record_count(b),
                k < entry_count,
                keys@.len() == k,
                j <= k,
                key@ == decode_utf8(record_key(b, k as int)),
                forall|m: int|
                    0 <= m < k ==> (#[trigger] keys@[m]).0@ == decode_utf8(record_key(b, m)),
                forall|m: int| 0 <= m < j ==> decode_utf8(#[trigger] record_key(b, m)) != key@,
            decreases k - j,
        {
            if keys[j].0 == key {
                assert(decode_utf8(record_key(b, j as int)) == key@);
                assert(!record_ok(b, k as int));
                return Err(GxtError::DuplicateKey { key });
            }
            j = j + 1;
        }
        assert(record_ok(b, k as int));
        keys.push((key, idx));
        k = k + 1;
    }
    let tdat: [u8; 4] = [0x54, 0x44, 0x41, 0x54];
    require_magic(bytes, &mut cur, &tdat)?;
    let val_field_size = read_u32_le(bytes, &mut cur)? as usize;
    let val_field = read_bytes(bytes, &mut cur, val_field_size)?;
    assert(val_field@ == value_field(b));
    let mut entries: Vec<GxtEntry> = Vec::new();
    let mut k: usize = 0;
    while k < entry_count
        invariant
            b == bytes@,
            b.len() >= 16 + key_field_size(b) + value_field_size(b),
            b.take(4) == tkey_tag(),
            b.subrange(8 + key_field_size(b), 12 + key_field_size(b)) == tdat_tag(),
            key_field_size(b) % 12 == 0,
            entry_count == record_count(b),
            val_field@ == value_field(b),
            val_field@.len() == value_field_size(b),
            keys@.len() == entry_count,
            k <= entry_count,
            entries@.len() == k,
            forall|j: int| 0 <= j < entry_count ==> #[trigger] record_ok(b, j),
            forall|j: int|
                0 <= j < entry_count ==> (#[trigger] keys@[j]).0@ == decode_utf8(record_key(b, j))
                    && keys@[j].1 == record_offset(b, j),
            forall|j: int| 0 <= j < k ==> #[trigger] value_ok(b, j),
            forall|j: int| 0 <= j < k ==> decoded_entry(b, j, #[trigger] entries@[j]),
        decreases entry_count - k,
    {
        let idx = keys[k].1;
        let idx_usize = idx as usize;
        if idx_usize >= val_field.len() {
            assert(!value_ok(b, k as int));
            return Err(GxtError::ValueOffsetOutOfRange { key: keys[k].0.clone(), offset: idx });
        }
        if idx_usize % 2 != 0 {
            assert(!value_ok(b, k as int));
            return Err(GxtError::UnalignedValueOffset { key: keys[k].0.clone(), offset: idx });
        }
        let value = match decode_utf16z_with_escapes(val_field, idx_usize) {
            Ok(v) => v,
            Err(e) => {
                assert(!value_ok(b, k as int));
                return Err(e);
            },
        };
        let e = GxtEntry { key: keys[k].0.clone(), value };
        assert(decoded_entry(b, k as int, e));
        entries.push(e);
        k = k + 1;
    }
    Ok(entries)
}

/// A value that reads back as itself: its escapes are valid, it stands for no zero unit,
/// and the display text of its units is the value again.
pub open spec fn canonical_value(v: Seq<char>) -> bool {
    &&& encode_units(v) is Ok
    &&& forall|i: int|
        0 <= i < encode_units(v)->Ok_0.len() ==> #[trigger] encode_units(v)->Ok_0[i] != 0
    &&& display_of(encode_units(v)->Ok_0) == v
}

/// The value offset of entry `k`: the bytes of the values before it.
pub open spec fn value_offset(es: Seq<GxtEntry>, k: int) -> int {
    value_section(es.take(k)).len() as int
}

proof fn lemma_section_step(es: Seq<GxtEntry>, k: int)
    requires
        0 <= k < es.len(),
    ensures
        value_section(es.take(k + 1)) == value_section(es.take(k)) + value_bytes(
            value_units(es, k),
        ),
{
    lemma_prefix_step(es, k);
}

proof fn lemma_section_prefix(es: Seq<GxtEntry>, k: int, m: int)
    requires
        0 <= k <= m <= es.len(),
    ensures
        value_offset(es, k) <= value_offset(es, m),
        value_section(es.take(m)).take(value_offset(es, k)) == value_section(es.take(k)),
        value_offset(es, k) % 2 == 0,
    decreases m - k, k,
{
    if k == m {
        assert(value_section(es.take(m)).take(value_offset(es, k)) =~= value_section(es.take(k)));
        if k > 0 {
            lemma_section_step(es, k - 1);
            lemma_section_prefix(es, k - 1, k - 1);
        } else {
            assert(es.take(0) =~= Seq::<GxtEntry>::empty());
        }
    } else {
        lemma_section_prefix(es, k, m - 1);
        lemma_section_step(es, m - 1);
        assert(value_section(es.take(m)).take(value_offset(es, k)) =~= value_section(
            es.take(m - 1),
        ).take(value_offset(es, k)));
    }
}

proof fn lemma_records_len(es: Seq<GxtEntry>)
    ensures
        key_records(es).len() == 12 * es.len(),
    decreases es.len(),
{
    if es.len() > 0 {
        lemma_records_len(es.drop_last());
    }
}

proof fn lemma_records_at(es: Seq<GxtEntry>, k: int)
    requires
        0 <= k < es.len(),
    ensures
        key_records(es).subrange(12 * k, 12 * k + 12) == le_bytes(value_offset(es, k) as u32)
            + key_slot(es[k].key@),
    decreases es.len(),
{
    let p = es.drop_last();
    lemma_records_len(p);
    lemma_records_len(es);
    if k == es.len() - 1 {
        assert(p =~= es.take(k));
        assert(key_records(es).subrange(12 * k, 12 * k + 12) =~= le_bytes(
            value_offset(es, k) as u32,
        ) + key_slot(es[k].key@));
    } else {
        lemma_records_at(p, k);
        assert(p.take(k) =~= es.take(k));
        assert(key_records(es).subrange(12 * k, 12 * k + 12) =~= key_records(p).subrange(
            12 * k,
            12 * k + 12,
        ));
    }
}

proof fn lemma_section_fits(es: Seq<GxtEntry>)
    requires
        section_error(es) is None,
    ensures
        value_section(es).len() <= u32::MAX,
{
}

proof fn lemma_file_header(es: Seq<GxtEntry>)
    requires
        section_error(es) is None,
        12 * es.len() <= u32::MAX,
    ensures
        file_bytes(es).len() == 16 + 12 * es.len() + value_section(es).len(),
        file_bytes(es).take(4) == tkey_tag(),
        key_field_size(file_bytes(es)) == 12 * es.len(),
        file_bytes(es).subrange(8 + 12 * es.len() as int, 12 + 12 * es.len() as int) == tdat_tag(),
        value_field_size(file_bytes(es)) == value_section(es).len(),
        value_field(file_bytes(es)) == value_section(es),
        forall|i: int|
            0 <= i < 12 * es.len() ==> file_bytes(es)[8 + i] == #[trigger] key_records(es)[i],
{
    reveal(file_bytes);
    let b = file_bytes(es);
    let n = es.len() as int;
    let s = value_section(es);
    lemma_records_len(es);
    lemma_section_fits(es);
    lemma_le_bytes_round_trip((12 * n) as u32);
    lemma_le_bytes_round_trip(s.len() as u32);
    let l1 = le_bytes((12 * n) as u32);
    let l2 = le_bytes(s.len() as u32);
    assert(b.take(4) =~= tkey_tag());
    assert(b[4] == l1[0] && b[5] == l1[1] && b[6] == l1[2] && b[7] == l1[3]);
    assert(key_field_size(b) == 12 * n);
    assert(b.subrange(8 + 12 * n, 12 + 12 * n) =~= tdat_tag());
    assert(b[12 + 12 * n] == l2[0] && b[13 + 12 * n] == l2[1] && b[14 + 12 * n] == l2[2] && b[15
        + 12 * n] == l2[3]);
    assert(value_field_size(b) == s.len());
    assert(value_field(b) =~= s);
}

proof fn lemma_file_key_record(es: Seq<GxtEntry>, k: int)
    requires
        section_error(es) is None,
        12 * es.len() <= u32::MAX,
        0 <= k < es.len(),
    ensures
        record_offset(file_bytes(es), k) == value_offset(es, k),
        record_key(file_bytes(es), k) == slot_text(key_slot(es[k].key@)),
{
    let b = file_bytes(es);
    let n = es.len() as int;
    lemma_file_header(es);
    lemma_records_at(es, k);
    lemma_records_len(es);
    let off = value_offset(es, k);
    lemma_section_prefix(es, k, n);
    assert(es.take(n) =~= es);
    lemma_section_fits(es);
    let r = key_records(es);
    let l = le_bytes(off as u32);
    lemma_le_bytes_round_trip(off as u32);
    assert(r.subrange(12 * k, 12 * k + 12)[0] == l[0]);
    assert(r.subrange(12 * k, 12 * k + 12)[1] == l[1]);
    assert(r.subrange(12 * k, 12 * k + 12)[2] == l[2]);
    assert(r.subrange(12 * k, 12 * k + 12)[3] == l[3]);
    assert(b[8 + 12 * k] == r[12 * k]);
    assert(b[8 + 12 * k + 1] == r[12 * k + 1]);
    assert(b[8 + 12 * k + 2] == r[12 * k + 2]);
    assert(b[8 + 12 * k + 3] == r[12 * k + 3]);
    assert(record_offset(b, k) == off);
    assert forall|i: int| 0 <= i < 8 implies b.subrange(12 + 12 * k, 20 + 12 * k)[i] == key_slot(
        es[k].key@,
    )[i] by {
        assert(b[8 + (12 * k + 4 + i)] == r[12 * k + 4 + i]);
        assert(r.subrange(12 * k, 12 * k + 12)[4 + i] == r[12 * k + 4 + i]);
    }
    assert(b.subrange(12 + 12 * k, 20 + 12 * k) =~= key_slot(es[k].key@));
}

proof fn lemma_file_value(es: Seq<GxtEntry>, k: int)
    requires
        section_error(es) is None,
        12 * es.len() <= u32::MAX,
        0 <= k < es.len(),
        canonical_value(es[k].value@),
    ensures
        value_offset(es, k) < value_section(es).len(),
        value_offset(es, k) % 2 == 0,
        scan_units(value_section(es), value_offset(es, k)) == Some(value_units(es, k)),
{
    let n = es.len() as int;
    let s = value_section(es);
    let off = value_offset(es, k);
    let u = value_units(es, k);
    lemma_section_prefix(es, k + 1, n);
    lemma_section_prefix(es, k, k + 1);
    lemma_section_step(es, k);
    assert(es.take(n) =~= es);
    let vb = value_bytes(u);
    assert forall|i: int| 0 <= i < vb.len() implies s[off + i] == #[trigger] vb[i] by {
        assert(value_section(es.take(k + 1))[off + i] == vb[i]);
    }
    lemma_scan_value_bytes(s, off, u, 0);
    assert(u.skip(0) =~= u);
}

/// Key record `k` of a written table holds entry `k`'s offset and key slot, and its value
/// reads back as entry `k`'s units.
proof fn lemma_file_record(es: Seq<GxtEntry>, k: int)
    requires
        section_error(es) is None,
        12 * es.len() <= u32::MAX,
        0 <= k < es.len(),
        canonical_value(es[k].value@),
    ensures
        record_key(file_bytes(es), k) == slot_text(key_slot(es[k].key@)),
        value_ok(file_bytes(es), k),
        scan_units(value_field(file_bytes(es)), record_offset(file_bytes(es), k) as int) == Some(
            value_units(es, k),
        ),
{
    lemma_file_header(es);
    lemma_file_key_record(es, k);
    lemma_file_value(es, k);
}

/// The table round trip: a table whose keys are valid and distinct, whose values each read
/// back as themselves (`canonical_value`) and whose value section fits a 32-bit size is
/// written as a buffer that decodes to the same keys and values, in the same order.
pub proof fn lemma_table_round_trip(es: Seq<GxtEntry>)
    requires
        valid_entries(es),
        section_error(es) is None,
        12 * es.len() <= u32::MAX,
        forall|i: int| 0 <= i < es.len() ==> canonical_value(#[trigger] es[i].value@),
    ensures
        well_formed(file_bytes(es)),
        record_count(file_bytes(es)) == es.len(),
        forall|k: int| 0 <= k < es.len() ==> decoded_entry(file_bytes(es), k, #[trigger] es[k]),
{
    let b = file_bytes(es);
    lemma_file_header(es);
    assert forall|k: int| 0 <= k < es.len() implies decode_utf8(#[trigger] record_key(b, k))
        == es[k].key@ && valid_utf8(record_key(b, k)) && value_ok(b, k) && decoded_entry(
        b,
        k,
        es[k],
    ) by {
        lemma_file_record(es, k);
        assert(key_ok_at(es, k));
        lemma_key_round_trip(es[k].key@);
    }
    assert forall|k: int| 0 <= k < record_count(b) implies record_ok(b, k) && value_ok(b, k) by {
        assert(key_ok_at(es, k));
        assert forall|j: int| 0 <= j < k implies decode_utf8(#[trigger] record_key(b, j))
            != decode_utf8(record_key(b, k)) by {
            assert(decode_utf8(record_key(b, j)) == es[j].key@);
        }
    }
}

} // verus!

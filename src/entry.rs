//! The log entry, its mathematical model, and the checksum that seals it.

use vstd::prelude::*;
use vstd::utf8::*;

verus! {

/// The kind of change an entry records.
#[derive(PartialEq, Eq, Structural, Clone, Copy, Debug)]
pub enum Operation {
    Insert,
    Update,
    Delete,
}

/// One record of the log.
#[derive(Debug, PartialEq, Eq)]
pub struct WalEntry {
    pub key: String,
    pub value: String,
    pub timestamp: i64,
    pub transaction_id: String,
    pub operation: Operation,
    pub checksum: u32,
}

/// What a `WalEntry` means: its text fields as character sequences.
pub struct EntryModel {
    pub key: Seq<char>,
    pub value: Seq<char>,
    pub timestamp: i64,
    pub transaction_id: Seq<char>,
    pub operation: Operation,
    pub checksum: u32,
}

impl View for WalEntry {
    type V = EntryModel;

    open spec fn view(&self) -> EntryModel {
        EntryModel {
            key: self.key@,
            value: self.value@,
            timestamp: self.timestamp,
            transaction_id: self.transaction_id@,
            operation: self.operation,
            checksum: self.checksum,
        }
    }
}

/// The CRC-32 (polynomial 0xEDB88320, as computed by `checksum::crc32::Crc32`)
/// of a byte sequence.
pub uninterp spec fn crc32_of(bytes: Seq<u8>) -> u32;

/// Relies on `checksum::crc32::Crc32::checksum`: the CRC-32 of the bytes given.
/// The crate counts bytes in a `u32`, so the input must not exceed `u32::MAX` bytes.
#[verifier::external_body]
fn crc32(bytes: &[u8]) -> (r: u32)
    requires
        bytes@.len() <= u32::MAX,
    ensures
        r == crc32_of(bytes@),
{
    checksum::crc32::Crc32::new().checksum(bytes)
}

/// Relies on `uuid::Uuid::new_v4` and its `Display`: a random identifier in
/// hyphenated lower-case form, 36 characters of hex digits and hyphens.
/// (uuid panics only when the system's random source fails.)
#[verifier::external_body]
fn fresh_transaction_id() -> (r: String)
    ensures
        r@.len() == 36,
        is_ascii_chars(r@),
{
    uuid::Uuid::new_v4().to_string()
}

/// Relies on `chrono::Utc::now` and `DateTime::timestamp`: seconds since the
/// Unix epoch, as the clock reads it now; never negative, since chrono
/// panics when the system clock reads before the epoch.
#[verifier::external_body]
fn now_seconds() -> (r: i64)
    ensures
        r >= 0,
{
    chrono::Utc::now().timestamp()
}

pub open spec fn digit_byte(d: nat) -> u8 {
    (d + 48) as u8
}

/// The ASCII decimal digits of `n`, most significant first, no leading zeros.
pub open spec fn decimal_digits(n: nat) -> Seq<u8>
    decreases n,
{
    if n < 10 {
        seq![digit_byte(n)]
    } else {
        decimal_digits(n / 10).push(digit_byte(n % 10))
    }
}

/// How `i64` is written in decimal: a minus sign for negative values, then the digits.
pub open spec fn decimal_i64(x: i64) -> Seq<u8> {
    if x < 0 {
        seq![45u8] + decimal_digits((-(x as int)) as nat)
    } else {
        decimal_digits(x as nat)
    }
}

/// The display name of an operation (`Insert`, `Update`, `Delete`), as ASCII bytes.
pub open spec fn operation_name(op: Operation) -> Seq<u8> {
    match op {
        Operation::Insert => seq![73u8, 110u8, 115u8, 101u8, 114u8, 116u8],
        Operation::Update => seq![85u8, 112u8, 100u8, 97u8, 116u8, 101u8],
        Operation::Delete => seq![68u8, 101u8, 108u8, 101u8, 116u8, 101u8],
    }
}

/// The text that the checksum covers: `key|value|timestamp|transaction_id|operation`, as UTF-8.
pub open spec fn checksum_input(
    key: Seq<char>,
    value: Seq<char>,
    timestamp: i64,
    transaction_id: Seq<char>,
    operation: Operation,
) -> Seq<u8> {
    encode_utf8(key) + seq![124u8] + encode_utf8(value) + seq![124u8] + decimal_i64(timestamp)
        + seq![124u8] + encode_utf8(transaction_id) + seq![124u8] + operation_name(operation)
}

pub open spec fn entry_checksum_input(m: EntryModel) -> Seq<u8> {
    checksum_input(m.key, m.value, m.timestamp, m.transaction_id, m.operation)
}

/// An entry whose checksum can be recomputed (its checksum input fits the
/// checksum's `u32` byte counter) and matches the stored one.
pub open spec fn sealed(m: EntryModel) -> bool {
    &&& entry_checksum_input(m).len() <= u32::MAX
    &&& m.checksum == crc32_of(entry_checksum_input(m))
}

fn push_digits(out: &mut Vec<u8>, n: u64)
    ensures
        final(out)@ == old(out)@ + decimal_digits(n as nat),
    decreases n,
{
    if n >= 10 {
        push_digits(out, n / 10);
    }
    out.push((n % 10) as u8 + 48);
    assert(final(out)@ =~= old(out)@ + decimal_digits(n as nat));
}

fn push_str_bytes(out: &mut Vec<u8>, s: &str)
    ensures
        final(out)@ == old(out)@ + encode_utf8(s@),
{
    out.extend_from_slice(s.as_bytes());
}

fn push_operation_name(out: &mut Vec<u8>, op: Operation)
    ensures
        final(out)@ == old(out)@ + operation_name(op),
{
    let name: Vec<u8> = match op {
        Operation::Insert => vec![73u8, 110u8, 115u8, 101u8, 114u8, 116u8],
        Operation::Update => vec![85u8, 112u8, 100u8, 97u8, 116u8, 101u8],
        Operation::Delete => vec![68u8, 101u8, 108u8, 101u8, 116u8, 101u8],
    };
    assert(name@ =~= operation_name(op));
    out.extend_from_slice(name.as_slice());
}

fn push_decimal_i64(out: &mut Vec<u8>, x: i64)
    ensures
        final(out)@ == old(out)@ + decimal_i64(x),
{
    let magnitude: u64 = if x < 0 {
        out.push(45u8);
        ((-(x + 1)) as u64) + 1
    } else {
        x as u64
    };
    push_digits(out, magnitude);
    assert(final(out)@ =~= old(out)@ + decimal_i64(x));
}

/// The bytes that the checksum of an entry with these fields covers.
pub fn checksum_input_bytes(
    key: &str,
    value: &str,
    timestamp: i64,
    transaction_id: &str,
    operation: Operation,
) -> (r: Vec<u8>)
    ensures
        r@ == checksum_input(key@, value@, timestamp, transaction_id@, operation),
{
    let mut out: Vec<u8> = Vec::new();
    push_str_bytes(&mut out, key);
    out.push(124u8);
    push_str_bytes(&mut out, value);
    out.push(124u8);
    push_decimal_i64(&mut out, timestamp);
    out.push(124u8);
    push_str_bytes(&mut out, transaction_id);
    out.push(124u8);
    push_operation_name(&mut out, operation);
    assert(out@ =~= checksum_input(key@, value@, timestamp, transaction_id@, operation));
    out
}

/// The checksum that seals an entry with these fields.
pub fn compute_checksum(
    key: &str,
    value: &str,
    timestamp: i64,
    transaction_id: &str,
    operation: Operation,
) -> (r: u32)
    requires
        checksum_input(key@, value@, timestamp, transaction_id@, operation).len() <= u32::MAX,
    ensures
        r == crc32_of(checksum_input(key@, value@, timestamp, transaction_id@, operation)),
{
    let input = checksum_input_bytes(key, value, timestamp, transaction_id, operation);
    crc32(input.as_slice())
}

pub open spec fn pow10(k: nat) -> nat
    decreases k,
{
    if k == 0 {
        1
    } else {
        10 * pow10((k - 1) as nat)
    }
}

proof fn lemma_decimal_digits_len(n: nat, k: nat)
    requires
        1 <= k,
        n < pow10(k),
    ensures
        decimal_digits(n).len() <= k,
    decreases n,
{
    if n >= 10 {
        assert(k >= 2) by {
            if k == 1 {
                reveal_with_fuel(pow10, 2);
            }
        }
        let p = pow10((k - 1) as nat);
        assert(n / 10 < p) by (nonlinear_arith)
            requires
                n < 10 * p,
        ;
        lemma_decimal_digits_len(n / 10, (k - 1) as nat);
    }
}

proof fn lemma_decimal_i64_len(x: i64)
    ensures
        decimal_i64(x).len() <= 20,
{
    reveal_with_fuel(pow10, 20);
    assert(pow10(19) == 10000000000000000000);
    lemma_decimal_digits_len((if x < 0 { -(x as int) } else { x as int }) as nat, 19);
}

impl WalEntry {
    /// A new entry with a fresh random transaction id, the current time, and
    /// the checksum over its fields. The key and value together must leave
    /// room for the rest of the checksum input within the checksum's `u32`
    /// byte counter.
    pub fn new(operation: Operation, key: String, value: String) -> (r: WalEntry)
        requires
            encode_utf8(key@).len() + encode_utf8(value@).len() + 66 <= u32::MAX,
        ensures
            r.key@ == key@,
            r.value@ == value@,
            r.operation == operation,
            r.transaction_id@.len() == 36,
            r.timestamp >= 0,
            sealed(r@),
    {
        let transaction_id = fresh_transaction_id();
        let timestamp = now_seconds();
        proof {
            is_ascii_chars_encode_utf8(transaction_id@);
            lemma_decimal_i64_len(timestamp);
        }
        WalEntry::with_fields(operation, key, value, timestamp, transaction_id)
    }

    /// An entry with the given fields, sealed with the checksum over them.
    pub fn with_fields(
        operation: Operation,
        key: String,
        value: String,
        timestamp: i64,
        transaction_id: String,
    ) -> (r: WalEntry)
        requires
            checksum_input(key@, value@, timestamp, transaction_id@, operation).len() <= u32::MAX,
        ensures
            r.key@ == key@,
            r.value@ == value@,
            r.timestamp == timestamp,
            r.transaction_id@ == transaction_id@,
            r.operation == operation,
            r.checksum == crc32_of(checksum_input(key@, value@, timestamp, transaction_id@, operation)),
            sealed(r@),
    {
        let checksum = compute_checksum(
            key.as_str(),
            value.as_str(),
            timestamp,
            transaction_id.as_str(),
            operation,
        );
        WalEntry { key, value, timestamp, transaction_id, operation, checksum }
    }
}

/// Recomputes an entry's checksum and compares it with the stored one.
pub fn verify_checksum(entry: &WalEntry) -> (r: bool)
    ensures
        r == sealed(entry@),
{
    let input = checksum_input_bytes(
        entry.key.as_str(),
        entry.value.as_str(),
        entry.timestamp,
        entry.transaction_id.as_str(),
        entry.operation,
    );
    if input.len() > u32::MAX as usize {
        return false;
    }
    crc32(input.as_slice()) == entry.checksum
}

proof fn lemma_middle_differs(a: Seq<u8>, x: Seq<u8>, y: Seq<u8>, b: Seq<u8>)
    requires
        x != y,
    ensures
        a + x + b != a + y + b,
{
    if x.len() == y.len() {
        assert(exists|i: int| 0 <= i < x.len() && x[i] != y[i]) by {
            if forall|i: int| 0 <= i < x.len() ==> x[i] == y[i] {
                assert(x =~= y);
            }
        }
        let i = choose|i: int| 0 <= i < x.len() && x[i] != y[i];
        assert((a + x + b)[a.len() + i] == x[i]);
        assert((a + y + b)[a.len() + i] == y[i]);
    } else {
        assert((a + x + b).len() != (a + y + b).len());
    }
}

proof fn lemma_decimal_digits_shape(n: nat)
    ensures
        decimal_digits(n).len() >= 1,
        n >= 10 ==> decimal_digits(n).len() >= 2,
        48 <= decimal_digits(n)[0] <= 57,
    decreases n,
{
    if n >= 10 {
        lemma_decimal_digits_shape(n / 10);
    }
}

proof fn lemma_decimal_digits_injective(n1: nat, n2: nat)
    requires
        decimal_digits(n1) == decimal_digits(n2),
    ensures
        n1 == n2,
    decreases n1,
{
    lemma_decimal_digits_shape(n1);
    lemma_decimal_digits_shape(n2);
    if n1 >= 10 && n2 >= 10 {
        let d1 = decimal_digits(n1);
        let d2 = decimal_digits(n2);
        assert(d1.last() == digit_byte(n1 % 10));
        assert(d2.last() == digit_byte(n2 % 10));
        assert(d1.drop_last() =~= decimal_digits(n1 / 10));
        assert(d2.drop_last() =~= decimal_digits(n2 / 10));
        lemma_decimal_digits_injective(n1 / 10, n2 / 10);
    }
}

proof fn lemma_decimal_i64_injective(x: i64, y: i64)
    requires
        decimal_i64(x) == decimal_i64(y),
    ensures
        x == y,
{
    let mx = (if x < 0 { -(x as int) } else { x as int }) as nat;
    let my = (if y < 0 { -(y as int) } else { y as int }) as nat;
    lemma_decimal_digits_shape(mx);
    lemma_decimal_digits_shape(my);
    if x < 0 && y < 0 {
        assert(decimal_i64(x).subrange(1, decimal_i64(x).len() as int) =~= decimal_digits(mx));
        assert(decimal_i64(y).subrange(1, decimal_i64(y).len() as int) =~= decimal_digits(my));
        lemma_decimal_digits_injective(mx, my);
    } else if x >= 0 && y >= 0 {
        lemma_decimal_digits_injective(mx, my);
    } else if x < 0 {
        assert(decimal_i64(x)[0] == 45);
    } else {
        assert(decimal_i64(y)[0] == 45);
    }
}

proof fn lemma_utf8_injective(s1: Seq<char>, s2: Seq<char>)
    requires
        s1 != s2,
    ensures
        encode_utf8(s1) != encode_utf8(s2),
{
    encode_utf8_decode_utf8(s1);
    encode_utf8_decode_utf8(s2);
}

/// `n` differs from `m` in exactly one of the fields the checksum covers,
/// and carries the same checksum.
pub open spec fn one_field_changed(m: EntryModel, n: EntryModel) -> bool {
    let same_key = n.key == m.key;
    let same_value = n.value == m.value;
    let same_time = n.timestamp == m.timestamp;
    let same_tx = n.transaction_id == m.transaction_id;
    let same_op = n.operation == m.operation;
    &&& n.checksum == m.checksum
    &&& {
        ||| !same_key && same_value && same_time && same_tx && same_op
        ||| same_key && !same_value && same_time && same_tx && same_op
        ||| same_key && same_value && !same_time && same_tx && same_op
        ||| same_key && same_value && same_time && !same_tx && same_op
        ||| same_key && same_value && same_time && same_tx && !same_op
    }
}

proof fn lemma_key_change(m: EntryModel, n: EntryModel)
    requires
        n.key != m.key,
        n.value == m.value,
        n.timestamp == m.timestamp,
        n.transaction_id == m.transaction_id,
        n.operation == m.operation,
    ensures
        entry_checksum_input(n) != entry_checksum_input(m),
{
    let p = seq![124u8];
    lemma_utf8_injective(n.key, m.key);
    let rest = p + encode_utf8(m.value) + p + decimal_i64(m.timestamp) + p + encode_utf8(
        m.transaction_id,
    ) + p + operation_name(m.operation);
    assert(entry_checksum_input(n) =~= Seq::empty() + encode_utf8(n.key) + rest);
    assert(entry_checksum_input(m) =~= Seq::empty() + encode_utf8(m.key) + rest);
    lemma_middle_differs(Seq::empty(), encode_utf8(n.key), encode_utf8(m.key), rest);
}

proof fn lemma_value_change(m: EntryModel, n: EntryModel)
    requires
        n.key == m.key,
        n.value != m.value,
        n.timestamp == m.timestamp,
        n.transaction_id == m.transaction_id,
        n.operation == m.operation,
    ensures
        entry_checksum_input(n) != entry_checksum_input(m),
{
    let p = seq![124u8];
    lemma_utf8_injective(n.value, m.value);
    let head = encode_utf8(m.key) + p;
    let rest = p + decimal_i64(m.timestamp) + p + encode_utf8(m.transaction_id) + p
        + operation_name(m.operation);
    assert(entry_checksum_input(n) =~= head + encode_utf8(n.value) + rest);
    assert(entry_checksum_input(m) =~= head + encode_utf8(m.value) + rest);
    lemma_middle_differs(head, encode_utf8(n.value), encode_utf8(m.value), rest);
}

proof fn lemma_timestamp_change(m: EntryModel, n: EntryModel)
    requires
        n.key == m.key,
        n.value == m.value,
        n.timestamp != m.timestamp,
        n.transaction_id == m.transaction_id,
        n.operation == m.operation,
    ensures
        entry_checksum_input(n) != entry_checksum_input(m),
{
    let p = seq![124u8];
    if decimal_i64(n.timestamp) == decimal_i64(m.timestamp) {
        lemma_decimal_i64_injective(n.timestamp, m.timestamp);
    }
    let head = encode_utf8(m.key) + p + encode_utf8(m.value) + p;
    let rest = p + encode_utf8(m.transaction_id) + p + operation_name(m.operation);
    assert(entry_checksum_input(n) =~= head + decimal_i64(n.timestamp) + rest);
    assert(entry_checksum_input(m) =~= head + decimal_i64(m.timestamp) + rest);
    lemma_middle_differs(head, decimal_i64(n.timestamp), decimal_i64(m.timestamp), rest);
}

proof fn lemma_transaction_change(m: EntryModel, n: EntryModel)
    requires
        n.key == m.key,
        n.value == m.value,
        n.timestamp == m.timestamp,
        n.transaction_id != m.transaction_id,
        n.operation == m.operation,
    ensures
        entry_checksum_input(n) != entry_checksum_input(m),
{
    let p = seq![124u8];
    lemma_utf8_injective(n.transaction_id, m.transaction_id);
    let head = encode_utf8(m.key) + p + encode_utf8(m.value) + p + decimal_i64(m.timestamp) + p;
    let rest = p + operation_name(m.operation);
    assert(entry_checksum_input(n) =~= head + encode_utf8(n.transaction_id) + rest);
    assert(entry_checksum_input(m) =~= head + encode_utf8(m.transaction_id) + rest);
    lemma_middle_differs(head, encode_utf8(n.transaction_id), encode_utf8(m.transaction_id), rest);
}

proof fn lemma_operation_change(m: EntryModel, n: EntryModel)
    requires
        n.key == m.key,
        n.value == m.value,
        n.timestamp == m.timestamp,
        n.transaction_id == m.transaction_id,
        n.operation != m.operation,
    ensures
        entry_checksum_input(n) != entry_checksum_input(m),
{
    let p = seq![124u8];
    assert(operation_name(n.operation)[0] != operation_name(m.operation)[0]);
    let head = encode_utf8(m.key) + p + encode_utf8(m.value) + p + decimal_i64(m.timestamp) + p
        + encode_utf8(m.transaction_id) + p;
    let empty = Seq::<u8>::empty();
    assert(entry_checksum_input(n) =~= head + operation_name(n.operation) + empty);
    assert(entry_checksum_input(m) =~= head + operation_name(m.operation) + empty);
    lemma_middle_differs(head, operation_name(n.operation), operation_name(m.operation), empty);
}

/// Checksum sensitivity: changing any one of key, value, timestamp,
/// transaction id or operation of a sealed entry changes the text that the
/// checksum covers, so the entry no longer verifies, except where the CRC-32
/// of the new text collides with the old checksum.
pub proof fn lemma_change_breaks_seal(m: EntryModel, n: EntryModel)
    requires
        sealed(m),
        one_field_changed(m, n),
        crc32_of(entry_checksum_input(n)) != m.checksum,
    ensures
        entry_checksum_input(n) != entry_checksum_input(m),
        !sealed(n),
{
    if n.key != m.key {
        lemma_key_change(m, n);
    } else if n.value != m.value {
        lemma_value_change(m, n);
    } else if n.timestamp != m.timestamp {
        lemma_timestamp_change(m, n);
    } else if n.transaction_id != m.transaction_id {
        lemma_transaction_change(m, n);
    } else {
        lemma_operation_change(m, n);
    }
}

} // verus!

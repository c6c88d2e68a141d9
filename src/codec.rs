//! The record format: each entry is the bincode (version 1, default options)
//! encoding of the tuple `(key, value, timestamp, transaction_id,
//! operation index, checksum)`, which is byte for byte the encoding of the
//! entry as a struct. That encoding is then escaped so that a record holds
//! no newline or carriage return and stands on one line of a segment.

use vstd::prelude::*;
use vstd::utf8::*;
use crate::entry::{EntryModel, Operation, WalEntry};

verus! {

/// Why a record could not be encoded or decoded.
#[derive(PartialEq, Eq, Structural, Clone, Copy, Debug)]
pub enum CodecError {
    Encode,
    Decode,
}

/// The `k` low bytes of `n`, least significant first.
pub open spec fn le_bytes(n: nat, k: nat) -> Seq<u8>
    decreases k,
{
    if k == 0 {
        seq![]
    } else {
        seq![(n % 256) as u8] + le_bytes(n / 256, (k - 1) as nat)
    }
}

/// A string: its UTF-8 length as eight little-endian bytes, then its UTF-8 bytes.
pub open spec fn str_field(s: Seq<char>) -> Seq<u8> {
    le_bytes(encode_utf8(s).len(), 8) + encode_utf8(s)
}

/// The two's complement bits of a signed 64-bit integer, read unsigned.
pub open spec fn i64_bits(x: i64) -> nat {
    (if x < 0 { x + 0x1_0000_0000_0000_0000 } else { x as int }) as nat
}

/// A signed 64-bit integer in two's complement, little-endian.
pub open spec fn i64_field(x: i64) -> Seq<u8> {
    le_bytes(i64_bits(x), 8)
}

pub open spec fn u32_field(x: u32) -> Seq<u8> {
    le_bytes(x as nat, 4)
}

/// bincode 1's `serialize` of a `(&str, &str, i64, &str, u32, u32)` tuple:
/// the fields one after another, integers fixed-width little-endian.
pub open spec fn bincode_tuple(
    key: Seq<char>,
    value: Seq<char>,
    timestamp: i64,
    transaction_id: Seq<char>,
    operation: u32,
    checksum: u32,
) -> Seq<u8> {
    str_field(key) + (str_field(value) + (i64_field(timestamp) + (str_field(transaction_id) + (
    u32_field(operation) + u32_field(checksum)))))
}

pub open spec fn starts_with(bytes: Seq<u8>, prefix: Seq<u8>) -> bool {
    prefix.len() <= bytes.len() && bytes.subrange(0, prefix.len() as int) == prefix
}

/// The variant index that serde gives each operation.
pub open spec fn operation_index(op: Operation) -> u32 {
    match op {
        Operation::Insert => 0,
        Operation::Update => 1,
        Operation::Delete => 2,
    }
}

/// The fields of a record, in the order they are encoded.
pub type RecordTuple = (String, String, i64, String, u32, u32);

/// The fields of a record tuple, text as characters.
pub type TupleModel = (Seq<char>, Seq<char>, i64, Seq<char>, u32, u32);

/// The bytes of an entry's record.
pub open spec fn encoding(m: EntryModel) -> Seq<u8> {
    bincode_tuple(
        m.key,
        m.value,
        m.timestamp,
        m.transaction_id,
        operation_index(m.operation),
        m.checksum,
    )
}

/// How one byte is written in a record line: newline, carriage return and
/// the escape byte (a backslash) become a backslash followed by `n`, `r` or
/// another backslash; every other byte stands as it is.
pub open spec fn escape_byte(b: u8) -> Seq<u8> {
    if b == 10 {
        seq![92u8, 110u8]
    } else if b == 13 {
        seq![92u8, 114u8]
    } else if b == 92 {
        seq![92u8, 92u8]
    } else {
        seq![b]
    }
}

/// Bytes with every byte escaped, so that the result holds no newline or carriage return.
pub open spec fn escape(bytes: Seq<u8>) -> Seq<u8>
    decreases bytes.len(),
{
    if bytes.len() == 0 {
        Seq::empty()
    } else {
        escape_byte(bytes[0]) + escape(bytes.skip(1))
    }
}

/// The bytes that `s` is the escaped form of, if it is one.
pub open spec fn unescape(s: Seq<u8>) -> Option<Seq<u8>>
    decreases s.len(),
{
    if s.len() == 0 {
        Some(Seq::empty())
    } else if s[0] == 10 || s[0] == 13 {
        None
    } else if s[0] != 92 {
        match unescape(s.skip(1)) {
            Some(r) => Some(seq![s[0]] + r),
            None => None,
        }
    } else if s.len() >= 2 && (s[1] == 110 || s[1] == 114 || s[1] == 92) {
        let b: u8 = if s[1] == 110 {
            10
        } else if s[1] == 114 {
            13
        } else {
            92
        };
        match unescape(s.skip(2)) {
            Some(r) => Some(seq![b] + r),
            None => None,
        }
    } else {
        None
    }
}

/// The line that stands for an entry in a segment: its encoding, escaped.
pub open spec fn record(m: EntryModel) -> Seq<u8> {
    escape(encoding(m))
}

/// The entry whose record is exactly these bytes, if there is one.
pub open spec fn decode_record(bytes: Seq<u8>) -> Option<EntryModel> {
    if exists|m: EntryModel| record(m) == bytes {
        Some(choose|m: EntryModel| record(m) == bytes)
    } else {
        None
    }
}

/// Relies on `bincode::serialize` (bincode 1): with its default options a
/// string is a `u64` little-endian byte length followed by its UTF-8 bytes,
/// integers are fixed-width little-endian, and a tuple is its fields in order.
/// It has no size limit and writes to a `Vec`, so these fields never fail.
#[verifier::external_body]
fn bincode_serialize(
    key: &str,
    value: &str,
    timestamp: i64,
    transaction_id: &str,
    operation: u32,
    checksum: u32,
) -> (r: Option<Vec<u8>>)
    ensures
        r is Some,
        r matches Some(b) ==> b@ == bincode_tuple(
            key@,
            value@,
            timestamp,
            transaction_id@,
            operation,
            checksum,
        ),
{
    bincode::serialize(&(key, value, timestamp, transaction_id, operation, checksum)).ok()
}

/// `r` holds the tuple whenever `bytes` start with the tuple's encoding.
pub open spec fn reads_every_encoded_prefix(bytes: Seq<u8>, r: Option<RecordTuple>) -> bool {
    forall|f: TupleModel|
        #[trigger] starts_with(bytes, bincode_tuple(f.0, f.1, f.2, f.3, f.4, f.5)) ==> (r matches Some(
            t,
        ) && t.0@ == f.0 && t.1@ == f.1 && t.2 == f.2 && t.3@ == f.3 && t.4 == f.4 && t.5 == f.5)
}

/// Relies on `bincode::deserialize` (bincode 1), whose default options read
/// the format that `bincode::serialize` writes and allow trailing bytes: it
/// succeeds exactly when the bytes start with the encoding of some tuple,
/// and then returns that tuple.
#[verifier::external_body]
fn bincode_deserialize(bytes: &[u8]) -> (r: Option<RecordTuple>)
    ensures
        r matches Some(t) ==> starts_with(bytes@, bincode_tuple(t.0@, t.1@, t.2, t.3@, t.4, t.5)),
        reads_every_encoded_prefix(bytes@, r),
{
    bincode::deserialize::<RecordTuple>(bytes).ok()
}

proof fn lemma_le_bytes_len(n: nat, k: nat)
    ensures
        le_bytes(n, k).len() == k,
    decreases k,
{
    if k > 0 {
        lemma_le_bytes_len(n / 256, (k - 1) as nat);
    }
}

proof fn lemma_bincode_tuple_len(
    key: Seq<char>,
    value: Seq<char>,
    timestamp: i64,
    transaction_id: Seq<char>,
    operation: u32,
    checksum: u32,
)
    ensures
        bincode_tuple(key, value, timestamp, transaction_id, operation, checksum).len() == 40
            + encode_utf8(key).len() + encode_utf8(value).len() + encode_utf8(transaction_id).len(),
{
    lemma_le_bytes_len(encode_utf8(key).len(), 8);
    lemma_le_bytes_len(encode_utf8(value).len(), 8);
    lemma_le_bytes_len(encode_utf8(transaction_id).len(), 8);
    lemma_le_bytes_len(i64_bits(timestamp), 8);
    lemma_le_bytes_len(operation as nat, 4);
    lemma_le_bytes_len(checksum as nat, 4);
    assert(str_field(key).len() == 8 + encode_utf8(key).len());
    assert(str_field(value).len() == 8 + encode_utf8(value).len());
    assert(str_field(transaction_id).len() == 8 + encode_utf8(transaction_id).len());
    assert(i64_field(timestamp).len() == 8);
    assert(u32_field(operation).len() == 4);
    assert(u32_field(checksum).len() == 4);
}

/// A record is 40 bytes longer than the UTF-8 of its three strings.
pub proof fn lemma_bincode_tuple_len_of(m: EntryModel)
    ensures
        encoding(m).len() == 40 + encode_utf8(m.key).len() + encode_utf8(m.value).len()
            + encode_utf8(m.transaction_id).len(),
{
    lemma_bincode_tuple_len(
        m.key,
        m.value,
        m.timestamp,
        m.transaction_id,
        operation_index(m.operation),
        m.checksum,
    );
}

proof fn lemma_whole_prefix(bytes: Seq<u8>, m: EntryModel)
    requires
        encoding(m) == bytes,
    ensures
        starts_with(
            bytes,
            bincode_tuple(
                m.key,
                m.value,
                m.timestamp,
                m.transaction_id,
                operation_index(m.operation),
                m.checksum,
            ),
        ),
{
    assert(bytes.subrange(0, bytes.len() as int) =~= bytes);
}

/// The entry whose encoding is exactly `raw`.
fn decode_raw(raw: &[u8]) -> (r: Result<WalEntry, CodecError>)
    ensures
        r matches Ok(e) ==> raw@ == encoding(e@) && fits(e@),
        r is Err ==> forall|m: EntryModel| encoding(m) != raw@,
        r matches Err(err) ==> err == CodecError::Decode,
{
    let total: usize = raw.len();
    let t = match bincode_deserialize(raw) {
        Some(t) => t,
        None => {
            proof {
                assert forall|m: EntryModel| encoding(m) != raw@ by {
                    if encoding(m) == raw@ {
                        lemma_whole_prefix(raw@, m);
                        let f: TupleModel = (m.key, m.value, m.timestamp, m.transaction_id, operation_index(m.operation), m.checksum);
                        assert(starts_with(raw@, bincode_tuple(f.0, f.1, f.2, f.3, f.4, f.5)));
                    }
                }
            }
            return Err(CodecError::Decode);
        },
    };
    let (key, value, timestamp, transaction_id, op, checksum) = t;
    let ghost tuple = bincode_tuple(key@, value@, timestamp, transaction_id@, op, checksum);
    proof {
        lemma_bincode_tuple_len(key@, value@, timestamp, transaction_id@, op, checksum);
        assert forall|m: EntryModel| encoding(m) == raw@ implies m.key == key@ && m.value == value@
            && m.timestamp == timestamp && m.transaction_id == transaction_id@ && operation_index(
            m.operation,
        ) == op && m.checksum == checksum by {
            lemma_whole_prefix(raw@, m);
            let f: TupleModel = (m.key, m.value, m.timestamp, m.transaction_id, operation_index(m.operation), m.checksum);
            assert(starts_with(raw@, bincode_tuple(f.0, f.1, f.2, f.3, f.4, f.5)));
        }
    }
    let operation = match op {
        0 => Operation::Insert,
        1 => Operation::Update,
        2 => Operation::Delete,
        _ => {
            return Err(CodecError::Decode);
        },
    };
    let expected: usize = 40 + key.as_str().len() + value.as_str().len()
        + transaction_id.as_str().len();
    if expected != total {
        proof {
            assert forall|m: EntryModel| encoding(m) != raw@ by {
                if encoding(m) == raw@ {
                    lemma_bincode_tuple_len_of(m);
                }
            }
        }
        return Err(CodecError::Decode);
    }
    let e = WalEntry { key, value, timestamp, transaction_id, operation, checksum };
    assert(raw@ =~= tuple);
    Ok(e)
}

proof fn lemma_escape_concat(x: Seq<u8>, y: Seq<u8>)
    ensures
        escape(x + y) == escape(x) + escape(y),
    decreases x.len(),
{
    if x.len() == 0 {
        assert(x + y =~= y);
        assert(escape(x) + escape(y) =~= escape(y));
    } else {
        lemma_escape_concat(x.skip(1), y);
        assert((x + y).skip(1) =~= x.skip(1) + y);
        assert((x + y)[0] == x[0]);
        assert(escape(x) + escape(y) =~= escape_byte(x[0]) + (escape(x.skip(1)) + escape(y)));
    }
}

proof fn lemma_escape_one(b: u8)
    ensures
        escape(seq![b]) == escape_byte(b),
{
    assert(seq![b].skip(1) =~= Seq::<u8>::empty());
    assert(seq![b][0] == b);
    assert(escape(Seq::<u8>::empty()) == Seq::<u8>::empty());
    assert(escape_byte(b) + Seq::<u8>::empty() =~= escape_byte(b));
}

/// Escaped bytes hold no newline and no carriage return, and are at least as long.
pub proof fn lemma_escape_clean(bytes: Seq<u8>)
    ensures
        forall|i: int|
            0 <= i < escape(bytes).len() ==> #[trigger] escape(bytes)[i] != 10 && escape(bytes)[i]
                != 13,
        escape(bytes).len() >= bytes.len(),
    decreases bytes.len(),
{
    if bytes.len() > 0 {
        lemma_escape_clean(bytes.skip(1));
        let e = escape(bytes);
        let h = escape_byte(bytes[0]);
        let t = escape(bytes.skip(1));
        assert forall|i: int| 0 <= i < e.len() implies #[trigger] e[i] != 10 && e[i] != 13 by {
            if i >= h.len() {
                assert(e[i] == t[i - h.len()]);
            }
        }
    }
}

proof fn lemma_unescape_escape(bytes: Seq<u8>)
    ensures
        unescape(escape(bytes)) == Some(bytes),
    decreases bytes.len(),
{
    if bytes.len() == 0 {
    } else {
        lemma_unescape_escape(bytes.skip(1));
        let h = escape_byte(bytes[0]);
        let e = escape(bytes);
        assert(e.skip(h.len() as int) =~= escape(bytes.skip(1)));
        assert(e[0] == h[0]);
        if h.len() == 2 {
            assert(e[1] == h[1]);
        }
        assert(seq![bytes[0]] + bytes.skip(1) =~= bytes);
    }
}

proof fn lemma_escape_unescape(s: Seq<u8>)
    requires
        unescape(s) is Some,
    ensures
        escape(unescape(s)->Some_0) == s,
    decreases s.len(),
{
    if s.len() > 0 {
        let r = unescape(s)->Some_0;
        if s[0] != 92 {
            lemma_escape_unescape(s.skip(1));
            assert(r.skip(1) =~= unescape(s.skip(1))->Some_0);
            assert(escape(r) =~= seq![s[0]] + s.skip(1));
            assert(seq![s[0]] + s.skip(1) =~= s);
        } else {
            lemma_escape_unescape(s.skip(2));
            assert(r.skip(1) =~= unescape(s.skip(2))->Some_0);
            assert(escape(r) =~= seq![s[0], s[1]] + s.skip(2));
            assert(seq![s[0], s[1]] + s.skip(2) =~= s);
        }
    }
}

pub open spec fn prepend(acc: Seq<u8>, rest: Option<Seq<u8>>) -> Option<Seq<u8>> {
    match rest {
        Some(r) => Some(acc + r),
        None => None,
    }
}

fn escape_bytes(bytes: &[u8]) -> (r: Vec<u8>)
    ensures
        r@ == escape(bytes@),
{
    let mut out: Vec<u8> = Vec::new();
    let mut i: usize = 0;
    while i < bytes.len()
        invariant
            i <= bytes@.len(),
            out@ == escape(bytes@.take(i as int)),
        decreases bytes@.len() - i,
    {
        let b = bytes[i];
        proof {
            assert(bytes@.take(i + 1) =~= bytes@.take(i as int) + seq![b]);
            lemma_escape_concat(bytes@.take(i as int), seq![b]);
            lemma_escape_one(b);
        }
        if b == 10 {
            out.push(92u8);
            out.push(110u8);
        } else if b == 13 {
            out.push(92u8);
            out.push(114u8);
        } else if b == 92 {
            out.push(92u8);
            out.push(92u8);
        } else {
            out.push(b);
        }
        assert(out@ =~= escape(bytes@.take(i + 1)));
        i += 1;
    }
    assert(bytes@.take(i as int) =~= bytes@);
    out
}

fn unescape_bytes(s: &[u8]) -> (r: Option<Vec<u8>>)
    ensures
        match r {
            Some(v) => unescape(s@) == Some(v@),
            None => unescape(s@) is None,
        },
{
    let mut out: Vec<u8> = Vec::new();
    let mut i: usize = 0;
    assert(s@.skip(0) =~= s@);
    assert(prepend(Seq::empty(), unescape(s@)) =~= unescape(s@));
    while i < s.len()
        invariant
            i <= s@.len(),
            unescape(s@) == prepend(out@, unescape(s@.skip(i as int))),
        decreases s@.len() - i,
    {
        let b = s[i];
        let ghost rest = s@.skip(i as int);
        assert(rest[0] == b);
        if b == 10 || b == 13 {
            return None;
        } else if b != 92 {
            assert(rest.skip(1) =~= s@.skip(i + 1));
            let ghost before = out@;
            out.push(b);
            proof {
                match unescape(s@.skip(i + 1)) {
                    Some(t) => assert(before + (seq![b] + t) =~= out@ + t),
                    None => {},
                }
            }
            i += 1;
        } else if i + 1 < s.len() && (s[i + 1] == 110 || s[i + 1] == 114 || s[i + 1] == 92) {
            let c = s[i + 1];
            assert(rest[1] == c);
            assert(rest.skip(2) =~= s@.skip(i + 2));
            let d: u8 = if c == 110 {
                10
            } else if c == 114 {
                13
            } else {
                92
            };
            let ghost before = out@;
            out.push(d);
            proof {
                match unescape(s@.skip(i + 2)) {
                    Some(t) => assert(before + (seq![d] + t) =~= out@ + t),
                    None => {},
                }
            }
            i += 2;
        } else {
            return None;
        }
    }
    assert(s@.skip(i as int) =~= Seq::<u8>::empty());
    assert(out@ + Seq::<u8>::empty() =~= out@);
    Some(out)
}

proof fn lemma_record_unescapes(bytes: Seq<u8>)
    ensures
        decode_record(bytes) matches Some(m) ==> unescape(bytes) == Some(encoding(m)),
{
    if exists|m: EntryModel| record(m) == bytes {
        let m = choose|m: EntryModel| record(m) == bytes;
        lemma_unescape_escape(encoding(m));
    }
}

proof fn lemma_record_unique(m: EntryModel, bytes: Seq<u8>)
    requires
        fits(m),
        record(m) == bytes,
    ensures
        decode_record(bytes) == Some(m),
{
    let c = choose|c: EntryModel| record(c) == bytes;
    lemma_unescape_escape(encoding(m));
    lemma_unescape_escape(encoding(c));
    lemma_encoding_injective(m, c);
}

impl WalEntry {
    /// The record line of this entry; encoding cannot fail.
    pub fn to_bytes(&self) -> (r: Result<Vec<u8>, CodecError>)
        ensures
            r matches Ok(b) && b@ == record(self@),
    {
        let op: u32 = match self.operation {
            Operation::Insert => 0,
            Operation::Update => 1,
            Operation::Delete => 2,
        };
        match bincode_serialize(
            self.key.as_str(),
            self.value.as_str(),
            self.timestamp,
            self.transaction_id.as_str(),
            op,
            self.checksum,
        ) {
            Some(b) => Ok(escape_bytes(b.as_slice())),
            None => Err(CodecError::Encode),
        }
    }

    /// The entry whose record line is exactly `bytes`; `Decode` when the
    /// bytes are truncated, malformed, or followed by anything.
    pub fn from_bytes(bytes: &[u8]) -> (r: Result<WalEntry, CodecError>)
        ensures
            r matches Ok(e) ==> bytes@ == record(e@) && decode_record(bytes@) == Some(e@),
            r is Err <==> decode_record(bytes@) is None,
            r matches Err(err) ==> err == CodecError::Decode,
    {
        let raw = match unescape_bytes(bytes) {
            Some(raw) => raw,
            None => {
                proof {
                    lemma_record_unescapes(bytes@);
                }
                return Err(CodecError::Decode);
            },
        };
        proof {
            lemma_escape_unescape(bytes@);
        }
        match decode_raw(raw.as_slice()) {
            Ok(e) => {
                proof {
                    lemma_record_unique(e@, bytes@);
                }
                Ok(e)
            },
            Err(err) => {
                proof {
                    lemma_record_unescapes(bytes@);
                }
                Err(err)
            },
        }
    }
}

pub open spec fn pow256(k: nat) -> nat
    decreases k,
{
    if k == 0 {
        1
    } else {
        256 * pow256((k - 1) as nat)
    }
}

/// An entry whose record is short enough for its lengths to be written in
/// the record's 64-bit length prefixes.
pub open spec fn fits(m: EntryModel) -> bool {
    encoding(m).len() <= u64::MAX
}

proof fn lemma_le_bytes_injective(a: nat, b: nat, k: nat)
    requires
        a < pow256(k),
        b < pow256(k),
        le_bytes(a, k) == le_bytes(b, k),
    ensures
        a == b,
    decreases k,
{
    if k > 0 {
        let p = pow256((k - 1) as nat);
        let sa = le_bytes(a, k);
        let sb = le_bytes(b, k);
        assert(sa[0] == (a % 256) as u8);
        assert(sb[0] == (b % 256) as u8);
        assert(sa.subrange(1, sa.len() as int) =~= le_bytes(a / 256, (k - 1) as nat));
        assert(sb.subrange(1, sb.len() as int) =~= le_bytes(b / 256, (k - 1) as nat));
        assert(a / 256 < p) by (nonlinear_arith)
            requires
                a < 256 * p,
        ;
        assert(b / 256 < p) by (nonlinear_arith)
            requires
                b < 256 * p,
        ;
        lemma_le_bytes_injective(a / 256, b / 256, (k - 1) as nat);
        assert(a % 256 == b % 256);
        assert(a == 256 * (a / 256) + a % 256) by (nonlinear_arith);
        assert(b == 256 * (b / 256) + b % 256) by (nonlinear_arith);
    }
}

proof fn lemma_split_concat(a1: Seq<u8>, r1: Seq<u8>, a2: Seq<u8>, r2: Seq<u8>)
    requires
        a1.len() == a2.len(),
        a1 + r1 == a2 + r2,
    ensures
        a1 == a2,
        r1 == r2,
{
    assert(a1 =~= (a1 + r1).subrange(0, a1.len() as int));
    assert(a2 =~= (a2 + r2).subrange(0, a2.len() as int));
    assert(r1 =~= (a1 + r1).subrange(a1.len() as int, (a1 + r1).len() as int));
    assert(r2 =~= (a2 + r2).subrange(a2.len() as int, (a2 + r2).len() as int));
}

proof fn lemma_str_field_split(s1: Seq<char>, r1: Seq<u8>, s2: Seq<char>, r2: Seq<u8>)
    requires
        encode_utf8(s1).len() <= u64::MAX,
        encode_utf8(s2).len() <= u64::MAX,
        str_field(s1) + r1 == str_field(s2) + r2,
    ensures
        s1 == s2,
        r1 == r2,
{
    let e1 = encode_utf8(s1);
    let e2 = encode_utf8(s2);
    let l1 = le_bytes(e1.len(), 8);
    let l2 = le_bytes(e2.len(), 8);
    lemma_le_bytes_len(e1.len(), 8);
    lemma_le_bytes_len(e2.len(), 8);
    assert(str_field(s1) + r1 =~= l1 + (e1 + r1));
    assert(str_field(s2) + r2 =~= l2 + (e2 + r2));
    lemma_split_concat(l1, e1 + r1, l2, e2 + r2);
    reveal_with_fuel(pow256, 9);
    lemma_le_bytes_injective(e1.len(), e2.len(), 8);
    lemma_split_concat(e1, r1, e2, r2);
    encode_utf8_decode_utf8(s1);
    encode_utf8_decode_utf8(s2);
}

proof fn lemma_fixed_field_split(a: nat, r1: Seq<u8>, b: nat, r2: Seq<u8>, k: nat)
    requires
        a < pow256(k),
        b < pow256(k),
        le_bytes(a, k) + r1 == le_bytes(b, k) + r2,
    ensures
        a == b,
        r1 == r2,
{
    lemma_le_bytes_len(a, k);
    lemma_le_bytes_len(b, k);
    lemma_split_concat(le_bytes(a, k), r1, le_bytes(b, k), r2);
    lemma_le_bytes_injective(a, b, k);
}

proof fn lemma_encoding_then(m: EntryModel, r: Seq<u8>)
    ensures
        encoding(m) + r == str_field(m.key) + (str_field(m.value) + (i64_field(m.timestamp) + (
        str_field(m.transaction_id) + (u32_field(operation_index(m.operation)) + (u32_field(
            m.checksum,
        ) + r))))),
{
    let a = str_field(m.key);
    let b = str_field(m.value);
    let c = i64_field(m.timestamp);
    let d = str_field(m.transaction_id);
    let e = u32_field(operation_index(m.operation));
    let f = u32_field(m.checksum);
    assert(encoding(m) == a + (b + (c + (d + (e + f)))));
    assert((e + f) + r =~= e + (f + r));
    assert((d + (e + f)) + r =~= d + (e + (f + r)));
    assert((c + (d + (e + f))) + r =~= c + (d + (e + (f + r))));
    assert((b + (c + (d + (e + f)))) + r =~= b + (c + (d + (e + (f + r)))));
    assert((a + (b + (c + (d + (e + f))))) + r =~= a + (b + (c + (d + (e + (f + r))))));
}

/// No record encoding is a proper prefix of another: when the encodings of
/// two fitting entries, each followed by more bytes, agree, the entries and
/// the bytes after them are equal.
pub proof fn lemma_encoding_prefix_free(m1: EntryModel, r1: Seq<u8>, m2: EntryModel, r2: Seq<u8>)
    requires
        fits(m1),
        fits(m2),
        encoding(m1) + r1 == encoding(m2) + r2,
    ensures
        m1 == m2,
        r1 == r2,
{
    lemma_bincode_tuple_len_of(m1);
    lemma_bincode_tuple_len_of(m2);
    reveal_with_fuel(pow256, 9);
    let tail1 = u32_field(operation_index(m1.operation)) + (u32_field(m1.checksum) + r1);
    let tail2 = u32_field(operation_index(m2.operation)) + (u32_field(m2.checksum) + r2);
    let from_tx1 = str_field(m1.transaction_id) + tail1;
    let from_tx2 = str_field(m2.transaction_id) + tail2;
    let from_ts1 = i64_field(m1.timestamp) + from_tx1;
    let from_ts2 = i64_field(m2.timestamp) + from_tx2;
    let from_value1 = str_field(m1.value) + from_ts1;
    let from_value2 = str_field(m2.value) + from_ts2;
    lemma_encoding_then(m1, r1);
    lemma_encoding_then(m2, r2);
    lemma_str_field_split(m1.key, from_value1, m2.key, from_value2);
    lemma_str_field_split(m1.value, from_ts1, m2.value, from_ts2);
    lemma_fixed_field_split(i64_bits(m1.timestamp), from_tx1, i64_bits(m2.timestamp), from_tx2, 8);
    lemma_str_field_split(m1.transaction_id, tail1, m2.transaction_id, tail2);
    lemma_fixed_field_split(
        operation_index(m1.operation) as nat,
        u32_field(m1.checksum) + r1,
        operation_index(m2.operation) as nat,
        u32_field(m2.checksum) + r2,
        4,
    );
    lemma_fixed_field_split(m1.checksum as nat, r1, m2.checksum as nat, r2, 4);
}

/// Different entries have different records, as long as their lengths fit
/// the record's length prefixes.
pub proof fn lemma_encoding_injective(m1: EntryModel, m2: EntryModel)
    requires
        fits(m1),
        encoding(m1) == encoding(m2),
    ensures
        m1 == m2,
{
    let e = Seq::<u8>::empty();
    assert(encoding(m1) + e =~= encoding(m2) + e);
    lemma_encoding_prefix_free(m1, e, m2, e);
}

proof fn lemma_escape_prefix(a: Seq<u8>, t: Seq<u8>, b: Seq<u8>)
    requires
        escape(a) + t == escape(b),
    ensures
        b.take(a.len() as int) == a,
        a.len() <= b.len(),
    decreases a.len(),
{
    if a.len() > 0 {
        let ha = escape_byte(a[0]);
        assert(escape(a) + t =~= ha + (escape(a.skip(1)) + t));
        if b.len() == 0 {
            assert((escape(a) + t).len() > 0);
        } else {
            let hb = escape_byte(b[0]);
            let whole = escape(b);
            assert(whole[0] == ha[0]);
            assert(whole[0] == hb[0]);
            if ha.len() == 2 {
                assert(whole[1] == ha[1]);
                assert(whole[1] == hb[1]);
            }
            assert(a[0] == b[0]);
            assert(ha == hb);
            lemma_split_concat(ha, escape(a.skip(1)) + t, hb, escape(b.skip(1)));
            lemma_escape_prefix(a.skip(1), t, b.skip(1));
            assert(b.take(a.len() as int) =~= seq![b[0]] + b.skip(1).take(a.len() - 1));
            assert(a =~= seq![a[0]] + a.skip(1));
        }
    }
}

/// A record cut short is no record: every non-empty proper prefix of an
/// entry's record fails to decode.
pub proof fn lemma_truncated_record_rejected(x: EntryModel, k: int)
    requires
        fits(x),
        0 <= k < record(x).len(),
    ensures
        decode_record(record(x).take(k)) is None,
{
    if exists|m: EntryModel| record(m) == record(x).take(k) {
        let m = choose|m: EntryModel| record(m) == record(x).take(k);
        let t = record(x).skip(k);
        assert(record(m) + t =~= record(x));
        lemma_escape_prefix(encoding(m), t, encoding(x));
        let rest = encoding(x).skip(encoding(m).len() as int);
        assert(encoding(m) + rest =~= encoding(x));
        assert(encoding(x) + Seq::<u8>::empty() =~= encoding(x));
        lemma_encoding_prefix_free(m, rest, x, Seq::empty());
        assert(t.len() == 0);
    }
}

/// Round trip: the record of an entry decodes to that same entry, every
/// field equal.
pub proof fn lemma_round_trip(m: EntryModel)
    requires
        fits(m),
    ensures
        decode_record(record(m)) == Some(m),
{
    lemma_record_unique(m, record(m));
}

} // verus!

//! The binary manifest: a big-endian `u32` record count, then that many
//! records of a big-endian `u16` path length, the UTF-8 path and a 20-byte
//! digest.

use vstd::prelude::*;
use vstd::utf8::*;

verus! {

broadcast use {encode_utf8_valid_utf8, encode_utf8_decode_utf8};

/// Shortest path a record may hold, in bytes.
pub const MIN_PATH_LEN: u16 = 1;

/// Longest path a record may hold, in bytes.
pub const MAX_PATH_LEN: u16 = 1024;

/// Length of a record's digest, in bytes.
pub const DIGEST_LEN: usize = 20;

/// Smallest possible record: the length field and the digest.
pub const MIN_RECORD_LEN: usize = 22;

/// The field of a record that a decode error refers to.
#[derive(Debug, Clone, Copy, PartialEq, Eq)]
pub enum RecordField {
    PathLength,
    Path,
    Digest,
}

/// Everything that can go wrong between locating the manifest and decoding it.
///
/// Record numbers count from 1; offsets are byte positions in the manifest.
#[derive(Debug, Clone, PartialEq, Eq)]
pub enum MapError {
    /// The game's install location could not be read from the registry.
    RegistryError(String),
    /// A file could not be read or written.
    IoError(String),
    /// The manifest is not where the game keeps it.
    GameFileNotFound,
    /// The settings could not be loaded.
    ConfigError(String),
    /// Fewer than four bytes: not even the record count is there.
    TooSmall,
    /// The record count is zero.
    ZeroEntries,
    /// `count` records cannot fit in `size` bytes, even with empty paths.
    ImplausibleCount { count: u32, size: usize },
    /// The manifest ends inside `field` of record `record`, which starts at `offset`.
    TruncatedAtOffset { field: RecordField, record: u32, offset: usize },
    /// Record `record` declares a path length outside `1..=1024`.
    InvalidPathLength { record: u32, length: u16 },
    /// The path of record `record` is not valid UTF-8.
    InvalidUtf8 { record: u32 },
}

/// One decoded record: an asset path and its content digest.
#[derive(Debug, Clone, PartialEq)]
pub struct MapEntry {
    pub path: String,
    pub hash: Vec<u8>,
}

/// A record as bytes: the UTF-8 encoding of its path, and its digest.
pub type RecordBytes = (Seq<u8>, Seq<u8>);

impl MapEntry {
    /// The entry as the bytes that encode it.
    pub open spec fn record_bytes(self) -> RecordBytes {
        (encode_utf8(self.path@), self.hash@)
    }
}

/// Two entries with the same bytes have the same path and digest.
pub proof fn lemma_record_bytes_determine_entry(a: MapEntry, b: MapEntry)
    requires
        a.record_bytes() == b.record_bytes(),
    ensures
        a.path@ == b.path@,
        a.hash@ == b.hash@,
{
    assert(decode_utf8(encode_utf8(a.path@)) == a.path@);
    assert(decode_utf8(encode_utf8(b.path@)) == b.path@);
}

/// The big-endian `u16` at `at`.
pub open spec fn be_u16_at(b: Seq<u8>, at: int) -> int {
    b[at] as int * 256 + b[at + 1] as int
}

/// The big-endian `u32` at `at`.
pub open spec fn be_u32_at(b: Seq<u8>, at: int) -> int {
    ((b[at] as int * 256 + b[at + 1] as int) * 256 + b[at + 2] as int) * 256 + b[at + 3] as int
}

/// Decoding the record numbered `record` that starts at `pos`: the record
/// and the position just past it, or the error that stops the decode.
pub open spec fn parse_record(b: Seq<u8>, pos: int, record: int) -> Result<
    (RecordBytes, int),
    MapError,
> {
    if pos + 2 > b.len() {
        Err(
            MapError::TruncatedAtOffset {
                field: RecordField::PathLength,
                record: record as u32,
                offset: pos as usize,
            },
        )
    } else {
        let len = be_u16_at(b, pos);
        let start = pos + 2;
        let end = start + len;
        if len < MIN_PATH_LEN || len > MAX_PATH_LEN {
            Err(MapError::InvalidPathLength { record: record as u32, length: len as u16 })
        } else if end > b.len() {
            Err(
                MapError::TruncatedAtOffset {
                    field: RecordField::Path,
                    record: record as u32,
                    offset: start as usize,
                },
            )
        } else if !valid_utf8(b.subrange(start, end)) {
            Err(MapError::InvalidUtf8 { record: record as u32 })
        } else if end + DIGEST_LEN > b.len() {
            Err(
                MapError::TruncatedAtOffset {
                    field: RecordField::Digest,
                    record: record as u32,
                    offset: end as usize,
                },
            )
        } else {
            Ok(((b.subrange(start, end), b.subrange(end, end + DIGEST_LEN)), end + DIGEST_LEN))
        }
    }
}

/// `rest` with `first` put in front of its records.
pub open spec fn prepend_records(first: Seq<RecordBytes>, rest: Result<Seq<RecordBytes>, MapError>) -> Result<
    Seq<RecordBytes>,
    MapError,
> {
    match rest {
        Ok(rs) => Ok(first + rs),
        Err(e) => Err(e),
    }
}

/// Decoding records `done + 1` to `count`, the first of them at `pos`.
pub open spec fn parse_records(b: Seq<u8>, pos: int, done: nat, count: nat) -> Result<
    Seq<RecordBytes>,
    MapError,
>
    decreases count - done,
{
    if done >= count {
        Ok(seq![])
    } else {
        match parse_record(b, pos, done + 1 as int) {
            Err(e) => Err(e),
            Ok((r, next)) => prepend_records(seq![r], parse_records(b, next, done + 1, count)),
        }
    }
}

/// Decoding a whole manifest. Bytes after the last record are not read.
pub open spec fn parse_manifest(b: Seq<u8>) -> Result<Seq<RecordBytes>, MapError> {
    if b.len() < 4 {
        Err(MapError::TooSmall)
    } else {
        let n = be_u32_at(b, 0);
        if n == 0 {
            Err(MapError::ZeroEntries)
        } else if n * MIN_RECORD_LEN > b.len() {
            Err(MapError::ImplausibleCount { count: n as u32, size: b.len() as usize })
        } else {
            parse_records(b, 4, 0, n as nat)
        }
    }
}

/// The big-endian encoding of a `u16` value.
pub open spec fn u16_be(v: int) -> Seq<u8> {
    seq![(v / 256) as u8, (v % 256) as u8]
}

/// The big-endian encoding of a `u32` value.
pub open spec fn u32_be(v: int) -> Seq<u8> {
    seq![(v / 0x100_0000) as u8, (v / 0x1_0000 % 256) as u8, (v / 256 % 256) as u8, (v % 256) as u8]
}

/// The bytes of one record.
pub open spec fn encode_record(r: RecordBytes) -> Seq<u8> {
    u16_be(r.0.len() as int) + r.0 + r.1
}

/// The bytes of a run of records.
pub open spec fn encode_records(rs: Seq<RecordBytes>) -> Seq<u8>
    decreases rs.len(),
{
    if rs.len() == 0 {
        seq![]
    } else {
        encode_record(rs[0]) + encode_records(rs.drop_first())
    }
}

/// The bytes of a manifest holding `rs`.
pub open spec fn encode_manifest(rs: Seq<RecordBytes>) -> Seq<u8> {
    u32_be(rs.len() as int) + encode_records(rs)
}

/// A record that the format can hold.
pub open spec fn encodable_record(r: RecordBytes) -> bool {
    &&& MIN_PATH_LEN <= r.0.len() <= MAX_PATH_LEN
    &&& valid_utf8(r.0)
    &&& r.1.len() == DIGEST_LEN
}

proof fn lemma_u32_be(n: int)
    requires
        0 <= n <= u32::MAX,
    ensures
        be_u32_at(u32_be(n), 0) == n,
{
    let a = n / 256;
    let b = a / 256;
    let c = b / 256;
    assert(n == a * 256 + n % 256);
    assert(a == b * 256 + a % 256);
    assert(b == c * 256 + b % 256);
    assert(0 <= c < 256);
    assert(n / 0x1_0000 == b);
    assert(n / 0x100_0000 == c);
}

proof fn lemma_encode_records_len(rs: Seq<RecordBytes>)
    requires
        forall|i: int| 0 <= i < rs.len() ==> #[trigger] encodable_record(rs[i]),
    ensures
        encode_records(rs).len() >= rs.len() * MIN_RECORD_LEN,
    decreases rs.len(),
{
    if rs.len() > 0 {
        assert(encodable_record(rs[0]));
        assert forall|i: int| 0 <= i < rs.drop_first().len() implies #[trigger] encodable_record(
            rs.drop_first()[i],
        ) by {
            assert(encodable_record(rs[i + 1]));
        }
        lemma_encode_records_len(rs.drop_first());
    }
}

proof fn lemma_parse_encoded_records(pre: Seq<u8>, rs: Seq<RecordBytes>, done: nat)
    requires
        forall|i: int| 0 <= i < rs.len() ==> #[trigger] encodable_record(rs[i]),
    ensures
        parse_records(pre + encode_records(rs), pre.len() as int, done, done + rs.len()) == Ok::<
            Seq<RecordBytes>,
            MapError,
        >(rs),
    decreases rs.len(),
{
    let b = pre + encode_records(rs);
    if rs.len() == 0 {
        assert(rs =~= Seq::<RecordBytes>::empty());
    } else {
        let r = rs[0];
        let rec = encode_record(r);
        let pre2 = pre + rec;
        let len = r.0.len() as int;
        let pos = pre.len() as int;
        assert(encodable_record(r));
        assert(b =~= pre2 + encode_records(rs.drop_first()));
        assert(b[pos] == (len / 256) as u8);
        assert(b[pos + 1] == (len % 256) as u8);
        assert(be_u16_at(b, pos) == len) by {
            assert(0 <= len / 256 < 256);
            assert(len == (len / 256) * 256 + len % 256);
        }
        assert(b.subrange(pos + 2, pos + 2 + len) =~= r.0);
        assert(b.subrange(pos + 2 + len, pos + 2 + len + DIGEST_LEN) =~= r.1);
        assert(parse_record(b, pos, done + 1 as int) == Ok::<(RecordBytes, int), MapError>(
            ((r.0, r.1), pos + 2 + len + DIGEST_LEN),
        ));
        assert forall|i: int| 0 <= i < rs.drop_first().len() implies #[trigger] encodable_record(
            rs.drop_first()[i],
        ) by {
            assert(encodable_record(rs[i + 1]));
        }
        lemma_parse_encoded_records(pre2, rs.drop_first(), done + 1);
        assert(pre2.len() == pos + 2 + len + DIGEST_LEN);
        assert(seq![r] + rs.drop_first() =~= rs);
        let count = done + rs.len();
        assert(count == (done + 1) + rs.drop_first().len());
        assert(parse_records(b, pos + 2 + len + DIGEST_LEN, done + 1, count) == Ok::<
            Seq<RecordBytes>,
            MapError,
        >(rs.drop_first()));
        assert(parse_records(b, pos, done, count) == prepend_records(
            seq![r],
            parse_records(b, pos + 2 + len + DIGEST_LEN, done + 1, count),
        ));
    }
}

/// Decoding the encoding of records that the format can hold gives the
/// records back, in their order.
pub proof fn lemma_decode_encoded_manifest(rs: Seq<RecordBytes>)
    requires
        1 <= rs.len() <= u32::MAX,
        forall|i: int| 0 <= i < rs.len() ==> #[trigger] encodable_record(rs[i]),
    ensures
        parse_manifest(encode_manifest(rs)) == Ok::<Seq<RecordBytes>, MapError>(rs),
{
    let n = rs.len() as int;
    let head = u32_be(n);
    let body = encode_records(rs);
    let b = encode_manifest(rs);
    lemma_encode_records_len(rs);
    lemma_u32_be(n);
    assert(b.len() == 4 + body.len());
    assert(b[0] == head[0] && b[1] == head[1] && b[2] == head[2] && b[3] == head[3]);
    assert(be_u32_at(b, 0) == n);
    assert(n * MIN_RECORD_LEN <= b.len());
    lemma_parse_encoded_records(head, rs, 0);
    assert(parse_records(b, 4, 0, n as nat) == Ok::<Seq<RecordBytes>, MapError>(rs));
}

/// Encoding entries whose paths are 1 to 1024 bytes long and whose digests
/// are 20 bytes long, then decoding the result, reproduces their paths and
/// digests in their order.
pub proof fn lemma_manifest_round_trip(entries: Seq<MapEntry>)
    requires
        1 <= entries.len() <= u32::MAX,
        forall|i: int|
            0 <= i < entries.len() ==> MIN_PATH_LEN <= (#[trigger] entries[i].record_bytes()).0.len()
                <= MAX_PATH_LEN && entries[i].hash@.len() == DIGEST_LEN,
    ensures
        parse_manifest(encode_manifest(entries.map_values(|e: MapEntry| e.record_bytes())))
            == Ok::<Seq<RecordBytes>, MapError>(entries.map_values(|e: MapEntry| e.record_bytes())),
{
    let rs = entries.map_values(|e: MapEntry| e.record_bytes());
    assert forall|i: int| 0 <= i < rs.len() implies #[trigger] encodable_record(rs[i]) by {
        assert(rs[i] == entries[i].record_bytes());
    }
    lemma_decode_encoded_manifest(rs);
}

/// What a decode result holds, as record bytes.
pub open spec fn decoded_records(r: Result<Vec<MapEntry>, MapError>) -> Result<
    Seq<RecordBytes>,
    MapError,
> {
    match r {
        Ok(v) => Ok(v@.map_values(|e: MapEntry| e.record_bytes())),
        Err(e) => Err(e),
    }
}

/// Relies on `String::from_utf8`: it accepts exactly the valid UTF-8 byte
/// strings and returns the characters they encode.
#[verifier::external_body]
pub(crate) fn string_from_utf8(bytes: Vec<u8>) -> (r: Option<String>)
    ensures
        r is Some <==> valid_utf8(bytes@),
        r matches Some(s) ==> s@ == decode_utf8(bytes@),
{
    String::from_utf8(bytes).ok()
}

/// A copy of `b[start..end]`.
fn copy_range(b: &[u8], start: usize, end: usize) -> (r: Vec<u8>)
    requires
        start <= end <= b@.len(),
    ensures
        r@ == b@.subrange(start as int, end as int),
{
    let mut r: Vec<u8> = Vec::with_capacity(end - start);
    let mut i: usize = start;
    while i < end
        invariant
            start <= i <= end <= b@.len(),
            r@ == b@.subrange(start as int, i as int),
        decreases end - i,
    {
        r.push(b[i]);
        i = i + 1;
    }
    r
}

impl MapEntry {
    /// Decodes the record numbered `record` that starts at `pos` of `bytes`,
    /// returning it with the position just past it.
    pub fn read_from(bytes: &[u8], pos: usize, record: u32) -> (r: Result<(MapEntry, usize), MapError>)
        ensures
            match parse_record(bytes@, pos as int, record as int) {
                Ok((rb, next)) => r matches Ok((e, p)) && e.record_bytes() == rb && p == next,
                Err(e) => r == Err::<(MapEntry, usize), MapError>(e),
            },
    {
        if pos > bytes.len() || bytes.len() - pos < 2 {
            return Err(
                MapError::TruncatedAtOffset { field: RecordField::PathLength, record, offset: pos },
            );
        }
        let len: u16 = bytes[pos] as u16 * 256 + bytes[pos + 1] as u16;
        let start: usize = pos + 2;
        if len < MIN_PATH_LEN || len > MAX_PATH_LEN {
            return Err(MapError::InvalidPathLength { record, length: len });
        }
        if bytes.len() - start < len as usize {
            return Err(MapError::TruncatedAtOffset { field: RecordField::Path, record, offset: start });
        }
        let end: usize = start + len as usize;
        let path_bytes = copy_range(bytes, start, end);
        let path = match string_from_utf8(path_bytes) {
            Some(s) => s,
            None => {
                return Err(MapError::InvalidUtf8 { record });
            },
        };
        proof {
            decode_utf8_encode_utf8(bytes@.subrange(start as int, end as int));
        }
        if bytes.len() - end < DIGEST_LEN {
            return Err(MapError::TruncatedAtOffset { field: RecordField::Digest, record, offset: end });
        }
        let hash = copy_range(bytes, end, end + DIGEST_LEN);
        Ok((MapEntry { path, hash }, end + DIGEST_LEN))
    }
}

/// Decodes a whole manifest. Decoding stops at the first bad record: there
/// is no partial result.
pub fn read_map_entries(bytes: &[u8]) -> (r: Result<Vec<MapEntry>, MapError>)
    ensures
        decoded_records(r) == parse_manifest(bytes@),
{
    if bytes.len() < 4 {
        return Err(MapError::TooSmall);
    }
    let count: u32 = ((bytes[0] as u32 * 256 + bytes[1] as u32) * 256 + bytes[2] as u32) * 256
        + bytes[3] as u32;
    if count == 0 {
        return Err(MapError::ZeroEntries);
    }
    if count as u64 * MIN_RECORD_LEN as u64 > bytes.len() as u64 {
        return Err(MapError::ImplausibleCount { count, size: bytes.len() });
    }
    let mut entries: Vec<MapEntry> = Vec::new();
    let mut pos: usize = 4;
    let mut done: u32 = 0;
    proof {
        assert(entries@.map_values(|e: MapEntry| e.record_bytes()) =~= seq![]);
        assert(prepend_records(seq![], parse_records(bytes@, 4, 0, count as nat)) =~= parse_records(bytes@, 4, 0, count as nat)) by {
            match parse_records(bytes@, 4, 0, count as nat) {
                Ok(rs) => {
                    assert(Seq::<RecordBytes>::empty() + rs =~= rs);
                },
                Err(_) => {},
            }
        }
    }
    while done < count
        invariant
            4 <= pos <= bytes@.len(),
            done <= count,
            count as int == be_u32_at(bytes@, 0),
            count > 0,
            count * MIN_RECORD_LEN <= bytes@.len(),
            parse_manifest(bytes@) == prepend_records(
                entries@.map_values(|e: MapEntry| e.record_bytes()),
                parse_records(bytes@, pos as int, done as nat, count as nat),
            ),
        decreases count - done,
    {
        match MapEntry::read_from(bytes, pos, done + 1) {
            Ok((e, next)) => {
                let ghost before = entries@.map_values(|e: MapEntry| e.record_bytes());
                let ghost rb = e.record_bytes();
                entries.push(e);
                proof {
                    assert(entries@.map_values(|e: MapEntry| e.record_bytes()) =~= before.push(rb));
                    match parse_records(bytes@, next as int, (done + 1) as nat, count as nat) {
                        Ok(rest) => {
                            assert(before + (seq![rb] + rest) =~= before.push(rb) + rest);
                        },
                        Err(_) => {},
                    }
                }
                pos = next;
                done = done + 1;
            },
            Err(e) => {
                return Err(e);
            },
        }
    }
    proof {
        assert(entries@.map_values(|e: MapEntry| e.record_bytes()) + Seq::<RecordBytes>::empty()
            =~= entries@.map_values(|e: MapEntry| e.record_bytes()));
    }
    Ok(entries)
}

} // verus!

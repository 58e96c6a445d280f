//! Packs: files sealed with AES-256-SIV, signed with Ed25519, and framed as
//! `MAGIC ‖ envelope`.
use crate::bech32k::{digits_of, digits_value, lemma_digits_of_value, lemma_value_bound, lemma_value_of_digits, all_below};
use crate::consumer::{keys_for, Fingerprints, Keyrings};
use crate::crypto::{ed25519_public_of, ed25519_signature_of, ed25519_verifies, siv_opened, siv_sealed, Encryptor, PublicKey, Signer, MAX_ASSOCIATED_DATA};
use crate::error::{Error, ErrorKind};
use crate::keyuri::{fingerprint_of, VERIFY_KEY_PREFIX};
use crate::bech32k;
use crate::strings::string_from_utf8;
use crate::wire::{field, lemma_read_field, lemma_varint_len, read_field, read_field_at, slice_bytes, varint, write_field, MAX_FIELD_LENGTH};
use vstd::arithmetic::power2::{lemma2_to64, pow2};
use vstd::prelude::*;
use vstd::string::StringSliceAdditionalSpecFns;
use vstd::utf8::{encode_utf8, valid_utf8, decode_utf8};

verus! {

/// Largest pack, in bytes.
pub const MAX_PACK_SIZE: usize = 1_048_576;

/// Length of the magic string that starts every pack.
pub const MAGIC_LENGTH: usize = 16;

/// Content type of pack files when none is given.
pub const DEFAULT_CONTENT_TYPE: &'static str = "application/octet-stream";

/// How far into the future a pack's date may lie, in seconds.
pub const MAX_PACK_TIMESTAMP_SKEW: i64 = 86_400;

/// TAI64 label of the Unix epoch: 2^62 plus the 10 seconds TAI was ahead in 1970.
pub const TAI64_UNIX_EPOCH: u64 = 0x4000_0000_0000_000a;

/// The magic string `placer-pack:v0.1`.
pub open spec fn magic() -> Seq<u8> {
    seq![0x70u8, 0x6cu8, 0x61u8, 0x63u8, 0x65u8, 0x72u8, 0x2du8, 0x70u8, 0x61u8, 0x63u8, 0x6bu8, 0x3au8, 0x76u8, 0x30u8, 0x2eu8, 0x31u8]
}

/// The magic string `placer-pack:v0.1`, as bytes.
pub fn magic_bytes() -> (r: Vec<u8>)
    ensures
        r@ == magic(),
{
    let r: Vec<u8> = vec![0x70u8, 0x6cu8, 0x61u8, 0x63u8, 0x65u8, 0x72u8, 0x2du8, 0x70u8, 0x61u8, 0x63u8, 0x6bu8, 0x3au8, 0x76u8, 0x30u8, 0x2eu8, 0x31u8];
    assert(r@ =~= magic());
    r
}

// ---------------------------------------------------------------------------
// Time
/// A point in time: seconds since the Unix epoch and nanoseconds.
#[derive(Clone, Copy, Debug, PartialEq, Eq, Structural)]
pub struct Timestamp {
    /// Seconds since 1970-01-01T00:00:00Z (negative before).
    pub secs: i64,
    /// Nanoseconds within the second.
    pub nanos: u32,
}

impl Timestamp {
    /// Nanoseconds below one second, and a TAI64 label below 2^63.
    pub open spec fn wf(self) -> bool {
        self.nanos < 1_000_000_000 && -0x4000_0000_0000_000a <= self.secs < 0x3fff_ffff_ffff_fff6
    }

    /// A timestamp, if the values are in range.
    pub fn new(secs: i64, nanos: u32) -> (r: Option<Timestamp>)
        ensures
            r matches Some(t) ==> t.wf() && t.secs == secs && t.nanos == nanos,
            r is None <==> !(Timestamp { secs, nanos }).wf(),
    {
        if nanos < 1_000_000_000 && -0x4000_0000_0000_000a <= secs && secs < 0x3fff_ffff_ffff_fff6 {
            Some(Timestamp { secs, nanos })
        } else {
            None
        }
    }
}

/// Relies on `chrono::Utc::now` (`timestamp` and `timestamp_subsec_nanos`): the current
/// time as Unix seconds and nanoseconds. `now` builds it from `SystemTime` after the epoch
/// (seconds are not negative, nanoseconds below one second) through `from_timestamp`, which
/// accepts no more than `i32::MAX` days.
#[verifier::external_body]
fn utc_now() -> (r: (i64, u32))
    ensures
        0 <= r.0 < 0x0100_0000_0000_0000,
        r.1 < 1_000_000_000,
{
    let now = chrono::Utc::now();
    (now.timestamp(), now.timestamp_subsec_nanos())
}

/// The current time.
pub fn current_time() -> (r: Timestamp)
    ensures
        r.wf(),
{
    let (secs, nanos) = utc_now();
    Timestamp { secs, nanos }
}

/// A time as nanoseconds since the Unix epoch.
pub open spec fn total_nanos(t: Timestamp) -> int {
    t.secs * 1_000_000_000 + t.nanos
}

/// A date lies more than the allowed skew (86,400 seconds) in the future of `now`.
pub open spec fn too_far_ahead(date: Timestamp, now: Timestamp) -> bool {
    total_nanos(date) - total_nanos(now) > MAX_PACK_TIMESTAMP_SKEW * 1_000_000_000
}

/// Whether `date` is more than the allowed skew ahead of `now`.
pub fn is_too_far_ahead(date: Timestamp, now: Timestamp) -> (r: bool)
    ensures
        r == too_far_ahead(date, now),
{
    let d: i128 = date.secs as i128 * 1_000_000_000 + date.nanos as i128;
    let n: i128 = now.secs as i128 * 1_000_000_000 + now.nanos as i128;
    d - n > MAX_PACK_TIMESTAMP_SKEW as i128 * 1_000_000_000
}

/// The 12-byte TAI64N encoding: the TAI64 label and the nanoseconds, both big-endian.
pub open spec fn tai64n(t: Timestamp) -> Seq<u8> {
    digits_of((TAI64_UNIX_EPOCH + t.secs) as nat, 8, 8) + digits_of(t.nanos as nat, 8, 4)
}

/// The timestamp of 12 TAI64N bytes, if they hold one.
pub open spec fn parse_tai64n(b: Seq<u8>) -> Option<Timestamp> {
    if b.len() != 12 {
        None
    } else {
        let label = digits_value(b.subrange(0, 8), 8);
        let nanos = digits_value(b.subrange(8, 12), 8);
        if label >= 0x8000_0000_0000_0000 || nanos >= 1_000_000_000 {
            None
        } else {
            Some(Timestamp { secs: (label - TAI64_UNIX_EPOCH) as i64, nanos: nanos as u32 })
        }
    }
}

fn be_bytes(x: u64, n: usize) -> (r: Vec<u8>)
    requires
        n <= 8,
    ensures
        r@ == digits_of(x as nat, 8, n as nat),
    decreases n,
{
    if n == 0 {
        Vec::new()
    } else {
        proof {
            lemma2_to64();
        }
        let mut v = be_bytes(x / 256, n - 1);
        v.push((x % 256) as u8);
        v
    }
}

fn be_value(b: &[u8], start: usize, end: usize) -> (r: u64)
    requires
        start <= end <= b@.len(),
        end - start <= 8,
    ensures
        r as nat == digits_value(b@.subrange(start as int, end as int), 8),
{
    proof {
        lemma2_to64();
    }
    let mut acc: u64 = 0;
    let mut i: usize = start;
    while i < end
        invariant
            start <= i <= end <= b@.len(),
            end - start <= 8,
            acc as nat == digits_value(b@.subrange(start as int, i as int), 8),
            pow2(8) == 256,
        decreases end - i,
    {
        let ghost prev = b@.subrange(start as int, i as int);
        let ghost next = b@.subrange(start as int, i + 1);
        assert(next.drop_last() =~= prev);
        proof {
            assert(all_below(prev, 8)) by {
                assert forall|q: int| 0 <= q < prev.len() implies (#[trigger] prev[q] as nat) < pow2(8) by {}
            }
            lemma_value_bound(prev, 8);
            vstd::arithmetic::power2::lemma2_to64_rest();
            if prev.len() < 7 {
                vstd::arithmetic::power2::lemma_pow2_strictly_increases((8 * prev.len()) as nat, 56);
            }
            assert(acc < 0x100_0000_0000_0000);
        }
        acc = acc * 256 + b[i] as u64;
        i = i + 1;
    }
    acc
}

/// The TAI64N bytes of a timestamp.
pub fn tai64n_bytes(t: Timestamp) -> (r: Vec<u8>)
    requires
        t.wf(),
    ensures
        r@ == tai64n(t),
        r@.len() == 12,
{
    let label: u64 = (TAI64_UNIX_EPOCH as i128 + t.secs as i128) as u64;
    let mut r = be_bytes(label, 8);
    let low = be_bytes(t.nanos as u64, 4);
    let mut i: usize = 0;
    let ghost high = r@;
    while i < low.len()
        invariant
            i <= low@.len(),
            r@ == high + low@.subrange(0, i as int),
        decreases low@.len() - i,
    {
        r.push(low[i]);
        i = i + 1;
        assert(r@ =~= high + low@.subrange(0, i as int));
    }
    assert(low@.subrange(0, low@.len() as int) =~= low@);
    proof {
        lemma_value_of_digits((TAI64_UNIX_EPOCH + t.secs) as nat, 8, 8);
        lemma_value_of_digits(t.nanos as nat, 8, 4);
    }
    r
}

/// The timestamp held by TAI64N bytes.
pub fn timestamp_from_tai64n(b: &[u8]) -> (r: Option<Timestamp>)
    ensures
        r == parse_tai64n(b@),
        r matches Some(t) ==> t.wf(),
{
    if b.len() != 12 {
        return None;
    }
    let label = be_value(b, 0, 8);
    let nanos = be_value(b, 8, 12);
    if label >= 0x8000_0000_0000_0000 || nanos >= 1_000_000_000 {
        return None;
    }
    Some(Timestamp { secs: (label as i128 - TAI64_UNIX_EPOCH as i128) as i64, nanos: nanos as u32 })
}

// ---------------------------------------------------------------------------
// Files and the payload
/// A file in a pack.
#[derive(Clone, Debug, PartialEq, Eq)]
pub struct PackFile {
    /// Absolute path of the file, relative to the pack's root.
    pub filename: String,
    /// Content type.
    pub content_type: String,
    /// Modification time, if recorded.
    pub modified_at: Option<Timestamp>,
    /// The file's contents.
    pub body: Vec<u8>,
}

/// What a pack file holds.
pub struct FileView {
    /// Path of the file.
    pub filename: Seq<char>,
    /// Content type.
    pub content_type: Seq<char>,
    /// Modification time.
    pub modified_at: Option<Timestamp>,
    /// Contents.
    pub body: Seq<u8>,
}

impl PackFile {
    /// A recorded modification time is in range.
    pub open spec fn wf(&self) -> bool {
        match self.modified_at {
            Some(t) => t.wf(),
            None => true,
        }
    }

    /// What the file holds.
    pub open spec fn view(&self) -> FileView {
        FileView {
            filename: self.filename@,
            content_type: self.content_type@,
            modified_at: self.modified_at,
            body: self.body@,
        }
    }
}

/// The views of a list of files.
pub open spec fn files_view(files: Seq<PackFile>) -> Seq<FileView> {
    files.map_values(|f: PackFile| f.view())
}

/// The encoding of one file record: filename (1), content type (2), the modification
/// time as a TAI64N message (3) when present, and the body (4).
pub open spec fn file_record(f: FileView) -> Seq<u8> {
    field(1, encode_utf8(f.filename)) + field(2, encode_utf8(f.content_type)) + date_field(f) + field(4, f.body)
}

/// The encoding of a payload: each file record as a field with tag 1, in order.
pub open spec fn payload_bytes(files: Seq<FileView>) -> Seq<u8>
    decreases files.len(),
{
    if files.len() == 0 {
        Seq::empty()
    } else {
        payload_bytes(files.drop_last()) + field(1, file_record(files.last()))
    }
}

/// The characters of UTF-8 bytes, if they are valid.
pub open spec fn utf8_text(b: Seq<u8>) -> Option<Seq<char>> {
    if valid_utf8(b) {
        Some(decode_utf8(b))
    } else {
        None
    }
}

/// The bytes of a field and the position after it.
pub open spec fn field_at(b: Seq<u8>, pos: int, tag: u8) -> Option<(Seq<u8>, int)> {
    match read_field(b, pos, tag) {
        Some((s, e)) => Some((b.subrange(s, e), e)),
        None => None,
    }
}

/// A TAI64N message: one field with tag 1 that spans it exactly.
pub open spec fn parse_date_message(m: Seq<u8>) -> Option<Seq<u8>> {
    match field_at(m, 0, 1) {
        Some((v, e)) => if e == m.len() {
            Some(v)
        } else {
            None
        },
        None => None,
    }
}

/// The file a record holds, if it is well formed.
pub open spec fn parse_file_record(r: Seq<u8>) -> Option<FileView> {
    match field_at(r, 0, 1) {
        None => None,
        Some((name, at1)) => match field_at(r, at1, 2) {
            None => None,
            Some((ctype, at2)) => {
                let dated = at2 < r.len() && r[at2] == 0x1a;
                let date: Option<Option<(Timestamp, int)>> = if dated {
                    match field_at(r, at2, 3) {
                        None => None,
                        Some((m, at3)) => match parse_date_message(m) {
                            None => None,
                            Some(d) => match parse_tai64n(d) {
                                None => None,
                                Some(t) => Some(Some((t, at3))),
                            },
                        },
                    }
                } else {
                    Some(None)
                };
                match date {
                    None => None,
                    Some(od) => {
                        let at3 = match od {
                            Some((_, p)) => p,
                            None => at2,
                        };
                        match field_at(r, at3, 4) {
                            None => None,
                            Some((body, at4)) => if at4 != r.len() {
                                None
                            } else {
                                match (utf8_text(name), utf8_text(ctype)) {
                                    (Some(n), Some(c)) => Some(
                                        FileView {
                                            filename: n,
                                            content_type: c,
                                            modified_at: match od {
                                                Some((t, _)) => Some(t),
                                                None => None,
                                            },
                                            body,
                                        },
                                    ),
                                    _ => None,
                                }
                            },
                        }
                    },
                }
            },
        },
    }
}

/// The files of a payload from `pos` on, if every record is well formed.
pub open spec fn parse_records(b: Seq<u8>, pos: int) -> Option<Seq<FileView>>
    decreases b.len() - pos,
{
    if pos < 0 || pos > b.len() {
        None
    } else if pos == b.len() {
        Some(Seq::empty())
    } else {
        match read_field(b, pos, 1) {
            None => None,
            Some((s, e)) => if e <= pos {
                None
            } else {
                match parse_file_record(b.subrange(s, e)) {
                    None => None,
                    Some(f) => match parse_records(b, e) {
                        None => None,
                        Some(rest) => Some(seq![f] + rest),
                    },
                }
            },
        }
    }
}

fn text_of(bytes: Vec<u8>) -> (r: Option<String>)
    ensures
        match utf8_text(bytes@) {
            Some(t) => r matches Some(s) && s@ == t,
            None => r is None,
        },
{
    let r = string_from_utf8(bytes);
    proof {
        if r is Some {
            vstd::utf8::encode_utf8_decode_utf8(r->0@);
        }
    }
    r
}

fn parse_file_record_exec(b: &[u8], start: usize, end: usize) -> (r: Option<PackFile>)
    requires
        start <= end <= b@.len(),
    ensures
        match parse_file_record(b@.subrange(start as int, end as int)) {
            Some(f) => r matches Some(pf) && pf.view() == f,
            None => r is None,
        },
{
    let rec = slice_bytes(b, start, end);
    let (s1, at1) = match read_field_at(rec.as_slice(), 0, 1) {
        Some(x) => x,
        None => return None,
    };
    let (s2, at2) = match read_field_at(rec.as_slice(), at1, 2) {
        Some(x) => x,
        None => return None,
    };
    let mut at3 = at2;
    let mut modified_at: Option<Timestamp> = None;
    if at2 < rec.len() && rec[at2] == 0x1a {
        let (s3, e3) = match read_field_at(rec.as_slice(), at2, 3) {
            Some(x) => x,
            None => return None,
        };
        let m = slice_bytes(rec.as_slice(), s3, e3);
        let (sd, ed) = match read_field_at(m.as_slice(), 0, 1) {
            Some(x) => x,
            None => return None,
        };
        if ed != m.len() {
            return None;
        }
        let d = slice_bytes(m.as_slice(), sd, ed);
        match timestamp_from_tai64n(d.as_slice()) {
            Some(t) => {
                modified_at = Some(t);
            },
            None => return None,
        }
        at3 = e3;
    }
    let (s4, at4) = match read_field_at(rec.as_slice(), at3, 4) {
        Some(x) => x,
        None => return None,
    };
    if at4 != rec.len() {
        return None;
    }
    let filename = match text_of(slice_bytes(rec.as_slice(), s1, at1)) {
        Some(s) => s,
        None => return None,
    };
    let content_type = match text_of(slice_bytes(rec.as_slice(), s2, at2)) {
        Some(s) => s,
        None => return None,
    };
    let body = slice_bytes(rec.as_slice(), s4, at4);
    Some(PackFile { filename, content_type, modified_at, body })
}

/// Decode a payload into its files.
pub fn decode_payload(b: &[u8]) -> (r: Option<Vec<PackFile>>)
    ensures
        match parse_records(b@, 0) {
            Some(fs) => r matches Some(v) && files_view(v@) == fs,
            None => r is None,
        },
{
    let mut files: Vec<PackFile> = Vec::new();
    let mut pos: usize = 0;
    while pos < b.len()
        invariant
            pos <= b@.len(),
            parse_records(b@, 0) == match parse_records(b@, pos as int) {
                Some(rest) => Some(files_view(files@) + rest),
                None => None,
            },
        decreases b@.len() - pos,
    {
        let (s, e) = match read_field_at(b, pos, 1) {
            Some(x) => x,
            None => return None,
        };
        let f = match parse_file_record_exec(b, s, e) {
            Some(f) => f,
            None => return None,
        };
        proof {
            let fs = files_view(files@);
            match parse_records(b@, e as int) {
                Some(rest) => {
                    assert(files_view(files@.push(f)) =~= fs.push(f.view()));
                    assert(fs + (seq![f.view()] + rest) =~= fs.push(f.view()) + rest);
                },
                None => {},
            }
        }
        files.push(f);
        pos = e;
    }
    assert(files_view(files@) + Seq::<FileView>::empty() =~= files_view(files@));
    Some(files)
}

/// A payload's encoding only grows as files are added.
pub proof fn lemma_payload_grows(fs: Seq<FileView>, i: int)
    requires
        0 <= i <= fs.len(),
    ensures
        payload_bytes(fs.subrange(0, i)).len() <= payload_bytes(fs).len(),
    decreases fs.len() - i,
{
    if i < fs.len() {
        lemma_payload_grows(fs, i + 1);
        assert(fs.subrange(0, i + 1).drop_last() =~= fs.subrange(0, i));
    } else {
        assert(fs.subrange(0, i) =~= fs);
    }
}

/// The payload bytes of a list of files; an error when they exceed the largest pack.
pub fn encode_payload(files: &Vec<PackFile>) -> (r: Result<Vec<u8>, Error>)
    requires
        forall|i: int| 0 <= i < files@.len() ==> (#[trigger] files@[i]).wf(),
    ensures
        match r {
            Ok(b) => b@ == payload_bytes(files_view(files@)) && b@.len() <= MAX_PACK_SIZE,
            Err(e) => e is Serialization && payload_bytes(files_view(files@)).len() > MAX_PACK_SIZE,
        },
{
    let mut out: Vec<u8> = Vec::new();
    let mut i: usize = 0;
    while i < files.len()
        invariant
            i <= files@.len(),
            out@ == payload_bytes(files_view(files@.subrange(0, i as int))),
            out@.len() <= MAX_PACK_SIZE,
            forall|j: int| 0 <= j < files@.len() ==> (#[trigger] files@[j]).wf(),
        decreases files@.len() - i,
    {
        let f = &files[i];
        let ghost fs = files_view(files@);
        let ghost upto = files_view(files@.subrange(0, i + 1));
        proof {
            assert(upto.drop_last() =~= files_view(files@.subrange(0, i as int)));
            assert(upto.last() == f.view());
            assert(files@.subrange(0, i + 1).len() == i + 1);
            assert(files_view(files@).subrange(0, i + 1) =~= upto);
            lemma_payload_grows(fs, i + 1);
        }
        let name = f.filename.as_str().as_bytes();
        let ctype = f.content_type.as_str().as_bytes();
        if name.len() > MAX_PACK_SIZE || ctype.len() > MAX_PACK_SIZE || f.body.len() > MAX_PACK_SIZE {
            return Err(Error::Serialization { description: "pack too large".to_owned() });
        }
        let mut rec: Vec<u8> = Vec::new();
        write_field(&mut rec, 1, name);
        write_field(&mut rec, 2, ctype);
        match f.modified_at {
            Some(t) => {
                let tai = tai64n_bytes(t);
                let mut m: Vec<u8> = Vec::new();
                write_field(&mut m, 1, tai.as_slice());
                write_field(&mut rec, 3, m.as_slice());
            },
            None => {},
        }
        write_field(&mut rec, 4, f.body.as_slice());
        assert(rec@ =~= file_record(f.view()));
        proof {
            crate::wire::lemma_varint_len(name@.len());
            crate::wire::lemma_varint_len(ctype@.len());
            crate::wire::lemma_varint_len(f.body@.len());
            crate::wire::lemma_varint_len(12);
            crate::wire::lemma_varint_len(14);
            assert(rec@.len() <= 3 * (5 + MAX_PACK_SIZE) + 16);
        }
        write_field(&mut out, 1, rec.as_slice());
        if out.len() > MAX_PACK_SIZE {
            return Err(Error::Serialization { description: "pack too large".to_owned() });
        }
        i = i + 1;
    }
    assert(files@.subrange(0, files@.len() as int) =~= files@);
    Ok(out)
}

// ---------------------------------------------------------------------------
// UUIDs
/// The 16 bytes of a UUID written as text, if the text is one.
pub uninterp spec fn uuid_parsed(text: Seq<char>) -> Option<Seq<u8>>;

/// A lower-case hexadecimal digit.
pub open spec fn hex_digit(n: u8) -> char {
    if n < 10 {
        ((n + 0x30) as u8) as char
    } else {
        ((n + 0x57) as u8) as char
    }
}

/// Two lower-case hexadecimal digits per byte, most significant first.
pub open spec fn hex_of(b: Seq<u8>) -> Seq<char>
    decreases b.len(),
{
    if b.len() == 0 {
        Seq::empty()
    } else {
        hex_of(b.drop_last()) + seq![hex_digit(b.last() / 16), hex_digit(b.last() % 16)]
    }
}

/// The hyphenated lower-case text of a UUID's 16 bytes, grouped 4-2-2-2-6.
pub open spec fn uuid_text_of(b: Seq<u8>) -> Seq<char> {
    hex_of(b.subrange(0, 4)) + seq!['-'] + hex_of(b.subrange(4, 6)) + seq!['-'] + hex_of(b.subrange(6, 8))
        + seq!['-'] + hex_of(b.subrange(8, 10)) + seq!['-'] + hex_of(b.subrange(10, 16))
}

/// Relies on `uuid::Uuid::parse_str`: the UUID's 16 bytes when the text is a UUID.
#[verifier::external_body]
fn parse_uuid(text: &str) -> (r: Option<Vec<u8>>)
    ensures
        match uuid_parsed(text@) {
            Some(b) => r matches Some(v) && v@ == b,
            None => r is None,
        },
        r matches Some(v) ==> v@.len() == 16,
{
    uuid::Uuid::parse_str(text).ok().map(|u| u.as_bytes().to_vec())
}

/// Relies on `uuid::Uuid::from_slice` and its `Display` (hyphenated, lower case, 36
/// characters).
#[verifier::external_body]
fn uuid_text(bytes: &[u8]) -> (r: String)
    requires
        bytes@.len() == 16,
    ensures
        r@ == uuid_text_of(bytes@),
        r@.len() == 36,
{
    uuid::Uuid::from_slice(bytes).unwrap().to_string()
}

// ---------------------------------------------------------------------------
// The envelope
/// The fields of a pack envelope, as bytes.
pub struct EnvelopeView {
    /// UUID text.
    pub uuid: Seq<u8>,
    /// TAI64N bytes of the date.
    pub date: Seq<u8>,
    /// Fingerprint of the signing public key.
    pub signing: Seq<u8>,
    /// Fingerprint of the encryption secret.
    pub encryption: Seq<u8>,
    /// Signature over the ciphertext.
    pub signature: Seq<u8>,
    /// The sealed payload.
    pub ciphertext: Seq<u8>,
}

/// The encoding of an envelope: fields 1 to 6 in order, the date as a TAI64N message.
pub open spec fn envelope_bytes(e: EnvelopeView) -> Seq<u8> {
    field(1, e.uuid) + field(2, field(1, e.date)) + field(3, e.signing) + field(4, e.encryption)
        + field(5, e.signature) + field(6, e.ciphertext)
}

/// The envelope that bytes hold, if they hold exactly one.
pub open spec fn parse_envelope(b: Seq<u8>) -> Option<EnvelopeView> {
    match field_at(b, 0, 1) {
        None => None,
        Some((uuid, at1)) => match field_at(b, at1, 2) {
            None => None,
            Some((m, at2)) => match parse_date_message(m) {
                None => None,
                Some(date) => match field_at(b, at2, 3) {
                    None => None,
                    Some((signing, at3)) => match field_at(b, at3, 4) {
                        None => None,
                        Some((encryption, at4)) => match field_at(b, at4, 5) {
                            None => None,
                            Some((signature, at5)) => match field_at(b, at5, 6) {
                                None => None,
                                Some((ciphertext, at6)) => if at6 == b.len() {
                                    Some(EnvelopeView { uuid, date, signing, encryption, signature, ciphertext })
                                } else {
                                    None
                                },
                            },
                        },
                    },
                },
            },
        },
    }
}

struct Envelope {
    uuid: Vec<u8>,
    date: Vec<u8>,
    signing: Vec<u8>,
    encryption: Vec<u8>,
    signature: Vec<u8>,
    ciphertext: Vec<u8>,
}

fn decode_envelope(b: &[u8], start: usize) -> (r: Option<Envelope>)
    requires
        start <= b@.len(),
    ensures
        match parse_envelope(b@.subrange(start as int, b@.len() as int)) {
            Some(e) => r matches Some(v) && v.uuid@ == e.uuid && v.date@ == e.date && v.signing@ == e.signing
                && v.encryption@ == e.encryption && v.signature@ == e.signature && v.ciphertext@ == e.ciphertext,
            None => r is None,
        },
{
    let body = slice_bytes(b, start, b.len());
    let s = body.as_slice();
    let (s1, at1) = match read_field_at(s, 0, 1) { Some(x) => x, None => return None };
    let (s2, at2) = match read_field_at(s, at1, 2) { Some(x) => x, None => return None };
    let m = slice_bytes(s, s2, at2);
    let (sd, ed) = match read_field_at(m.as_slice(), 0, 1) { Some(x) => x, None => return None };
    if ed != m.len() {
        return None;
    }
    let (s3, at3) = match read_field_at(s, at2, 3) { Some(x) => x, None => return None };
    let (s4, at4) = match read_field_at(s, at3, 4) { Some(x) => x, None => return None };
    let (s5, at5) = match read_field_at(s, at4, 5) { Some(x) => x, None => return None };
    let (s6, at6) = match read_field_at(s, at5, 6) { Some(x) => x, None => return None };
    if at6 != s.len() {
        return None;
    }
    Some(Envelope {
        uuid: slice_bytes(s, s1, at1),
        date: slice_bytes(m.as_slice(), sd, ed),
        signing: slice_bytes(s, s3, at3),
        encryption: slice_bytes(s, s4, at4),
        signature: slice_bytes(s, s5, at5),
        ciphertext: slice_bytes(s, s6, at6),
    })
}

// ---------------------------------------------------------------------------
// Packs
/// A pack of files.
pub struct Pack {
    /// The pack's UUID, 16 bytes.
    pub uuid: Vec<u8>,
    /// When the pack was made.
    pub date: Timestamp,
    /// Fingerprints of the keys that sealed and signed it, once verified.
    pub fingerprints: Option<Fingerprints>,
    /// The files, in order.
    pub files: Vec<PackFile>,
}

/// What a verified pack holds.
pub struct PackView {
    /// UUID bytes.
    pub uuid: Seq<u8>,
    /// Date.
    pub date: Timestamp,
    /// Signing key fingerprint.
    pub signing: Seq<char>,
    /// Encryption key fingerprint.
    pub encryption: Seq<char>,
    /// Files.
    pub files: Seq<FileView>,
}

/// The associated data that a pack's payload is sealed with.
pub open spec fn sealing_data(date: Seq<u8>, encryption: Seq<u8>, signing: Seq<u8>) -> Seq<Seq<u8>> {
    seq![date, encryption, signing]
}

/// What a pack's framing gives before any cryptographic check: its envelope, UUID,
/// fingerprints, the keys they name, and its date.
pub struct Opening {
    /// The envelope's fields.
    pub env: EnvelopeView,
    /// UUID bytes.
    pub id: Seq<u8>,
    /// Signing key fingerprint.
    pub signing: Seq<char>,
    /// Encryption key fingerprint.
    pub encryption: Seq<char>,
    /// The verify key found for the signing fingerprint.
    pub public: Seq<u8>,
    /// The AES-SIV key derived for the encryption fingerprint and the UUID.
    pub key: Seq<u8>,
    /// The pack's date.
    pub date: Timestamp,
}

/// What a pack's framing gives before any key is looked up: its envelope, UUID and
/// fingerprints.
pub struct Framing {
    /// The envelope's fields.
    pub env: EnvelopeView,
    /// UUID bytes.
    pub id: Seq<u8>,
    /// Signing key fingerprint.
    pub signing: Seq<char>,
    /// Encryption key fingerprint.
    pub encryption: Seq<char>,
}

/// The checks of a pack's framing, in order: magic, envelope, text fields, UUID. The kind
/// of the first that fails, or what they give.
pub open spec fn framing(bytes: Seq<u8>) -> Result<Framing, ErrorKind> {
    if bytes.len() < MAGIC_LENGTH || bytes.subrange(0, MAGIC_LENGTH as int) != magic() {
        Err(ErrorKind::Parse)
    } else {
        match parse_envelope(bytes.subrange(MAGIC_LENGTH as int, bytes.len() as int)) {
            None => Err(ErrorKind::Parse),
            Some(env) => match (utf8_text(env.uuid), utf8_text(env.signing), utf8_text(env.encryption)) {
                (Some(text), Some(signing), Some(encryption)) => match uuid_parsed(text) {
                    None => Err(ErrorKind::Parse),
                    Some(id) => Ok(Framing { env, id, signing, encryption }),
                },
                _ => Err(ErrorKind::Parse),
            },
        }
    }
}

/// The checks after the framing, given the verify key and AES-SIV key found for it (none
/// when the lookup failed): date, signature, decryption, skew, payload.
pub open spec fn checked(f: Framing, keys: Option<(Seq<u8>, Seq<u8>)>, now: Timestamp) -> Result<PackView, ErrorKind> {
    match keys {
        None => Err(ErrorKind::InvalidKey),
        Some((public, key)) => match parse_tai64n(f.env.date) {
            None => Err(ErrorKind::Parse),
            Some(date) => if !ed25519_verifies(public, f.env.ciphertext, f.env.signature) {
                Err(ErrorKind::Crypto)
            } else {
                match siv_opened(key, sealing_data(f.env.date, f.env.encryption, f.env.signing), f.env.ciphertext) {
                    None => Err(ErrorKind::Crypto),
                    Some(plaintext) => if too_far_ahead(date, now) {
                        Err(ErrorKind::Parse)
                    } else {
                        match parse_records(plaintext, 0) {
                            None => Err(ErrorKind::Parse),
                            Some(files) => Ok(PackView { uuid: f.id, date, signing: f.signing, encryption: f.encryption, files }),
                        }
                    },
                }
            },
        },
    }
}

/// The checks before the signature, in order: framing, keys, date. The kind of the first
/// that fails, or what they give.
pub open spec fn opening(bytes: Seq<u8>, keys: &Keyrings) -> Result<Opening, ErrorKind> {
    match framing(bytes) {
        Err(k) => Err(k),
        Ok(f) => match keys_for(keys, f.signing, f.encryption, f.id) {
            None => Err(ErrorKind::InvalidKey),
            Some((public, key)) => match parse_tai64n(f.env.date) {
                None => Err(ErrorKind::Parse),
                Some(date) => Ok(Opening { env: f.env, id: f.id, signing: f.signing, encryption: f.encryption, public, key, date }),
            },
        },
    }
}

/// What verifying and decrypting `bytes` at time `now` with the keyrings yields: the pack,
/// or the kind of the first check that fails. The signature is checked before decryption;
/// the associated data is rebuilt from the envelope's own date and fingerprint bytes.
pub open spec fn pack_outcome(bytes: Seq<u8>, keys: &Keyrings, now: Timestamp) -> Result<PackView, ErrorKind> {
    match opening(bytes, keys) {
        Err(k) => Err(k),
        Ok(o) => if !ed25519_verifies(o.public, o.env.ciphertext, o.env.signature) {
            Err(ErrorKind::Crypto)
        } else {
            match siv_opened(o.key, sealing_data(o.env.date, o.env.encryption, o.env.signing), o.env.ciphertext) {
                None => Err(ErrorKind::Crypto),
                Some(plaintext) => if too_far_ahead(o.date, now) {
                    Err(ErrorKind::Parse)
                } else {
                    match parse_records(plaintext, 0) {
                        None => Err(ErrorKind::Parse),
                        Some(files) => Ok(PackView { uuid: o.id, date: o.date, signing: o.signing, encryption: o.encryption, files }),
                    }
                },
            }
        },
    }
}

/// Once a pack's framing, keys and date pass, a signature that does not verify over the
/// ciphertext, or a ciphertext that does not authenticate under the derived key and the
/// envelope's date and fingerprints, is refused with a cryptographic error.
pub proof fn lemma_forgery_is_refused(bytes: Seq<u8>, keys: &Keyrings, now: Timestamp)
    requires
        opening(bytes, keys) matches Ok(o) && (!ed25519_verifies(o.public, o.env.ciphertext, o.env.signature)
            || siv_opened(o.key, sealing_data(o.env.date, o.env.encryption, o.env.signing), o.env.ciphertext) is None),
    ensures
        pack_outcome(bytes, keys, now) == Err::<PackView, ErrorKind>(ErrorKind::Crypto),
{
}

/// A pack that verifies and decrypts but is dated more than a day after `now` is refused
/// with a parse error.
pub proof fn lemma_future_pack_is_refused(bytes: Seq<u8>, keys: &Keyrings, now: Timestamp)
    requires
        opening(bytes, keys) matches Ok(o) && ed25519_verifies(o.public, o.env.ciphertext, o.env.signature)
            && siv_opened(o.key, sealing_data(o.env.date, o.env.encryption, o.env.signing), o.env.ciphertext) is Some
            && total_nanos(o.date) - total_nanos(now) > MAX_PACK_TIMESTAMP_SKEW * 1_000_000_000,
    ensures
        pack_outcome(bytes, keys, now) == Err::<PackView, ErrorKind>(ErrorKind::Parse),
{
}

/// The bytes `encrypt_and_sign` writes for a payload, given the pack's UUID and date and
/// the keys' fingerprints, key and seed.
pub open spec fn sealed_pack(uuid: Seq<u8>, date: Timestamp, files: Seq<FileView>, encryption: Seq<char>, key: Seq<u8>, seed: Seq<u8>) -> Seq<u8> {
    let signing = fingerprint_of(bech32k::encoded(VERIFY_KEY_PREFIX@, ed25519_public_of(seed)));
    let ciphertext = siv_sealed(key, sealing_data(tai64n(date), encode_utf8(encryption), encode_utf8(signing)), payload_bytes(files));
    magic() + envelope_bytes(EnvelopeView {
        uuid: encode_utf8(uuid_text_of(uuid)),
        date: tai64n(date),
        signing: encode_utf8(signing),
        encryption: encode_utf8(encryption),
        signature: ed25519_signature_of(seed, ciphertext),
        ciphertext,
    })
}

impl Pack {
    /// UUID of 16 bytes, a representable date, and well-formed files.
    pub open spec fn wf(&self) -> bool {
        self.uuid@.len() == 16 && self.date.wf() && forall|i: int| 0 <= i < self.files@.len() ==> (#[trigger] self.files@[i]).wf()
    }

    /// A new pack of the given files, made at `date`, not yet sealed.
    pub fn create(uuid: &[u8], date: Timestamp, files: Vec<PackFile>) -> (r: Result<Self, Error>)
        ensures
            match r {
                Ok(p) => p.uuid@ == uuid@ && p.date == date && p.fingerprints is None && p.files@ == files@ && p.wf(),
                Err(e) => e is Parse && !(uuid@.len() == 16 && date.wf() && forall|i: int| 0 <= i < files@.len() ==> (#[trigger] files@[i]).wf()),
            },
    {
        if uuid.len() != 16 || !(date.nanos < 1_000_000_000 && -0x4000_0000_0000_000a <= date.secs && date.secs < 0x3fff_ffff_ffff_fff6) {
            return Err(Error::Parse { description: "invalid pack UUID or date".to_owned() });
        }
        let mut i: usize = 0;
        while i < files.len()
            invariant
                i <= files@.len(),
                forall|j: int| 0 <= j < i ==> (#[trigger] files@[j]).wf(),
            decreases files@.len() - i,
        {
            match files[i].modified_at {
                Some(t) => {
                    if !(t.nanos < 1_000_000_000 && -0x4000_0000_0000_000a <= t.secs && t.secs < 0x3fff_ffff_ffff_fff6) {
                        return Err(Error::Parse { description: "invalid modification time".to_owned() });
                    }
                },
                None => {},
            }
            i = i + 1;
        }
        Ok(Pack { uuid: vstd::slice::slice_to_vec(uuid), date, fingerprints: None, files })
    }

    /// The payload bytes of the pack's files; an error when they exceed the largest pack.
    pub fn serialize(self) -> (r: Result<Vec<u8>, Error>)
        requires
            self.wf(),
        ensures
            match r {
                Ok(b) => b@ == payload_bytes(files_view(self.files@)) && b@.len() <= MAX_PACK_SIZE,
                Err(e) => e is Serialization && payload_bytes(files_view(self.files@)).len() > MAX_PACK_SIZE,
            },
    {
        encode_payload(&self.files)
    }

    /// Seal the payload with the encryptor (binding the date and both fingerprints), sign
    /// the ciphertext, and frame the envelope after the magic string.
    #[verifier::rlimit(50)]
    pub fn encrypt_and_sign(self, encryptor: &mut Encryptor, signer: &Signer) -> (r: Result<Vec<u8>, Error>)
        requires
            self.wf(),
            old(encryptor).wf(),
            signer.wf(),
        ensures
            *final(encryptor) == *old(encryptor),
            match r {
                Ok(b) => b@ == sealed_pack(self.uuid@, self.date, files_view(self.files@), old(encryptor).fingerprint_view(), old(encryptor).key(), signer.view())
                    && payload_bytes(files_view(self.files@)).len() <= MAX_PACK_SIZE,
                Err(e) => e is Serialization && payload_bytes(files_view(self.files@)).len() > MAX_PACK_SIZE,
            },
    {
        let ghost files = files_view(self.files@);
        let ghost uuid_bytes = self.uuid@;
        let ghost date = self.date;
        let date_bytes = tai64n_bytes(self.date);
        let uuid = uuid_text(self.uuid.as_slice());
        let encryption_fingerprint = encryptor.fingerprint().to_owned();
        let public_key = signer.public_key()?;
        let signing_fingerprint = public_key.to_fingerprint();
        let plaintext = self.serialize()?;
        let mut associated: Vec<Vec<u8>> = Vec::new();
        associated.push(vstd::slice::slice_to_vec(date_bytes.as_slice()));
        associated.push(vstd::slice::slice_to_vec(encryption_fingerprint.as_str().as_bytes()));
        associated.push(vstd::slice::slice_to_vec(signing_fingerprint.as_str().as_bytes()));
        assert(crate::crypto::views_of(associated@) =~= sealing_data(date_bytes@, encode_utf8(encryption_fingerprint@), encode_utf8(signing_fingerprint@)));
        let ciphertext = encryptor.seal(&associated, plaintext.as_slice());
        let signature = signer.sign(ciphertext.as_slice())?;
        let uuid_bytes_text = uuid.as_str().as_bytes();
        let efp = encryption_fingerprint.as_str().as_bytes();
        let sfp = signing_fingerprint.as_str().as_bytes();
        proof {
            crate::bech32k::lemma_utf8_len(uuid@);
            crate::bech32k::lemma_utf8_len(encryption_fingerprint@);
            crate::bech32k::lemma_utf8_len(signing_fingerprint@);
        }
        let ghost env = EnvelopeView {
            uuid: uuid_bytes_text@,
            date: date_bytes@,
            signing: sfp@,
            encryption: efp@,
            signature: signature@,
            ciphertext: ciphertext@,
        };
        let mut out = magic_bytes();
        write_field(&mut out, 1, uuid_bytes_text);
        let mut m: Vec<u8> = Vec::new();
        write_field(&mut m, 1, date_bytes.as_slice());
        write_field(&mut out, 2, m.as_slice());
        write_field(&mut out, 3, sfp);
        write_field(&mut out, 4, efp);
        write_field(&mut out, 5, signature.as_slice());
        write_field(&mut out, 6, ciphertext.as_slice());
        assert(out@ =~= magic() + envelope_bytes(env));
        Ok(out)
    }
}

/// `r` is what `pack_outcome` describes: the same pack, or an error of the same kind.
pub open spec fn outcome_matches(r: Result<Pack, Error>, o: Result<PackView, ErrorKind>) -> bool {
    match (r, o) {
        (Ok(p), Ok(v)) => p.uuid@ == v.uuid && p.date == v.date && files_view(p.files@) == v.files
            && (p.fingerprints matches Some(f) && f.signing_key@ == v.signing && f.encryption_key@ == v.encryption),
        (Err(e), Err(k)) => e.kind() == k,
        _ => false,
    }
}

fn copy_bytes(b: &Vec<u8>) -> (r: Vec<u8>)
    ensures
        r@ == b@,
{
    vstd::slice::slice_to_vec(b.as_slice())
}

/// The key views a lookup result gives: none when the lookup failed or returned a
/// malformed encryptor.
pub open spec fn found_keys(found: Option<(PublicKey, Encryptor)>) -> Option<(Seq<u8>, Seq<u8>)> {
    match found {
        Some((p, e)) => if e.wf() {
            Some((p.view(), e.key()))
        } else {
            None
        },
        None => None,
    }
}

impl Envelope {
    spec fn view(&self) -> EnvelopeView {
        EnvelopeView {
            uuid: self.uuid@,
            date: self.date@,
            signing: self.signing@,
            encryption: self.encryption@,
            signature: self.signature@,
            ciphertext: self.ciphertext@,
        }
    }
}

fn read_framing(bytes: &[u8]) -> (r: Result<(Envelope, Vec<u8>, Fingerprints), Error>)
    ensures
        match (r, framing(bytes@)) {
            (Ok((env, id, fps)), Ok(f)) => env.view() == f.env && id@ == f.id && fps.signing_key@ == f.signing
                && fps.encryption_key@ == f.encryption,
            (Err(e), Err(k)) => e.kind() == k,
            _ => false,
        },
{
    if bytes.len() < MAGIC_LENGTH {
        return Err(Error::Parse { description: "pack too short".to_owned() });
    }
    let expected = magic_bytes();
    let mut i: usize = 0;
    while i < MAGIC_LENGTH
        invariant
            i <= MAGIC_LENGTH <= bytes@.len(),
            expected@ == magic(),
            forall|j: int| 0 <= j < i ==> bytes@[j] == magic()[j],
        decreases MAGIC_LENGTH - i,
    {
        if bytes[i] != expected[i] {
            assert(bytes@.subrange(0, MAGIC_LENGTH as int)[i as int] != magic()[i as int]);
            return Err(Error::Parse { description: "pack does not start with the magic string".to_owned() });
        }
        i = i + 1;
    }
    assert(bytes@.subrange(0, MAGIC_LENGTH as int) =~= magic());
    let env = match decode_envelope(bytes, MAGIC_LENGTH) {
        Some(e) => e,
        None => return Err(Error::Parse { description: "pack parsing error".to_owned() }),
    };
    let uuid_text = text_of(copy_bytes(&env.uuid));
    let signing = text_of(copy_bytes(&env.signing));
    let encryption = text_of(copy_bytes(&env.encryption));
    let (uuid_text, signing, encryption) = match (uuid_text, signing, encryption) {
        (Some(u), Some(s), Some(e)) => (u, s, e),
        _ => return Err(Error::Parse { description: "pack parsing error".to_owned() }),
    };
    let uuid = match parse_uuid(uuid_text.as_str()) {
        Some(u) => u,
        None => return Err(Error::Parse { description: "invalid UUID".to_owned() }),
    };
    Ok((env, uuid, Fingerprints { signing_key: signing, encryption_key: encryption }))
}

fn check_and_open(
    env: &Envelope,
    uuid: Vec<u8>,
    fingerprints: Fingerprints,
    public_key: &PublicKey,
    encryptor: &mut Encryptor,
    now: Timestamp,
) -> (r: Result<Pack, Error>)
    requires
        old(encryptor).wf(),
    ensures
        outcome_matches(
            r,
            checked(
                Framing { env: env.view(), id: uuid@, signing: fingerprints.signing_key@, encryption: fingerprints.encryption_key@ },
                Some((public_key.view(), old(encryptor).key())),
                now,
            ),
        ),
{
    let date = match timestamp_from_tai64n(env.date.as_slice()) {
        Some(d) => d,
        None => return Err(Error::Parse { description: "couldn't parse date from pack file".to_owned() }),
    };
    public_key.verify(env.ciphertext.as_slice(), env.signature.as_slice())?;
    let mut associated: Vec<Vec<u8>> = Vec::new();
    associated.push(copy_bytes(&env.date));
    associated.push(copy_bytes(&env.encryption));
    associated.push(copy_bytes(&env.signing));
    assert(crate::crypto::views_of(associated@) =~= sealing_data(env.date@, env.encryption@, env.signing@));
    let plaintext = match encryptor.open(&associated, env.ciphertext.as_slice()) {
        Ok(p) => p,
        Err(_) => return Err(Error::Crypto { description: "decryption failed".to_owned() }),
    };
    if is_too_far_ahead(date, now) {
        return Err(Error::Parse { description: "bogus future timestamp on pack".to_owned() });
    }
    let files = match decode_payload(plaintext.as_slice()) {
        Some(f) => f,
        None => return Err(Error::Parse { description: "payload parsing error".to_owned() }),
    };
    Ok(Pack { uuid, date, fingerprints: Some(fingerprints), files })
}

impl Pack {
    /// Verify a pack's signature, then decrypt it, with keys found by the fingerprints it
    /// carries and an encryptor salted with its UUID; `now` bounds its date.
    pub fn verify_and_decrypt_at(bytes: &[u8], keyrings: &Keyrings, now: Timestamp) -> (r: Result<Pack, Error>)
        requires
            keyrings.wf(),
        ensures
            outcome_matches(r, pack_outcome(bytes@, keyrings, now)),
    {
        let (env, uuid, fingerprints) = read_framing(bytes)?;
        let (public_key, mut encryptor) = match keyrings.get_for_fingerprints(&fingerprints, uuid.as_slice()) {
            Ok(k) => k,
            Err(_) => return Err(Error::InvalidKey { description: "key lookup failed".to_owned() }),
        };
        check_and_open(&env, uuid, fingerprints, &public_key, &mut encryptor, now)
    }

    /// Verify and decrypt a pack with keys from `key_lookup`, which is given the pack's
    /// fingerprints and UUID bytes and returns its verify key and a matching encryptor (or
    /// nothing); `now` bounds its date.
    pub fn verify_and_decrypt_with<F>(bytes: &[u8], key_lookup: F, now: Timestamp) -> (r: Result<Pack, Error>)
        where
            F: Fn(&Fingerprints, &Vec<u8>) -> Option<(PublicKey, Encryptor)>,
        requires
            forall|f: &Fingerprints, u: &Vec<u8>| #[trigger] key_lookup.requires((f, u)),
        ensures
            match framing(bytes@) {
                Err(k) => r matches Err(e) && e.kind() == k,
                Ok(f) => exists|fps: Fingerprints, id: Vec<u8>, found: Option<(PublicKey, Encryptor)>|
                    fps.signing_key@ == f.signing && fps.encryption_key@ == f.encryption && id@ == f.id
                        && #[trigger] key_lookup.ensures((&fps, &id), found)
                        && outcome_matches(r, checked(f, found_keys(found), now)),
            },
    {
        let (env, uuid, fingerprints) = read_framing(bytes)?;
        let found = key_lookup(&fingerprints, &uuid);
        match found {
            Some((public_key, mut encryptor)) => {
                if !encryptor.is_wf() {
                    return Err(Error::InvalidKey { description: "key lookup failed".to_owned() });
                }
                check_and_open(&env, uuid, fingerprints, &public_key, &mut encryptor, now)
            },
            None => Err(Error::InvalidKey { description: "key lookup failed".to_owned() }),
        }
    }

    /// Verify and decrypt a pack, bounding its date by the current time.
    pub fn verify_and_decrypt(bytes: &[u8], keyrings: &Keyrings) -> (r: Result<Pack, Error>)
        requires
            keyrings.wf(),
        ensures
            exists|now: Timestamp| now.wf() && outcome_matches(r, #[trigger] pack_outcome(bytes@, keyrings, now)),
    {
        let now = current_time();
        Pack::verify_and_decrypt_at(bytes, keyrings, now)
    }

    /// Verify and decrypt pack bytes read from storage, refusing more than the largest
    /// pack before any other check.
    pub fn load(data: &[u8], keyrings: &Keyrings, now: Timestamp) -> (r: Result<Pack, Error>)
        requires
            keyrings.wf(),
        ensures
            data@.len() > MAX_PACK_SIZE ==> r matches Err(Error::Serialization { .. }),
            data@.len() <= MAX_PACK_SIZE ==> outcome_matches(r, pack_outcome(data@, keyrings, now)),
    {
        if data.len() > MAX_PACK_SIZE {
            return Err(Error::Serialization { description: "pack too large".to_owned() });
        }
        Pack::verify_and_decrypt_at(data, keyrings, now)
    }

    /// The files of the pack, in order.
    pub fn files(&self) -> (r: &Vec<PackFile>)
        ensures
            r == &self.files,
    {
        &self.files
    }
}

// ---------------------------------------------------------------------------
// Round trip of the payload
/// TAI64N bytes read back as the timestamp they encode.
pub proof fn lemma_tai64n_round_trip(t: Timestamp)
    requires
        t.wf(),
    ensures
        parse_tai64n(tai64n(t)) == Some(t),
{
    let label = (TAI64_UNIX_EPOCH + t.secs) as nat;
    let b = tai64n(t);
    lemma_value_of_digits(label, 8, 8);
    lemma_value_of_digits(t.nanos as nat, 8, 4);
    vstd::arithmetic::power2::lemma2_to64_rest();
    lemma2_to64();
    assert(b.subrange(0, 8) =~= digits_of(label, 8, 8));
    assert(b.subrange(8, 12) =~= digits_of(t.nanos as nat, 8, 4));
    vstd::arithmetic::div_mod::lemma_small_mod(label, pow2(64));
    vstd::arithmetic::div_mod::lemma_small_mod(t.nanos as nat, pow2(32));
}

/// A file the payload encoding can hold: fields below the pack size, a representable date.
pub open spec fn encodable(f: FileView) -> bool {
    &&& encode_utf8(f.filename).len() <= MAX_PACK_SIZE
    &&& encode_utf8(f.content_type).len() <= MAX_PACK_SIZE
    &&& f.body.len() <= MAX_PACK_SIZE
    &&& match f.modified_at {
        Some(t) => t.wf(),
        None => true,
    }
}

proof fn lemma_field_in(tag: u8, payload: Seq<u8>, b: Seq<u8>, pos: int, rest: Seq<u8>)
    requires
        tag < 16,
        payload.len() < 0x1000_0000,
        0 <= pos <= b.len(),
        b.subrange(pos, b.len() as int) == field(tag, payload) + rest,
    ensures
        field_at(b, pos, tag) == Some((payload, pos + field(tag, payload).len())),
        read_field(b, pos, tag) == Some((pos + 1 + varint(payload.len()).len(), pos + field(tag, payload).len())),
        b.subrange(pos + field(tag, payload).len(), b.len() as int) == rest,
{
    let f = field(tag, payload);
    assert(b.subrange(pos, b.len() as int).len() == b.len() - pos);
    assert(b.len() - pos == f.len() + rest.len());
    assert(b.subrange(pos, pos + f.len()) =~= b.subrange(pos, b.len() as int).subrange(0, f.len() as int));
    assert((f + rest).subrange(0, f.len() as int) =~= f);
    lemma_read_field(tag, payload, b, pos);
    assert(b.subrange(pos + f.len(), b.len() as int) =~= (f + rest).subrange(f.len() as int, (f + rest).len() as int));
    assert((f + rest).subrange(f.len() as int, (f + rest).len() as int) =~= rest);
}

proof fn lemma_record_head(f: FileView)
    requires
        encodable(f),
    ensures
        ({
            let r = file_record(f);
            let at1 = field(1, encode_utf8(f.filename)).len() as int;
            let at2 = at1 + field(2, encode_utf8(f.content_type)).len();
            &&& field_at(r, 0, 1) == Some((encode_utf8(f.filename), at1))
            &&& field_at(r, at1, 2) == Some((encode_utf8(f.content_type), at2))
            &&& r.subrange(at2, r.len() as int) == date_field(f) + field(4, f.body)
            &&& r.len() < 0x1000_0000
        }),
{
    let name = encode_utf8(f.filename);
    let ctype = encode_utf8(f.content_type);
    let tail = date_field(f) + field(4, f.body);
    let r = file_record(f);
    lemma_varint_len(name.len());
    lemma_varint_len(ctype.len());
    lemma_varint_len(f.body.len());
    lemma_varint_len(12);
    lemma_varint_len(14);
    if let Some(t) = f.modified_at {
        lemma_tai64n_len(t);
    }
    assert(r =~= field(1, name) + (field(2, ctype) + tail));
    assert(r.subrange(0, r.len() as int) =~= r);
    lemma_field_in(1, name, r, 0, field(2, ctype) + tail);
    let at1 = field(1, name).len() as int;
    lemma_field_in(2, ctype, r, at1, tail);
}

proof fn lemma_tai64n_len(t: Timestamp)
    ensures
        tai64n(t).len() == 12,
{
    lemma_value_of_digits((TAI64_UNIX_EPOCH + t.secs) as nat, 8, 8);
    lemma_value_of_digits(t.nanos as nat, 8, 4);
}

/// The modification-time field of a record, empty when there is none.
pub open spec fn date_field(f: FileView) -> Seq<u8> {
    match f.modified_at {
        Some(t) => field(3, field(1, tai64n(t))),
        None => Seq::empty(),
    }
}

proof fn lemma_record_tail(f: FileView, r: Seq<u8>, at2: int)
    requires
        encodable(f),
        0 <= at2 <= r.len(),
        r.subrange(at2, r.len() as int) == date_field(f) + field(4, f.body),
    ensures
        (at2 < r.len() && r[at2] == 0x1a) == (f.modified_at is Some),
        match f.modified_at {
            Some(t) => field_at(r, at2, 3) matches Some((m, at3)) && parse_date_message(m) == Some(tai64n(t))
                && parse_tai64n(tai64n(t)) == Some(t) && field_at(r, at3, 4) == Some((f.body, r.len() as int)),
            None => field_at(r, at2, 4) == Some((f.body, r.len() as int)),
        },
{
    lemma_varint_len(f.body.len());
    assert(r.subrange(at2, r.len() as int).len() == r.len() - at2);
    assert(field(4, f.body).len() >= 1);
    assert(at2 < r.len());
    assert(r[at2] == r.subrange(at2, r.len() as int)[0]);
    match f.modified_at {
        Some(t) => {
            lemma_tai64n_len(t);
            lemma_varint_len(12);
            let m = field(1, tai64n(t));
            lemma_field_in(3, m, r, at2, field(4, f.body));
            let at3 = at2 + field(3, m).len();
            assert(m.subrange(0, m.len() as int) =~= m + Seq::<u8>::empty());
            lemma_field_in(1, tai64n(t), m, 0, Seq::empty());
            lemma_tai64n_round_trip(t);
            assert(r.subrange(at3, r.len() as int) =~= field(4, f.body) + Seq::<u8>::empty());
            lemma_field_in(4, f.body, r, at3, Seq::empty());
        },
        None => {
            assert(r.subrange(at2, r.len() as int) =~= field(4, f.body) + Seq::<u8>::empty());
            lemma_field_in(4, f.body, r, at2, Seq::empty());
        },
    }
}

/// A file record reads back as the file.
pub proof fn lemma_record_round_trip(f: FileView)
    requires
        encodable(f),
    ensures
        parse_file_record(file_record(f)) == Some(f),
        file_record(f).len() < 0x1000_0000,
{
    let r = file_record(f);
    lemma_record_head(f);
    let at1 = field(1, encode_utf8(f.filename)).len() as int;
    let at2 = at1 + field(2, encode_utf8(f.content_type)).len();
    lemma_record_tail(f, r, at2);
    vstd::utf8::encode_utf8_valid_utf8(f.filename);
    vstd::utf8::encode_utf8_decode_utf8(f.filename);
    vstd::utf8::encode_utf8_valid_utf8(f.content_type);
    vstd::utf8::encode_utf8_decode_utf8(f.content_type);
}

proof fn lemma_payload_front(f: FileView, fs: Seq<FileView>)
    ensures
        payload_bytes(seq![f] + fs) == field(1, file_record(f)) + payload_bytes(fs),
    decreases fs.len(),
{
    if fs.len() == 0 {
        assert(seq![f] + fs =~= seq![f]);
        assert(seq![f].drop_last() =~= Seq::<FileView>::empty());
        assert(payload_bytes(Seq::<FileView>::empty()) =~= Seq::<u8>::empty());
        assert(seq![f].last() == f);
        assert(payload_bytes(seq![f]) =~= field(1, file_record(f)));
    } else {
        let init = fs.drop_last();
        lemma_payload_front(f, init);
        assert((seq![f] + fs).drop_last() =~= seq![f] + init);
        assert((seq![f] + fs).last() == fs.last());
        assert(payload_bytes(seq![f] + fs) =~= field(1, file_record(f)) + payload_bytes(fs));
    }
}

proof fn lemma_records_round_trip(fs: Seq<FileView>, b: Seq<u8>, pos: int)
    requires
        0 <= pos <= b.len(),
        b.subrange(pos, b.len() as int) == payload_bytes(fs),
        forall|i: int| 0 <= i < fs.len() ==> encodable(#[trigger] fs[i]),
    ensures
        parse_records(b, pos) == Some(fs),
    decreases fs.len(),
{
    if fs.len() == 0 {
        assert(b.subrange(pos, b.len() as int).len() == 0);
    } else {
        let f = fs[0];
        let rest = fs.drop_first();
        assert(fs =~= seq![f] + rest);
        lemma_payload_front(f, rest);
        lemma_record_round_trip(f);
        let rec = file_record(f);
        lemma_field_in(1, rec, b, pos, payload_bytes(rest));
        let e = pos + field(1, rec).len();
        assert forall|i: int| 0 <= i < rest.len() implies encodable(#[trigger] rest[i]) by {
            assert(rest[i] == fs[i + 1]);
        }
        lemma_records_round_trip(rest, b, e);
        assert(seq![f] + rest =~= fs);
    }
}

/// The payload of files that it can hold decodes to the same files, in order, with the
/// same bodies.
pub proof fn lemma_payload_round_trip(fs: Seq<FileView>)
    requires
        forall|i: int| 0 <= i < fs.len() ==> encodable(#[trigger] fs[i]),
    ensures
        parse_records(payload_bytes(fs), 0) == Some(fs),
{
    let b = payload_bytes(fs);
    assert(b.subrange(0, b.len() as int) =~= b);
    lemma_records_round_trip(fs, b, 0);
}

/// An envelope with fields that fit reads back as itself.
pub proof fn lemma_envelope_round_trip(e: EnvelopeView)
    requires
        e.uuid.len() < 0x100_0000,
        e.date.len() == 12,
        e.signing.len() < 0x100_0000,
        e.encryption.len() < 0x100_0000,
        e.signature.len() < 0x100_0000,
        e.ciphertext.len() < 0x100_0000,
    ensures
        parse_envelope(envelope_bytes(e)) == Some(e),
{
    let m = field(1, e.date);
    lemma_varint_len(12);
    let f1 = field(1, e.uuid);
    let f2 = field(2, m);
    let f3 = field(3, e.signing);
    let f4 = field(4, e.encryption);
    let f5 = field(5, e.signature);
    let f6 = field(6, e.ciphertext);
    let b = envelope_bytes(e);
    assert(b.subrange(0, b.len() as int) =~= f1 + (f2 + f3 + f4 + f5 + f6));
    lemma_field_in(1, e.uuid, b, 0, f2 + f3 + f4 + f5 + f6);
    let at1 = f1.len() as int;
    assert(f2 + f3 + f4 + f5 + f6 =~= f2 + (f3 + f4 + f5 + f6));
    lemma_field_in(2, m, b, at1, f3 + f4 + f5 + f6);
    let at2 = at1 + f2.len();
    assert(m.subrange(0, m.len() as int) =~= m + Seq::<u8>::empty());
    lemma_field_in(1, e.date, m, 0, Seq::empty());
    assert(f3 + f4 + f5 + f6 =~= f3 + (f4 + f5 + f6));
    lemma_field_in(3, e.signing, b, at2, f4 + f5 + f6);
    let at3 = at2 + f3.len();
    assert(f4 + f5 + f6 =~= f4 + (f5 + f6));
    lemma_field_in(4, e.encryption, b, at3, f5 + f6);
    let at4 = at3 + f4.len();
    lemma_field_in(5, e.signature, b, at4, f6);
    let at5 = at4 + f5.len();
    assert(f6 =~= f6 + Seq::<u8>::empty());
    lemma_field_in(6, e.ciphertext, b, at5, Seq::empty());
}

/// Framing reads back: after the magic string stands the envelope that was written.
/// `encrypt_and_sign` writes exactly such bytes (see `sealed_pack`).
pub proof fn lemma_framing_round_trip(e: EnvelopeView)
    requires
        e.uuid.len() < 0x100_0000,
        e.date.len() == 12,
        e.signing.len() < 0x100_0000,
        e.encryption.len() < 0x100_0000,
        e.signature.len() < 0x100_0000,
        e.ciphertext.len() < 0x100_0000,
    ensures
        (magic() + envelope_bytes(e)).subrange(0, MAGIC_LENGTH as int) == magic(),
        parse_envelope((magic() + envelope_bytes(e)).subrange(MAGIC_LENGTH as int, (magic() + envelope_bytes(e)).len() as int)) == Some(e),
{
    let b = magic() + envelope_bytes(e);
    assert(b.subrange(0, MAGIC_LENGTH as int) =~= magic());
    assert(b.subrange(MAGIC_LENGTH as int, b.len() as int) =~= envelope_bytes(e));
    lemma_envelope_round_trip(e);
}

} // verus!

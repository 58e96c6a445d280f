//! The fetcher protocol: greeting, resource requests, and length-framed deliveries.
use crate::consumer::{distinct_names, lemma_distinct_push, lemma_lookup_at, lookup};
use crate::error::Error;
use crate::keyuri::{sha256, sha256_of};
use crate::lookup::position;
use crate::pack::MAX_PACK_SIZE;
use crate::strings::push_char;
use vstd::prelude::*;

verus! {

/// Fetcher executables are named with this prefix followed by the source name.
pub const PLACER_SOURCE_PREFIX: &'static str = "placer-source-";

/// A fetcher's greeting starts with this.
pub const GREETING_PREFIX: &'static str = "OK ";

/// A character with the Unicode White_Space property.
pub open spec fn is_white_space(c: char) -> bool {
    ('\u{9}' <= c <= '\u{d}') || c == ' ' || c == '\u{85}' || c == '\u{a0}' || c == '\u{1680}'
        || ('\u{2000}' <= c <= '\u{200a}') || c == '\u{2028}' || c == '\u{2029}' || c == '\u{202f}'
        || c == '\u{205f}' || c == '\u{3000}'
}

/// The text with trailing whitespace removed.
pub open spec fn trimmed_end_of(s: Seq<char>) -> Seq<char>
    decreases s.len(),
{
    if s.len() > 0 && is_white_space(s.last()) {
        trimmed_end_of(s.drop_last())
    } else {
        s
    }
}

/// The maximal runs of non-whitespace characters of a text, in order.
pub open spec fn whitespace_fields_of(s: Seq<char>) -> Seq<Seq<char>>
    decreases s.len(),
{
    if s.len() == 0 {
        Seq::empty()
    } else {
        let fields = whitespace_fields_of(s.drop_last());
        if is_white_space(s.last()) {
            fields
        } else if s.len() >= 2 && !is_white_space(s[s.len() - 2]) && fields.len() > 0 {
            fields.update(fields.len() - 1, fields.last().push(s.last()))
        } else {
            fields.push(seq![s.last()])
        }
    }
}

/// Relies on `str::trim_end`: the text without trailing whitespace, a prefix of it.
#[verifier::external_body]
fn trim_end(s: &str) -> (r: String)
    ensures
        r@ == trimmed_end_of(s@),
        r@.len() <= s@.len(),
{
    s.trim_end().to_owned()
}

/// Relies on `str::split_whitespace`: the fields between runs of whitespace.
#[verifier::external_body]
fn split_whitespace(s: &str) -> (r: Vec<String>)
    ensures
        r@.map_values(|f: String| f@) == whitespace_fields_of(s@),
{
    s.split_whitespace().map(|f| f.to_owned()).collect()
}

/// The name of a source's fetcher executable.
pub fn source_command_name(source_name: &str) -> (r: String)
    ensures
        r@ == PLACER_SOURCE_PREFIX@ + source_name@,
{
    let mut r = PLACER_SOURCE_PREFIX.to_owned();
    let n = source_name.unicode_len();
    let mut i: usize = 0;
    while i < n
        invariant
            i <= n == source_name@.len(),
            r@ == PLACER_SOURCE_PREFIX@ + source_name@.subrange(0, i as int),
        decreases n - i,
    {
        push_char(&mut r, source_name.get_char(i));
        i = i + 1;
        assert(r@ =~= PLACER_SOURCE_PREFIX@ + source_name@.subrange(0, i as int));
    }
    assert(source_name@.subrange(0, n as int) =~= source_name@);
    r
}

/// The greeting a fetcher's first line carries, if the line starts with `OK `.
pub open spec fn greeting_of(line: Seq<char>) -> Option<Seq<char>> {
    if line.len() >= 3 && line[0] == 'O' && line[1] == 'K' && line[2] == ' ' {
        Some(trimmed_end_of(line.subrange(3, line.len() as int)))
    } else {
        None
    }
}

/// Check a fetcher's greeting line and return what follows `OK `, without trailing
/// whitespace.
pub fn read_greeting(line: &str) -> (r: Result<String, Error>)
    ensures
        match greeting_of(line@) {
            Some(g) => r matches Ok(s) && s@ == g,
            None => r matches Err(Error::Source { .. }),
        },
{
    let n = line.unicode_len();
    if n < 3 || line.get_char(0) != 'O' || line.get_char(1) != 'K' || line.get_char(2) != ' ' {
        return Err(Error::Source { description: "bad greeting".to_owned() });
    }
    Ok(trim_end(line.substring_char(3, n)))
}

/// The resource-to-pack map of a source's packs; `None` when two packs share a resource.
pub open spec fn resource_index(packs: Seq<(String, String)>) -> Option<Seq<(Seq<char>, Seq<char>)>>
    decreases packs.len(),
{
    if packs.len() == 0 {
        Some(Seq::empty())
    } else {
        match resource_index(packs.drop_last()) {
            None => None,
            Some(t) => {
                let resource = packs.last().1@;
                if exists|i: int| 0 <= i < t.len() && (#[trigger] t[i]).0 == resource {
                    None
                } else {
                    Some(t.push((resource, packs.last().0@)))
                }
            },
        }
    }
}

proof fn lemma_resource_index_fails(packs: Seq<(String, String)>, k: int)
    requires
        0 <= k <= packs.len(),
        resource_index(packs.subrange(0, k)) is None,
    ensures
        resource_index(packs) is None,
    decreases packs.len() - k,
{
    if k == packs.len() {
        assert(packs.subrange(0, k) =~= packs);
    } else {
        assert(packs.subrange(0, k + 1).drop_last() =~= packs.subrange(0, k));
        lemma_resource_index_fails(packs, k + 1);
    }
}

/// What a source knows of its fetcher: its name, greeting, and which pack each requested
/// resource belongs to.
pub struct Source {
    /// Name of the source.
    pub name: String,
    /// The fetcher's greeting.
    pub greeting: String,
    /// Process ID of the fetcher.
    pub pid: u32,
    /// Requested resources and the pack each belongs to.
    pub resources: Vec<(String, String)>,
}

/// A delivery header's length and resource.
pub open spec fn header_of(line: Seq<char>) -> Option<(nat, Seq<char>)> {
    let fields = whitespace_fields_of(line);
    if fields.len() != 2 {
        None
    } else {
        match parsed_decimal(fields[0]) {
            Some(n) => Some((n as nat, fields[1])),
            None => None,
        }
    }
}

/// The value of decimal digits, most significant first.
pub open spec fn decimal_value(s: Seq<char>) -> nat
    decreases s.len(),
{
    if s.len() == 0 {
        0
    } else {
        decimal_value(s.drop_last()) * 10 + (s.last() as nat - '0' as nat) as nat
    }
}

/// All characters are decimal digits.
pub open spec fn all_decimal(s: Seq<char>) -> bool {
    forall|i: int| 0 <= i < s.len() ==> '0' <= #[trigger] s[i] <= '9'
}

/// What parsing a `u32` gives: an optional `+`, then decimal digits, with a value that
/// fits 32 bits.
pub open spec fn parsed_decimal(s: Seq<char>) -> Option<u32> {
    let digits = if s.len() > 0 && s[0] == '+' {
        s.subrange(1, s.len() as int)
    } else {
        s
    };
    if digits.len() > 0 && all_decimal(digits) && decimal_value(digits) <= u32::MAX {
        Some(decimal_value(digits) as u32)
    } else {
        None
    }
}

proof fn lemma_decimal_grows(s: Seq<char>, k: int)
    requires
        0 <= k <= s.len(),
        all_decimal(s),
    ensures
        decimal_value(s.subrange(0, k)) <= decimal_value(s),
    decreases s.len() - k,
{
    if k < s.len() {
        lemma_decimal_grows(s, k + 1);
        assert(s.subrange(0, k + 1).drop_last() =~= s.subrange(0, k));
    } else {
        assert(s.subrange(0, k) =~= s);
    }
}

/// Parse an unsigned 32-bit decimal number.
pub fn parse_decimal(s: &str) -> (r: Option<u32>)
    ensures
        r == parsed_decimal(s@),
{
    let n = s.unicode_len();
    let mut i: usize = 0;
    if n > 0 && s.get_char(0) == '+' {
        i = 1;
    }
    let start = i;
    let ghost digits = s@.subrange(start as int, n as int);
    assert(digits == if s@.len() > 0 && s@[0] == '+' { s@.subrange(1, s@.len() as int) } else { s@ }) by {
        if !(s@.len() > 0 && s@[0] == '+') {
            assert(s@.subrange(0, n as int) =~= s@);
        }
    }
    if start == n {
        return None;
    }
    let mut value: u64 = 0;
    while i < n
        invariant
            start <= i <= n == s@.len(),
            start < n,
            digits == s@.subrange(start as int, n as int),
            digits == if s@.len() > 0 && s@[0] == '+' { s@.subrange(1, s@.len() as int) } else { s@ },
            all_decimal(s@.subrange(start as int, i as int)),
            value as nat == decimal_value(s@.subrange(start as int, i as int)),
            value <= u32::MAX,
        decreases n - i,
    {
        let c = s.get_char(i);
        let ghost prev = s@.subrange(start as int, i as int);
        let ghost next = s@.subrange(start as int, i + 1);
        assert(next.drop_last() =~= prev);
        assert(digits[i - start] == c);
        if !('0' <= c && c <= '9') {
            assert(!all_decimal(digits)) by {
                assert(digits[i - start] == c);
            }
            return None;
        }
        value = value * 10 + (c as u64 - '0' as u64);
        if value > u32::MAX as u64 {
            proof {
                if all_decimal(digits) {
                    assert(digits.subrange(0, i + 1 - start) =~= next);
                    lemma_decimal_grows(digits, (i + 1 - start) as int);
                }
            }
            return None;
        }
        i = i + 1;
        assert(all_decimal(s@.subrange(start as int, i as int))) by {
            assert forall|q: int| 0 <= q < next.len() implies '0' <= #[trigger] next[q] <= '9' by {
                if q < prev.len() {
                    assert(next[q] == prev[q]);
                }
            }
        }
    }
    assert(s@.subrange(start as int, n as int) =~= digits);
    Some(value as u32)
}

impl Source {
    /// Each resource belongs to one pack.
    pub open spec fn wf(&self) -> bool {
        distinct_names(self.resources_view())
    }

    /// The pack-to-resource map, reversed.
    pub open spec fn resources_view(&self) -> Seq<(Seq<char>, Seq<char>)> {
        self.resources@.map_values(|e: (String, String)| (e.0@, e.1@))
    }

    /// A source from its name, the fetcher's greeting and process ID, and its packs
    /// (pack name, resource); two packs may not share a resource.
    pub fn new(name: &str, greeting: String, pid: u32, packs: &Vec<(String, String)>) -> (r: Result<Source, Error>)
        ensures
            match resource_index(packs@) {
                Some(t) => r matches Ok(s) && s.wf() && s.resources_view() == t && s.name@ == name@ && s.greeting == greeting && s.pid == pid,
                None => r matches Err(Error::Config { .. }),
            },
    {
        let mut resources: Vec<(String, String)> = Vec::new();
        let mut i: usize = 0;
        while i < packs.len()
            invariant
                i <= packs@.len(),
                resource_index(packs@.subrange(0, i as int)) == Some(
                    resources@.map_values(|e: (String, String)| (e.0@, e.1@)),
                ),
                distinct_names(resources@.map_values(|e: (String, String)| (e.0@, e.1@))),
            decreases packs@.len() - i,
        {
            assert(packs@.subrange(0, i + 1).drop_last() =~= packs@.subrange(0, i as int));
            let ghost t = resources@.map_values(|e: (String, String)| (e.0@, e.1@));
            let resource = &packs[i].1;
            match position(&resources, resource.as_str()) {
                Some(j) => {
                    assert(t[j as int].0 == resource@);
                    proof {
                        lemma_resource_index_fails(packs@, i + 1);
                    }
                    return Err(Error::Config { description: "packs have duplicate resources".to_owned() });
                },
                None => {
                    assert forall|q: int| 0 <= q < t.len() implies (#[trigger] t[q]).0 != resource@ by {
                        assert(resources@[q].0@ != resource@);
                    }
                },
            }
            proof {
                lemma_distinct_push(t, resource@, packs@[i as int].0@);
            }
            resources.push((resource.clone(), packs[i].0.clone()));
            assert(resources@.map_values(|e: (String, String)| (e.0@, e.1@)) =~= t.push((resource@, packs@[i as int].0@)));
            i = i + 1;
        }
        assert(packs@.subrange(0, packs@.len() as int) =~= packs@);
        Ok(Source { name: name.to_owned(), greeting, pid, resources })
    }

    /// Check a delivery header: two fields, a length that fits a pack, and a resource.
    pub fn parse_header(&self, line: &str) -> (r: Result<(u32, String), Error>)
        ensures
            match header_of(line@) {
                Some((n, res)) => if n <= MAX_PACK_SIZE {
                    r matches Ok((len, s)) && len == n && s@ == res
                } else {
                    r matches Err(Error::Source { .. })
                },
                None => r matches Err(Error::Source { .. }),
            },
    {
        let fields = split_whitespace(line);
        assert(fields@.map_values(|f: String| f@).len() == fields@.len());
        if fields.len() != 2 {
            return Err(Error::Source { description: "bad pack header".to_owned() });
        }
        assert(fields@.map_values(|f: String| f@)[0] == fields@[0]@);
        assert(fields@.map_values(|f: String| f@)[1] == fields@[1]@);
        let length = match parse_decimal(fields[0].as_str()) {
            Some(n) => n,
            None => return Err(Error::Source { description: "bad length in pack header".to_owned() }),
        };
        if length as usize > MAX_PACK_SIZE {
            return Err(Error::Source { description: "resource too large".to_owned() });
        }
        Ok((length, fields[1].clone()))
    }

    /// The pack a delivered resource belongs to, once its end-of-record line is checked.
    pub fn finish_delivery(&self, resource: &str, marker: &str) -> (r: Result<String, Error>)
        requires
            self.wf(),
        ensures
            marker@ != seq!['\n'] ==> r matches Err(Error::Source { .. }),
            marker@ == seq!['\n'] ==> match lookup(self.resources_view(), resource@) {
                Some(label) => r matches Ok(l) && l@ == label,
                None => r matches Err(Error::Source { .. }),
            },
    {
        if marker.unicode_len() != 1 || marker.get_char(0) != '\n' {
            proof {
                if marker@.len() == 1 {
                    assert(marker@ != seq!['\n']);
                }
            }
            return Err(Error::Source { description: "bad EOF marker".to_owned() });
        }
        assert(marker@ =~= seq!['\n']);
        self.label_for(resource)
    }

    /// The pack name of a requested resource.
    pub fn label_for(&self, resource: &str) -> (r: Result<String, Error>)
        requires
            self.wf(),
        ensures
            match lookup(self.resources_view(), resource@) {
                Some(label) => r matches Ok(l) && l@ == label,
                None => r matches Err(Error::Source { .. }),
            },
    {
        match position(&self.resources, resource) {
            Some(i) => {
                proof {
                    lemma_lookup_at(self.resources_view(), i as int);
                }
                Ok(self.resources[i].1.clone())
            },
            None => {
                assert forall|q: int| 0 <= q < self.resources_view().len() implies (#[trigger] self.resources_view()[q]).0 != resource@ by {
                    assert(self.resources@[q].0@ != resource@);
                }
                Err(Error::Source { description: "resource was not requested".to_owned() })
            },
        }
    }
}

// ---------------------------------------------------------------------------
// The HTTP fetcher's change detection
/// SHA-256 digest of a fetched resource.
pub struct ResourceHash {
    bytes: Vec<u8>,
}

impl ResourceHash {
    /// The digest bytes.
    pub closed spec fn view(&self) -> Seq<u8> {
        self.bytes@
    }

    /// The SHA-256 digest of the bytes.
    pub fn digest(bytes: &[u8]) -> (r: ResourceHash)
        ensures
            r.view() == sha256_of(bytes@),
    {
        ResourceHash { bytes: sha256(bytes) }
    }
}

/// What a fetcher remembers of one resource: its URL, last ETag and last body digest.
pub struct Resource {
    /// ETag of the last response.
    pub etag: Option<String>,
    /// URL of the resource.
    pub url: String,
    /// Digest of the last body delivered.
    pub sha256: Option<Vec<u8>>,
}

/// HTTP status "OK".
pub const STATUS_OK: u16 = 200;

/// HTTP status "Not Modified".
pub const STATUS_NOT_MODIFIED: u16 = 304;

impl Resource {
    /// A resource not yet fetched.
    pub fn new(url: &str) -> (r: Resource)
        ensures
            r.url@ == url@,
            r.etag is None,
            r.sha256 is None,
    {
        Resource { etag: None, url: url.to_owned(), sha256: None }
    }

    /// Take in a response: its status, ETag header, and the digest of its body. Returns
    /// whether the body is new and must be delivered.
    pub fn handle_response(&mut self, status: u16, etag: Option<String>, digest: ResourceHash) -> (r: Result<bool, Error>)
        ensures
            final(self).url == old(self).url,
            status == STATUS_NOT_MODIFIED ==> r == Ok::<bool, Error>(false) && final(self).etag == old(self).etag && final(self).sha256 == old(self).sha256,
            status == STATUS_OK ==> {
                &&& final(self).etag == (if etag is Some { etag } else { old(self).etag })
                &&& (final(self).sha256 matches Some(h) && h@ == digest.view())
                &&& r == Ok::<bool, Error>(!(old(self).sha256 matches Some(h) && h@ == digest.view()))
            },
            status != STATUS_OK && status != STATUS_NOT_MODIFIED ==> (r matches Err(Error::Io { .. })) && final(self).etag == old(self).etag && final(self).sha256 == old(self).sha256,
    {
        if status == STATUS_NOT_MODIFIED {
            return Ok(false);
        }
        if status != STATUS_OK {
            return Err(Error::Io { description: "unexpected status code".to_owned() });
        }
        if etag.is_some() {
            self.etag = etag;
        }
        let unchanged = match &self.sha256 {
            Some(h) => same_bytes(h.as_slice(), digest.bytes.as_slice()),
            None => false,
        };
        self.sha256 = Some(digest.bytes);
        Ok(!unchanged)
    }
}

fn same_bytes(a: &[u8], b: &[u8]) -> (r: bool)
    ensures
        r == (a@ == b@),
{
    if a.len() != b.len() {
        return false;
    }
    let mut i: usize = 0;
    while i < a.len()
        invariant
            i <= a@.len() == b@.len(),
            forall|j: int| 0 <= j < i ==> a@[j] == b@[j],
        decreases a@.len() - i,
    {
        if a[i] != b[i] {
            return false;
        }
        i = i + 1;
    }
    assert(a@ =~= b@);
    true
}

} // verus!

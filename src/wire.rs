//! The length-delimited binary encoding of packs: varints, and fields that are a key
//! byte (`tag << 3 | 2`), a varint length and that many bytes.
use vstd::prelude::*;

verus! {

/// Longest varint accepted, in bytes (lengths below 2^28).
pub const VARINT_MAX_BYTES: u32 = 4;

/// Largest length a field may have.
pub const MAX_FIELD_LENGTH: u32 = 0x0fff_ffff;

/// The varint encoding of `n`: seven bits per byte, least significant first, the high
/// bit set on every byte but the last.
pub open spec fn varint(n: nat) -> Seq<u8>
    decreases n,
{
    if n < 128 {
        seq![n as u8]
    } else {
        seq![(n % 128 + 128) as u8] + varint(n / 128)
    }
}

/// The varint at `pos`, of at most `budget` bytes: its value and the position after it.
pub open spec fn read_varint(b: Seq<u8>, pos: int, budget: nat) -> Option<(nat, int)>
    decreases budget,
{
    if budget == 0 || pos < 0 || pos >= b.len() {
        None
    } else if b[pos] < 128 {
        Some((b[pos] as nat, pos + 1))
    } else {
        match read_varint(b, pos + 1, (budget - 1) as nat) {
            Some((v, e)) => Some(((b[pos] - 128) as nat + 128 * v, e)),
            None => None,
        }
    }
}

/// A length-delimited field.
pub open spec fn field(tag: u8, payload: Seq<u8>) -> Seq<u8> {
    seq![(tag * 8 + 2) as u8] + varint(payload.len()) + payload
}

/// The field with `tag` at `pos`: where its payload starts and ends.
pub open spec fn read_field(b: Seq<u8>, pos: int, tag: u8) -> Option<(int, int)> {
    if 0 <= pos < b.len() && b[pos] == (tag * 8 + 2) as u8 {
        match read_varint(b, pos + 1, VARINT_MAX_BYTES as nat) {
            Some((len, s)) => if s + len <= b.len() {
                Some((s, s + len))
            } else {
                None
            },
            None => None,
        }
    } else {
        None
    }
}

/// Read the varint at `pos`.
pub fn read_varint_at(b: &[u8], pos: usize, budget: u32) -> (r: Option<(u32, usize)>)
    requires
        budget <= VARINT_MAX_BYTES,
    ensures
        match read_varint(b@, pos as int, budget as nat) {
            Some((v, e)) => r == Some((v as u32, e as usize)) && v <= MAX_FIELD_LENGTH && pos < e <= b@.len(),
            None => r is None,
        },
    decreases budget,
{
    if budget == 0 || pos >= b.len() {
        return None;
    }
    let byte = b[pos];
    if byte < 128 {
        return Some((byte as u32, pos + 1));
    }
    match read_varint_at(b, pos + 1, budget - 1) {
        Some((v, e)) => {
            proof {
                lemma_varint_budget_bound(b@, pos + 1, (budget - 1) as nat);
            }
            Some(((byte - 128) as u32 + 128 * v, e))
        },
        None => None,
    }
}

proof fn lemma_varint_budget_bound(b: Seq<u8>, pos: int, budget: nat)
    requires
        budget <= 3,
    ensures
        read_varint(b, pos, budget) matches Some((v, e)) ==> v < 0x20_0000 && (budget <= 2 ==> v < 0x4000) && (budget <= 1 ==> v < 128),
    decreases budget,
{
    if budget > 0 && 0 <= pos < b.len() && b[pos] >= 128 {
        lemma_varint_budget_bound(b, pos + 1, (budget - 1) as nat);
    }
}

/// Read the field with `tag` at `pos`.
pub fn read_field_at(b: &[u8], pos: usize, tag: u8) -> (r: Option<(usize, usize)>)
    requires
        tag < 16,
    ensures
        match read_field(b@, pos as int, tag) {
            Some((s, e)) => r == Some((s as usize, e as usize)) && pos < s <= e <= b@.len(),
            None => r is None,
        },
{
    if pos >= b.len() || b[pos] != tag * 8 + 2 {
        return None;
    }
    match read_varint_at(b, pos + 1, VARINT_MAX_BYTES) {
        Some((len, s)) => {
            if len as usize <= b.len() - s {
                Some((s, s + len as usize))
            } else {
                None
            }
        },
        None => None,
    }
}

/// Append the varint encoding of `n`.
pub fn write_varint(out: &mut Vec<u8>, n: u32)
    ensures
        final(out)@ == old(out)@ + varint(n as nat),
    decreases n,
{
    if n < 128 {
        out.push(n as u8);
    } else {
        out.push((n % 128 + 128) as u8);
        write_varint(out, n / 128);
        assert(final(out)@ =~= old(out)@ + varint(n as nat));
    }
}

/// Append a length-delimited field.
pub fn write_field(out: &mut Vec<u8>, tag: u8, payload: &[u8])
    requires
        tag < 16,
        payload@.len() <= MAX_FIELD_LENGTH,
    ensures
        final(out)@ == old(out)@ + field(tag, payload@),
{
    out.push(tag * 8 + 2);
    write_varint(out, payload.len() as u32);
    let mut i: usize = 0;
    let ghost start = out@;
    while i < payload.len()
        invariant
            i <= payload@.len(),
            out@ == start + payload@.subrange(0, i as int),
        decreases payload@.len() - i,
    {
        out.push(payload[i]);
        i = i + 1;
        assert(out@ =~= start + payload@.subrange(0, i as int));
    }
    assert(payload@.subrange(0, payload@.len() as int) =~= payload@);
    assert(out@ =~= old(out)@ + field(tag, payload@));
}

/// Copy the bytes between two positions.
pub fn slice_bytes(b: &[u8], start: usize, end: usize) -> (r: Vec<u8>)
    requires
        start <= end <= b@.len(),
    ensures
        r@ == b@.subrange(start as int, end as int),
{
    let mut r: Vec<u8> = Vec::new();
    let mut i: usize = start;
    while i < end
        invariant
            start <= i <= end <= b@.len(),
            r@ == b@.subrange(start as int, i as int),
        decreases end - i,
    {
        r.push(b[i]);
        i = i + 1;
        assert(r@ =~= b@.subrange(start as int, i as int));
    }
    r
}

// ---------------------------------------------------------------------------
/// Varints of lengths below 2^28 take at most four bytes.
pub proof fn lemma_varint_len(n: nat)
    ensures
        varint(n).len() >= 1,
        n < 0x1000_0000 ==> varint(n).len() <= 4,
        n < 0x20_0000 ==> varint(n).len() <= 3,
        n < 0x4000 ==> varint(n).len() <= 2,
    decreases n,
{
    if n >= 128 {
        lemma_varint_len(n / 128);
    }
}

/// A varint followed by anything reads back as its value.
pub proof fn lemma_read_varint(n: nat, b: Seq<u8>, pos: int, budget: nat)
    requires
        0 <= pos,
        pos + varint(n).len() <= b.len(),
        b.subrange(pos, pos + varint(n).len()) == varint(n),
        n < 0x1000_0000,
        budget >= 4,
    ensures
        read_varint(b, pos, budget) == Some((n, pos + varint(n).len())),
        varint(n).len() <= 4,
    decreases n,
{
    if n < 128 {
        assert(b[pos] == b.subrange(pos, pos + 1)[0]);
    } else {
        let rest = varint(n / 128);
        assert(varint(n) == seq![(n % 128 + 128) as u8] + rest);
        assert(b[pos] == varint(n)[0]);
        assert(b.subrange(pos + 1, pos + 1 + rest.len()) =~= varint(n).subrange(1, varint(n).len() as int));
        assert(varint(n).subrange(1, varint(n).len() as int) =~= rest);
        lemma_read_varint_small(n / 128, b, pos + 1, (budget - 1) as nat);
    }
}

proof fn lemma_read_varint_small(n: nat, b: Seq<u8>, pos: int, budget: nat)
    requires
        0 <= pos,
        pos + varint(n).len() <= b.len(),
        b.subrange(pos, pos + varint(n).len()) == varint(n),
        n < 0x20_0000,
        budget >= 3,
    ensures
        read_varint(b, pos, budget) == Some((n, pos + varint(n).len())),
        varint(n).len() <= 3,
    decreases n,
{
    if n < 128 {
        assert(b[pos] == b.subrange(pos, pos + 1)[0]);
    } else {
        let rest = varint(n / 128);
        assert(b[pos] == varint(n)[0]);
        assert(b.subrange(pos + 1, pos + 1 + rest.len()) =~= varint(n).subrange(1, varint(n).len() as int));
        assert(varint(n).subrange(1, varint(n).len() as int) =~= rest);
        lemma_read_varint_tiny(n / 128, b, pos + 1, (budget - 1) as nat);
    }
}

proof fn lemma_read_varint_tiny(n: nat, b: Seq<u8>, pos: int, budget: nat)
    requires
        0 <= pos,
        pos + varint(n).len() <= b.len(),
        b.subrange(pos, pos + varint(n).len()) == varint(n),
        n < 0x4000,
        budget >= 2,
    ensures
        read_varint(b, pos, budget) == Some((n, pos + varint(n).len())),
        varint(n).len() <= 2,
    decreases n,
{
    if n < 128 {
        assert(b[pos] == b.subrange(pos, pos + 1)[0]);
    } else {
        let rest = varint(n / 128);
        assert(b[pos] == varint(n)[0]);
        assert(n / 128 < 128);
        assert(rest == seq![(n / 128) as u8]);
        assert(varint(n) == seq![(n % 128 + 128) as u8] + rest);
        assert(b[pos + 1] == b.subrange(pos, pos + varint(n).len())[1]);
        assert(b[pos + 1] == (n / 128) as u8);
        assert(read_varint(b, pos + 1, (budget - 1) as nat) == Some(((n / 128) as nat, pos + 2)));
        assert((n % 128 + 128) as u8 - 128 + 128 * (n / 128) == n);
    }
}

/// A field followed by anything reads back as its payload.
pub proof fn lemma_read_field(tag: u8, payload: Seq<u8>, b: Seq<u8>, pos: int)
    requires
        tag < 16,
        payload.len() < 0x1000_0000,
        0 <= pos,
        pos + field(tag, payload).len() <= b.len(),
        b.subrange(pos, pos + field(tag, payload).len()) == field(tag, payload),
    ensures
        read_field(b, pos, tag) == Some((pos + 1 + varint(payload.len()).len(), pos + field(tag, payload).len())),
        b.subrange(pos + 1 + varint(payload.len()).len(), pos + field(tag, payload).len()) == payload,
{
    let f = field(tag, payload);
    let v = varint(payload.len());
    assert(b[pos] == f[0]);
    assert(b.subrange(pos + 1, pos + 1 + v.len()) =~= f.subrange(1, 1 + v.len() as int));
    assert(f.subrange(1, 1 + v.len() as int) =~= v);
    lemma_read_varint(payload.len(), b, pos + 1, VARINT_MAX_BYTES as nat);
    assert(b.subrange(pos + 1 + v.len(), pos + f.len()) =~= f.subrange(1 + v.len() as int, f.len() as int));
    assert(f.subrange(1 + v.len() as int, f.len() as int) =~= payload);
}

} // verus!

use vstd::bytes::*;
use vstd::prelude::*;
use vstd::slice::slice_subrange;

use crate::data::DecodeError;
use crate::data::DocumentId;
use crate::data::Entry;
use crate::data::FieldId;
use crate::data::Number;
use crate::store::distinct_keys;
use crate::store::map_of_entries;
use crate::store::RankedMap;

verus! {

/// The number of bytes of one encoded entry: an 8-byte document id, a 2-byte
/// field id, a 4-byte number tag and an 8-byte number payload, each little-endian.
pub const ENTRY_LEN: usize = 22;

/// The tag under which each `Number` variant is encoded.
pub open spec fn number_tag(n: Number) -> u32 {
    match n {
        Number::Unsigned(_) => 0u32,
        Number::Signed(_) => 1u32,
        Number::Float(_) => 2u32,
    }
}

/// The two's-complement bit pattern of a signed value, as an unsigned payload.
pub open spec fn signed_bits(v: i64) -> u64 {
    if v >= 0 {
        v as u64
    } else {
        (v + 0x1_0000_0000_0000_0000) as u64
    }
}

/// The signed value read back from a two's-complement payload.
pub open spec fn signed_of_bits(b: u64) -> i64 {
    if b < 0x8000_0000_0000_0000 {
        b as i64
    } else {
        (b - 0x1_0000_0000_0000_0000) as i64
    }
}

/// The unsigned payload under which a `Number` is encoded.
pub open spec fn number_payload(n: Number) -> u64 {
    match n {
        Number::Unsigned(u) => u,
        Number::Signed(v) => signed_bits(v),
        Number::Float(b) => b,
    }
}

/// The `Number` read back from a tag and a payload; `None` on an unknown tag.
pub open spec fn number_of_parts(tag: u32, payload: u64) -> Option<Number> {
    if tag == 0 {
        Some(Number::Unsigned(payload))
    } else if tag == 1 {
        Some(Number::Signed(signed_of_bits(payload)))
    } else if tag == 2 {
        Some(Number::Float(payload))
    } else {
        None
    }
}

/// The 22-byte layout of one entry.
pub open spec fn spec_encode_entry(e: Entry) -> Seq<u8> {
    spec_u64_to_le_bytes(e.0.0.0) + spec_u16_to_le_bytes(e.0.1.0) + spec_u32_to_le_bytes(
        number_tag(e.1),
    ) + spec_u64_to_le_bytes(number_payload(e.1))
}

/// The listed entries, encoded one after the other.
pub open spec fn spec_encode_entries(s: Seq<Entry>) -> Seq<u8>
    decreases s.len(),
{
    if s.len() == 0 {
        Seq::empty()
    } else {
        spec_encode_entry(s[0]) + spec_encode_entries(s.drop_first())
    }
}

/// The full binary layout: the entry count as a little-endian u64, then each entry.
pub open spec fn spec_encode(s: Seq<Entry>) -> Seq<u8>
    recommends
        s.len() <= u64::MAX,
{
    spec_u64_to_le_bytes(s.len() as u64) + spec_encode_entries(s)
}

/// One entry read back from a 22-byte block; `None` on an unknown number tag.
pub open spec fn spec_decode_entry(b: Seq<u8>) -> Option<Entry>
    recommends
        b.len() == ENTRY_LEN,
{
    let doc = spec_u64_from_le_bytes(b.subrange(0, 8));
    let field = spec_u16_from_le_bytes(b.subrange(8, 10));
    let tag = spec_u32_from_le_bytes(b.subrange(10, 14));
    let payload = spec_u64_from_le_bytes(b.subrange(14, 22));
    match number_of_parts(tag, payload) {
        Some(n) => Some(((DocumentId(doc), FieldId(field)), n)),
        None => None,
    }
}

pub open spec fn some_entries(s: Seq<Entry>) -> Option<Seq<Entry>> {
    Some(s)
}

pub open spec fn none_entries() -> Option<Seq<Entry>> {
    None
}

pub open spec fn decode_ok(s: Seq<Entry>) -> Result<Seq<Entry>, DecodeError> {
    Ok(s)
}

pub open spec fn decode_err(e: DecodeError) -> Result<Seq<Entry>, DecodeError> {
    Err(e)
}

/// `n` entries read back from consecutive 22-byte blocks.
pub open spec fn spec_decode_entries(b: Seq<u8>, n: nat) -> Option<Seq<Entry>>
    recommends
        b.len() == n * 22,
    decreases n,
{
    if n == 0 {
        Some(Seq::empty())
    } else {
        match spec_decode_entry(b.subrange(0, 22)) {
            Some(e) => match spec_decode_entries(b.skip(22), (n - 1) as nat) {
                Some(rest) => Some(seq![e] + rest),
                None => None,
            },
            None => None,
        }
    }
}

/// What a byte stream decodes to: the entries of the encoding at its head, or
/// the exact reason the stream is rejected. The encoding is self-contained:
/// only the declared count of entries is read, and whatever follows them is
/// left alone, so an encoding can sit at the head of a larger stream.
pub open spec fn spec_decode(b: Seq<u8>) -> Result<Seq<Entry>, DecodeError> {
    if b.len() < 8 {
        Err(DecodeError::Truncated)
    } else {
        let count = spec_u64_from_le_bytes(b.subrange(0, 8)) as int;
        if b.len() < 8 + count * 22 {
            Err(DecodeError::Truncated)
        } else {
            match spec_decode_entries(b.subrange(8, 8 + count * 22), count as nat) {
                Some(s) => Ok(s),
                None => Err(DecodeError::InvalidNumberTag),
            }
        }
    }
}

/// A number survives the trip through its tag and payload.
pub proof fn lemma_number_parts_round_trip(n: Number)
    ensures
        number_of_parts(number_tag(n), number_payload(n)) == Some(n),
{
}

/// One entry survives the trip through its 22-byte block.
pub proof fn lemma_entry_round_trip(e: Entry)
    ensures
        spec_encode_entry(e).len() == 22,
        spec_decode_entry(spec_encode_entry(e)) == Some(e),
{
    lemma_auto_spec_u64_to_from_le_bytes();
    lemma_auto_spec_u32_to_from_le_bytes();
    lemma_auto_spec_u16_to_from_le_bytes();
    let b = spec_encode_entry(e);
    assert(b.subrange(0, 8) =~= spec_u64_to_le_bytes(e.0.0.0));
    assert(b.subrange(8, 10) =~= spec_u16_to_le_bytes(e.0.1.0));
    assert(b.subrange(10, 14) =~= spec_u32_to_le_bytes(number_tag(e.1)));
    assert(b.subrange(14, 22) =~= spec_u64_to_le_bytes(number_payload(e.1)));
    lemma_number_parts_round_trip(e.1);
}

/// Encoding entry by entry is the same as encoding the grown listing.
pub proof fn lemma_encode_entries_push(s: Seq<Entry>, e: Entry)
    ensures
        spec_encode_entries(s.push(e)) == spec_encode_entries(s) + spec_encode_entry(e),
    decreases s.len(),
{
    if s.len() == 0 {
        assert(s.push(e).drop_first() =~= Seq::<Entry>::empty());
        assert(s.push(e)[0] == e);
        assert(spec_encode_entries(s) == Seq::<u8>::empty());
        assert(spec_encode_entries(s.push(e)) == spec_encode_entry(e) + spec_encode_entries(
            Seq::<Entry>::empty(),
        ));
        assert(spec_encode_entries(s.push(e)) =~= spec_encode_entries(s) + spec_encode_entry(e));
    } else {
        assert(s.push(e).drop_first() =~= s.drop_first().push(e));
        assert(s.push(e)[0] == s[0]);
        lemma_encode_entries_push(s.drop_first(), e);
        assert(spec_encode_entries(s.push(e)) == spec_encode_entry(s[0]) + spec_encode_entries(
            s.drop_first().push(e),
        ));
        assert(spec_encode_entries(s.push(e)) =~= spec_encode_entries(s) + spec_encode_entry(e));
    }
}

/// A listing survives the trip through its encoded blocks.
pub proof fn lemma_entries_round_trip(s: Seq<Entry>)
    ensures
        spec_encode_entries(s).len() == 22 * s.len(),
        spec_decode_entries(spec_encode_entries(s), s.len() as nat) == some_entries(s),
    decreases s.len(),
{
    if s.len() == 0 {
        assert(s =~= Seq::<Entry>::empty());
    } else {
        lemma_entry_round_trip(s[0]);
        lemma_entries_round_trip(s.drop_first());
        let b = spec_encode_entries(s);
        assert(b.subrange(0, 22) =~= spec_encode_entry(s[0]));
        assert(b.skip(22) =~= spec_encode_entries(s.drop_first()));
        assert(seq![s[0]] + s.drop_first() =~= s);
    }
}

/// Law: any encoded listing decodes back to exactly the entries that were
/// encoded. Together with the contracts of `write_to_bin` and `read_from_bin`
/// this makes the binary format a lossless round trip for the store's content.
pub proof fn lemma_bin_round_trip(s: Seq<Entry>)
    requires
        s.len() <= u64::MAX,
    ensures
        spec_decode(spec_encode(s)) == decode_ok(s),
{
    lemma_auto_spec_u64_to_from_le_bytes();
    lemma_entries_round_trip(s);
    let b = spec_encode(s);
    assert(b.subrange(0, 8) =~= spec_u64_to_le_bytes(s.len() as u64));
    assert(spec_u64_from_le_bytes(b.subrange(0, 8)) == s.len() as u64);
    assert(b.subrange(8, 8 + 22 * (s.len() as int)) =~= spec_encode_entries(s));
}

/// Law: a strict prefix of an encoded stream never decodes; it is reported as
/// truncated, whether the cut falls inside the count or inside the entries.
pub proof fn lemma_truncated_encoding_fails(s: Seq<Entry>, n: int)
    requires
        s.len() <= u64::MAX,
        0 <= n < spec_encode(s).len(),
    ensures
        spec_decode(spec_encode(s).take(n)) == decode_err(DecodeError::Truncated),
{
    lemma_auto_spec_u64_to_from_le_bytes();
    lemma_entries_round_trip(s);
    let b = spec_encode(s);
    let p = b.take(n);
    if n >= 8 {
        assert(p.subrange(0, 8) =~= b.subrange(0, 8));
        assert(b.subrange(0, 8) =~= spec_u64_to_le_bytes(s.len() as u64));
        assert(p.len() < 8 + 22 * s.len());
    }
}

/// One step of `spec_decode_entries`, spelled out for the decoding loop.
proof fn lemma_decode_entries_step(b: Seq<u8>, n: nat)
    requires
        n > 0,
    ensures
        spec_decode_entries(b, n) == (match spec_decode_entry(b.subrange(0, 22)) {
            Some(e) => (match spec_decode_entries(b.skip(22), (n - 1) as nat) {
                Some(rest) => some_entries(seq![e] + rest),
                None => none_entries(),
            }),
            None => none_entries(),
        }),
{
}

fn signed_to_bits(v: i64) -> (b: u64)
    ensures
        b == signed_bits(v),
{
    if v >= 0 {
        v as u64
    } else {
        let t: u64 = (-(v + 1)) as u64;
        u64::MAX - t
    }
}

fn signed_from_bits(b: u64) -> (v: i64)
    ensures
        v == signed_of_bits(b),
{
    if b < 0x8000_0000_0000_0000 {
        b as i64
    } else {
        let t: u64 = u64::MAX - b;
        -(t as i64) - 1
    }
}

/// Appends the 22-byte block of one entry.
fn push_entry(out: &mut Vec<u8>, e: Entry)
    ensures
        final(out)@ == old(out)@ + spec_encode_entry(e),
{
    let ((doc, field), n) = e;
    let mut b1 = u64_to_le_bytes(doc.0);
    out.append(&mut b1);
    let mut b2 = u16_to_le_bytes(field.0);
    out.append(&mut b2);
    let tag: u32 = match n {
        Number::Unsigned(_) => 0,
        Number::Signed(_) => 1,
        Number::Float(_) => 2,
    };
    let mut b3 = u32_to_le_bytes(tag);
    out.append(&mut b3);
    let payload: u64 = match n {
        Number::Unsigned(u) => u,
        Number::Signed(v) => signed_to_bits(v),
        Number::Float(bits) => bits,
    };
    let mut b4 = u64_to_le_bytes(payload);
    out.append(&mut b4);
    proof {
        assert(final(out)@ =~= old(out)@ + spec_encode_entry(e));
    }
}

/// Encodes a listing of entries into the compact binary layout.
pub fn encode_entries(entries: &Vec<Entry>) -> (out: Vec<u8>)
    ensures
        out@ == spec_encode(entries@),
{
    let mut out = u64_to_le_bytes(entries.len() as u64);
    let n = entries.len();
    let mut i: usize = 0;
    while i < n
        invariant
            n == entries@.len(),
            i <= n,
            out@ == spec_u64_to_le_bytes(entries@.len() as u64) + spec_encode_entries(
                entries@.take(i as int),
            ),
        decreases n - i,
    {
        let e = entries[i];
        push_entry(&mut out, e);
        proof {
            assert(entries@.take(i as int).push(entries@[i as int]) =~= entries@.take(
                (i + 1) as int,
            ));
            lemma_encode_entries_push(entries@.take(i as int), entries@[i as int]);
            assert(out@ =~= spec_u64_to_le_bytes(entries@.len() as u64) + spec_encode_entries(
                entries@.take((i + 1) as int),
            ));
        }
        i = i + 1;
    }
    proof {
        assert(entries@.take(n as int) =~= entries@);
    }
    out
}

/// Reads one entry from the 22-byte block starting at `off`.
fn parse_entry(bytes: &[u8], off: usize) -> (r: Result<Entry, DecodeError>)
    requires
        off + 22 <= bytes@.len(),
        bytes@.len() <= usize::MAX,
    ensures
        (match r {
            Ok(e) => spec_decode_entry(bytes@.subrange(off as int, off as int + 22)) == Some(e),
            Err(err) => {
                &&& spec_decode_entry(bytes@.subrange(off as int, off as int + 22)) is None
                &&& err == DecodeError::InvalidNumberTag
            },
        }),
{
    let doc = u64_from_le_bytes(slice_subrange(bytes, off, off + 8));
    let field = u16_from_le_bytes(slice_subrange(bytes, off + 8, off + 10));
    let tag = u32_from_le_bytes(slice_subrange(bytes, off + 10, off + 14));
    let payload = u64_from_le_bytes(slice_subrange(bytes, off + 14, off + 22));
    proof {
        let b = bytes@.subrange(off as int, off as int + 22);
        assert(bytes@.subrange(off as int, off as int + 8) =~= b.subrange(0, 8));
        assert(bytes@.subrange(off as int + 8, off as int + 10) =~= b.subrange(8, 10));
        assert(bytes@.subrange(off as int + 10, off as int + 14) =~= b.subrange(10, 14));
        assert(bytes@.subrange(off as int + 14, off as int + 22) =~= b.subrange(14, 22));
    }
    if tag == 0 {
        Ok(((DocumentId(doc), FieldId(field)), Number::Unsigned(payload)))
    } else if tag == 1 {
        Ok(((DocumentId(doc), FieldId(field)), Number::Signed(signed_from_bits(payload))))
    } else if tag == 2 {
        Ok(((DocumentId(doc), FieldId(field)), Number::Float(payload)))
    } else {
        Err(DecodeError::InvalidNumberTag)
    }
}

/// Decodes the compact binary encoding at the head of a stream into its listed
/// entries; whatever follows the declared entries is left alone.
#[verifier::loop_isolation(false)]
pub fn decode_entries(bytes: &[u8]) -> (r: Result<Vec<Entry>, DecodeError>)
    ensures
        (match r {
            Ok(v) => spec_decode(bytes@) == decode_ok(v@),
            Err(e) => spec_decode(bytes@) == decode_err(e),
        }),
{
    if bytes.len() < 8 {
        return Err(DecodeError::Truncated);
    }
    let count64 = u64_from_le_bytes(slice_subrange(bytes, 0, 8));
    let body_len: usize = bytes.len() - 8;
    if count64 > u64::MAX / 22 {
        return Err(DecodeError::Truncated);
    }
    let need: u64 = count64 * 22;
    if (body_len as u64) < need {
        return Err(DecodeError::Truncated);
    }
    let n: usize = count64 as usize;
    let ghost region = bytes@.subrange(8, 8 + 22 * (n as int));
    let mut v: Vec<Entry> = Vec::new();
    let mut i: usize = 0;
    proof {
        assert(region.skip(22 * (0 as int)) =~= region);
        assert(v@ + spec_decode_entries(region, n as nat)->Some_0 =~= spec_decode_entries(
            region,
            n as nat,
        )->Some_0);
    }
    while i < n
        invariant
            i <= n,
            (match spec_decode_entries(region.skip(22 * (i as int)), (n - i) as nat) {
                Some(rest) => spec_decode_entries(region, n as nat) == some_entries(v@ + rest),
                None => spec_decode_entries(region, n as nat) is None,
            }),
        decreases n - i,
    {
        let off: usize = 8 + 22 * i;
        proof {
            let rem = region.skip(22 * (i as int));
            lemma_decode_entries_step(rem, (n - i) as nat);
            assert(rem.subrange(0, 22) =~= bytes@.subrange(off as int, off as int + 22));
            assert(rem.skip(22) =~= region.skip(22 * ((i + 1) as int)));
        }
        match parse_entry(bytes, off) {
            Ok(e) => {
                proof {
                    let rem2 = region.skip(22 * ((i + 1) as int));
                    if spec_decode_entries(rem2, (n - i - 1) as nat) is Some {
                        let rest2 = spec_decode_entries(rem2, (n - i - 1) as nat)->Some_0;
                        assert(v@.push(e) + rest2 =~= v@ + (seq![e] + rest2));
                    }
                }
                v.push(e);
            },
            Err(err) => {
                proof {
                    assert(spec_decode_entries(region, n as nat) is None);
                    assert(spec_decode(bytes@) == decode_err(DecodeError::InvalidNumberTag));
                }
                return Err(err);
            },
        }
        i = i + 1;
    }
    proof {
        assert(region.skip(22 * (n as int)).len() == 0);
        assert(v@ + Seq::<Entry>::empty() =~= v@);
    }
    Ok(v)
}

/// The whole byte length of the encoding whose count header begins the given
/// bytes, if that length fits the machine. A stream reader uses it to take
/// exactly one encoded store out of a larger stream, leaving the rest unread.
pub fn encoded_len_of_header(header: &[u8]) -> (r: Option<usize>)
    ensures
        (match r {
            Some(l) => header@.len() >= 8 && l == 8 + 22 * (spec_u64_from_le_bytes(
                header@.subrange(0, 8),
            ) as int),
            None => header@.len() < 8 || 8 + 22 * (spec_u64_from_le_bytes(
                header@.subrange(0, 8),
            ) as int) > usize::MAX,
        }),
{
    if header.len() < 8 {
        return None;
    }
    let count = u64_from_le_bytes(slice_subrange(header, 0, 8));
    let cap: usize = (usize::MAX - 8) / 22;
    proof {
        vstd::arithmetic::div_mod::lemma_fundamental_div_mod(usize::MAX - 8, 22);
        vstd::arithmetic::div_mod::lemma_mod_bound(usize::MAX - 8, 22);
    }
    if count > (cap as u64) {
        return None;
    }
    Some(8 + 22 * (count as usize))
}

impl RankedMap {
    /// Serializes the current content into the compact binary layout. The order
    /// of the entries inside the stream is unspecified; the stream always lists
    /// each stored pair exactly once under the declared count.
    pub fn write_to_bin(&self) -> (out: Vec<u8>)
        ensures
            exists|s: Seq<Entry>|
                out@ == #[trigger] spec_encode(s) && distinct_keys(s) && map_of_entries(s) == self@
                    && s.len() == self@.len(),
    {
        let entries = self.to_entries();
        let out = encode_entries(&entries);
        proof {
            assert(out@ == spec_encode(entries@) && distinct_keys(entries@) && map_of_entries(
                entries@,
            ) == self@ && entries@.len() == self@.len());
        }
        out
    }

    /// Reconstructs a store from the compact binary encoding at the head of the
    /// given bytes. The declared entries must all be present and parse; bytes
    /// after them are ignored, so the encoding can sit at the head of a larger
    /// stream. A later entry for the same key wins over an earlier one.
    pub fn read_from_bin(bytes: &[u8]) -> (r: Result<RankedMap, DecodeError>)
        ensures
            (match r {
                Ok(m) => spec_decode(bytes@) is Ok && m@ == map_of_entries(
                    spec_decode(bytes@)->Ok_0,
                ) && m@.dom().finite(),
                Err(e) => spec_decode(bytes@) == decode_err(e),
            }),
    {
        match decode_entries(bytes) {
            Ok(v) => Ok(RankedMap::from_entries(&v)),
            Err(e) => Err(e),
        }
    }
}

} // verus!

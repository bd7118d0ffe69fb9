use vstd::prelude::*;
use vstd::bytes::lemma_auto_spec_u64_to_from_le_bytes;
use vstd::bytes::spec_u64_from_le_bytes;
use vstd::bytes::spec_u64_to_le_bytes;
use vstd::bytes::u64_from_le_bytes;
use vstd::bytes::u64_to_le_bytes;
use vstd::slice::slice_subrange;

verus! {

/// The 16-byte constant that opens every record header on disk.
pub const MAGIC_MARKER: [u8; 16] = [
    0x1e, 0x08, 0xb0, 0x22, 0xff, 0x2f, 0x47, 0xb6, 0xeb, 0xac, 0xf1, 0xd6, 0x8e, 0xb3, 0x5d,
    0x96,
];

/// Number of padding bytes that follow a payload of `len` bytes, so that every
/// record occupies a multiple of 64 bytes. Always in `[1, 64]`.
pub open spec fn pad_len(len: nat) -> nat {
    (64 - len % 64) as nat
}

/// Total on-disk size of the record framing a payload of `len` bytes:
/// a 64-byte header, the payload, then the padding.
pub open spec fn framed_len(len: nat) -> nat {
    64 + len + pad_len(len)
}

/// Executable computation of the padding for a payload of `len` bytes.
pub fn padding_len(len: usize) -> (r: usize)
    ensures
        r == pad_len(len as nat),
{
    64 - (len % 64)
}

/// One record as it stands on disk: the digest its header declares and the
/// payload bytes it frames. The timestamp field is informational and is not
/// part of the parsed model.
pub struct Record {
    pub hash: Seq<u8>,
    pub payload: Seq<u8>,
}

/// Outcome of reading a byte sequence as a chain of framed records.
pub enum ParseResult {
    /// The whole sequence splits cleanly into records, in file order.
    Parsed(Seq<Record>),
    /// A record boundary does not carry the magic marker.
    BadMagic,
    /// A declared payload (plus its padding) runs past the end of the bytes.
    Truncated,
}

/// Parses a byte sequence as a concatenation of framed records.
pub open spec fn parse_records(data: Seq<u8>) -> ParseResult
    decreases data.len(),
{
    if data.len() == 0 {
        ParseResult::Parsed(Seq::empty())
    } else if data.len() < 64 {
        ParseResult::Truncated
    } else if data.subrange(0, 16) != MAGIC_MARKER@ {
        ParseResult::BadMagic
    } else {
        let len = spec_u64_from_le_bytes(data.subrange(24, 32)) as nat;
        if data.len() < framed_len(len) {
            ParseResult::Truncated
        } else {
            match parse_records(data.skip(framed_len(len) as int)) {
                ParseResult::Parsed(rest) => ParseResult::Parsed(
                    seq![
                        Record {
                            hash: data.subrange(32, 64),
                            payload: data.subrange(64, 64 + len as int),
                        },
                    ] + rest,
                ),
                e => e,
            }
        }
    }
}

/// The digest-to-payload map that a sequence of records induces: a later
/// record with the same digest supersedes an earlier one.
pub open spec fn record_map(rs: Seq<Record>) -> Map<Seq<u8>, Seq<u8>>
    decreases rs.len(),
{
    if rs.len() == 0 {
        Map::empty()
    } else {
        record_map(rs.drop_last()).insert(rs.last().hash, rs.last().payload)
    }
}

/// Parsing distributes over concatenation: when a prefix parses cleanly, the
/// records of the whole are the prefix's records followed by whatever the
/// suffix yields, and an error in the suffix is the error of the whole.
pub proof fn lemma_parse_concat(d1: Seq<u8>, d2: Seq<u8>)
    requires
        parse_records(d1) is Parsed,
    ensures
        parse_records(d1 + d2) == (match parse_records(d2) {
            ParseResult::Parsed(rs2) => ParseResult::Parsed(parse_records(d1)->Parsed_0 + rs2),
            e => e,
        }),
    decreases d1.len(),
{
    if d1.len() == 0 {
        assert(d1 + d2 =~= d2);
        assert(parse_records(d1)->Parsed_0 =~= Seq::<Record>::empty());
        match parse_records(d2) {
            ParseResult::Parsed(rs2) => {
                assert(parse_records(d1)->Parsed_0 + rs2 =~= rs2);
            },
            _ => {},
        }
    } else {
        let c = d1 + d2;
        assert(c.subrange(0, 16) =~= d1.subrange(0, 16));
        assert(c.subrange(24, 32) =~= d1.subrange(24, 32));
        let len = spec_u64_from_le_bytes(d1.subrange(24, 32)) as nat;
        let fl = framed_len(len) as int;
        assert(fl <= d1.len());
        assert(c.subrange(32, 64) =~= d1.subrange(32, 64));
        assert(c.subrange(64, 64 + len as int) =~= d1.subrange(64, 64 + len as int));
        assert(c.skip(fl) =~= d1.skip(fl) + d2);
        lemma_parse_concat(d1.skip(fl), d2);
        let r0 = Record {
            hash: d1.subrange(32, 64),
            payload: d1.subrange(64, 64 + len as int),
        };
        let rs1_rest = parse_records(d1.skip(fl))->Parsed_0;
        assert(parse_records(d1)->Parsed_0 == seq![r0] + rs1_rest);
        match parse_records(d2) {
            ParseResult::Parsed(rs2) => {
                assert(seq![r0] + (rs1_rest + rs2) =~= (seq![r0] + rs1_rest) + rs2);
            },
            _ => {},
        }
    }
}

/// Copies the bytes of `s` onto the end of `out`.
pub(crate) fn push_slice(out: &mut Vec<u8>, s: &[u8])
    ensures
        final(out)@ == old(out)@ + s@,
{
    let mut i: usize = 0;
    while i < s.len()
        invariant
            i <= s@.len(),
            out@ == old(out)@ + s@.take(i as int),
        decreases s@.len() - i,
    {
        out.push(s[i]);
        assert(s@.take(i as int).push(s@[i as int]) =~= s@.take(i + 1));
        i += 1;
    }
    assert(s@.take(s@.len() as int) =~= s@);
}

/// Appends `n` zero bytes to `out`.
pub(crate) fn push_zeros(out: &mut Vec<u8>, n: usize)
    ensures
        final(out)@ == old(out)@ + Seq::new(n as nat, |i: int| 0u8),
{
    let mut i: usize = 0;
    while i < n
        invariant
            i <= n,
            out@ == old(out)@ + Seq::new(i as nat, |j: int| 0u8),
        decreases n - i,
    {
        out.push(0u8);
        assert(Seq::new(i as nat, |j: int| 0u8).push(0u8) =~= Seq::new(
            (i + 1) as nat,
            |j: int| 0u8,
        ));
        i += 1;
    }
}

/// Whether two byte slices hold the same bytes.
pub(crate) fn bytes_eq(a: &[u8], b: &[u8]) -> (r: bool)
    ensures
        r == (a@ == b@),
{
    if a.len() != b.len() {
        return false;
    }
    let mut i: usize = 0;
    while i < a.len()
        invariant
            i <= a@.len(),
            a@.len() == b@.len(),
            forall|j: int| 0 <= j < i ==> a@[j] == b@[j],
        decreases a@.len() - i,
    {
        if a[i] != b[i] {
            return false;
        }
        i += 1;
    }
    assert(a@ =~= b@);
    true
}

/// The 64-byte record header: the magic marker, a wall-clock timestamp, the
/// payload's length, and the payload's digest.
pub struct Header {
    pub magic_marker: [u8; 16],
    pub timestamp: u64,
    pub length: u64,
    pub hash: [u8; 32],
}

impl Header {
    /// Builds a header carrying the magic marker and the given fields.
    pub fn new(timestamp: u64, length: u64, hash: [u8; 32]) -> (r: Header)
        ensures
            r.magic_marker@ == MAGIC_MARKER@,
            r.timestamp == timestamp,
            r.length == length,
            r.hash@ == hash@,
    {
        Header { magic_marker: MAGIC_MARKER, timestamp, length, hash }
    }
}

/// Builds the 64-byte on-disk header followed by the payload and its zero
/// padding, so that the result is exactly one framed record.
pub(crate) fn encode_record(header: &Header, payload: &Vec<u8>) -> (r: Vec<u8>)
    requires
        header.magic_marker@ == MAGIC_MARKER@,
        header.length as nat == payload@.len(),
    ensures
        r@.len() == framed_len(payload@.len()),
        parse_records(r@) == ParseResult::Parsed(
            seq![Record { hash: header.hash@, payload: payload@ }],
        ),
        r@.subrange(16, 24) == spec_u64_to_le_bytes(header.timestamp),
        forall|i: int|
            64 + payload@.len() <= i < r@.len() ==> r@[i] == 0u8,
    {
    proof {
        lemma_auto_spec_u64_to_from_le_bytes();
    }
    let mut out: Vec<u8> = Vec::new();
    push_slice(&mut out, header.magic_marker.as_slice());
    let ts_bytes = u64_to_le_bytes(header.timestamp);
    push_slice(&mut out, ts_bytes.as_slice());
    let len_bytes = u64_to_le_bytes(header.length);
    push_slice(&mut out, len_bytes.as_slice());
    push_slice(&mut out, header.hash.as_slice());
    push_slice(&mut out, payload.as_slice());
    let pad = padding_len(payload.len());
    push_zeros(&mut out, pad);
    proof {
        let s = out@;
        let l = payload@.len();
        assert(s.len() == framed_len(l));
        assert(s.subrange(0, 16) =~= MAGIC_MARKER@);
        assert(s.subrange(24, 32) =~= spec_u64_to_le_bytes(l as u64));
        assert(spec_u64_from_le_bytes(s.subrange(24, 32)) == l as u64);
        assert(s.subrange(32, 64) =~= header.hash@);
        assert(s.subrange(64, 64 + l as int) =~= payload@);
        assert(s.skip(framed_len(l) as int) =~= Seq::<u8>::empty());
        assert(parse_records(s.skip(framed_len(l) as int)) == ParseResult::Parsed(
            Seq::<Record>::empty(),
        ));
        let r0 = Record { hash: header.hash@, payload: payload@ };
        assert(seq![r0] + Seq::<Record>::empty() =~= seq![r0]);
        assert(s.subrange(16, 24) =~= spec_u64_to_le_bytes(header.timestamp));
    }
    out
}

/// Reads the little-endian length field of the header that starts at `off`.
pub(crate) fn read_length_field(data: &Vec<u8>, off: usize) -> (r: u64)
    requires
        off + 64 <= data@.len(),
    ensures
        r == spec_u64_from_le_bytes(data@.subrange(off + 24, off + 32)),
{
    let n = data.len();
    assert(off + 64 <= n);
    let field = slice_subrange(data.as_slice(), off + 24, off + 32);
    u64_from_le_bytes(field)
}

} // verus!

use vstd::prelude::*;

use crate::errors::NrrdError;
use crate::scan::copy_range;

verus! {

/// The bit pattern of the IEEE-754 binary64 number that a decimal token
/// denotes, or `None` when the token does not parse.  The name stands for
/// what `rustc_apfloat::ieee::Double::from_str` returns.
pub uninterp spec fn f64_bits_of_dec(t: Seq<u8>) -> Option<u64>;

/// What the bzip2 format says `data` decompresses to, or `None` when the
/// stream is malformed.  The name stands for what bzip2::read::BzDecoder
/// yields when it is read to the end.
pub uninterp spec fn bz2_inflate(data: Seq<u8>) -> Option<Seq<u8>>;

/// What the gzip format says `data` decompresses to, or `None` when the
/// stream is malformed.  The name stands for what flate2::read::GzDecoder
/// yields when it is read to the end.
pub uninterp spec fn gzip_inflate(data: Seq<u8>) -> Option<Seq<u8>>;

/// The decoded bits of one ASCII payload token: the named float-parse result
/// for tokens short enough to be handed to the parser, and a parse failure
/// for longer ones, which are rejected up front (see `parse_float_bits`).
pub open spec fn token_bits(t: Seq<u8>) -> Option<u64> {
    if t.len() < 0x8000_0000 {
        f64_bits_of_dec(t)
    } else {
        None
    }
}

/// Relies on rustc_apfloat::ieee::Double::from_str, which turns a decimal
/// token into an IEEE-754 binary64 value rounding to nearest-even, and on
/// Float::to_bits, which hands out its bit pattern: both depend on the token
/// bytes alone.  core::str::from_utf8 only converts the argument.  Tokens of
/// 2^31 bytes or more are kept out by the precondition: on a hexadecimal
/// token that long the parser's 32-bit exponent arithmetic aborts instead of
/// returning an error.
#[verifier::external_body]
fn parse_float_bits(buf: &[u8], lo: usize, hi: usize) -> (r: Option<u64>)
    requires
        lo <= hi <= buf@.len(),
        hi - lo < 0x8000_0000,
    ensures
        r == f64_bits_of_dec(buf@.subrange(lo as int, hi as int)),
{
    match core::str::from_utf8(&buf[lo..hi]) {
        Ok(s) => match s.parse::<rustc_apfloat::ieee::Double>() {
            Ok(v) => Some(rustc_apfloat::Float::to_bits(v) as u64),
            Err(_) => None,
        },
        Err(_) => None,
    }
}

/// Relies on bzip2::read::BzDecoder driven by std::io::Read::read_to_end:
/// decompressing a byte slice is a function of those bytes alone, and a
/// malformed stream is reported as an error.
#[verifier::external_body]
pub(crate) fn bz2_decompress(data: &[u8]) -> (r: Option<Vec<u8>>)
    ensures
        match r {
            Some(out) => bz2_inflate(data@) == Some(out@),
            None => bz2_inflate(data@) is None,
        },
{
    let mut out: Vec<u8> = Vec::new();
    let mut dec = bzip2::read::BzDecoder::new(data);
    match std::io::Read::read_to_end(&mut dec, &mut out) {
        Ok(_) => Some(out),
        Err(_) => None,
    }
}

/// Relies on flate2::read::GzDecoder driven by std::io::Read::read_to_end:
/// decompressing a byte slice is a function of those bytes alone, and a
/// malformed stream is reported as an error.
#[verifier::external_body]
pub(crate) fn gzip_decompress(data: &[u8]) -> (r: Option<Vec<u8>>)
    ensures
        match r {
            Some(out) => gzip_inflate(data@) == Some(out@),
            None => gzip_inflate(data@) is None,
        },
{
    let mut out: Vec<u8> = Vec::new();
    let mut dec = flate2::read::GzDecoder::new(data);
    match std::io::Read::read_to_end(&mut dec, &mut out) {
        Ok(_) => Some(out),
        Err(_) => None,
    }
}

/// The `count` 64-bit numbers packed little-endian, eight bytes each, at the
/// front of `bytes`.
pub open spec fn le_chunks(bytes: Seq<u8>, count: nat) -> Seq<u64> {
    Seq::new(count, |i: int| vstd::bytes::spec_u64_from_le_bytes(bytes.subrange(8 * i, 8 * i + 8)))
}

/// Reads `count` tightly packed little-endian 64-bit values.
pub fn decode_le_chunks(bytes: &[u8], count: usize) -> (r: Vec<u64>)
    requires
        bytes@.len() == count * 8,
    ensures
        r@ == le_chunks(bytes@, count as nat),
{
    let n = bytes.len();
    let mut out: Vec<u64> = Vec::new();
    let mut i: usize = 0;
    while i < count
        invariant
            i <= count,
            n == bytes@.len(),
            bytes@.len() == count * 8,
            out@.len() == i,
            forall|j: int|
                0 <= j < i ==> #[trigger] out@[j] == vstd::bytes::spec_u64_from_le_bytes(
                    bytes@.subrange(8 * j, 8 * j + 8),
                ),
        decreases count - i,
    {
        proof {
            assert(8 * ((i as int) + 1) <= 8 * (count as int));
            assert(8 * (i as int) + 8 == 8 * ((i as int) + 1));
        }
        let x = vstd::bytes::u64_from_le_bytes(&bytes[8 * i..8 * i + 8]);
        out.push(x);
        i = i + 1;
    }
    proof {
        assert(out@ =~= le_chunks(bytes@, count as nat));
    }
    out
}

/// A byte that separates ASCII payload tokens: space or newline.
pub open spec fn is_sep(b: u8) -> bool {
    b == 32 || b == 10
}

/// Index of the first separator byte of `s`, or `s.len()`.
pub open spec fn first_sep(s: Seq<u8>) -> int
    decreases s.len(),
{
    if s.len() == 0 {
        0
    } else if is_sep(s[0]) {
        0
    } else {
        1 + first_sep(s.drop_first())
    }
}

pub proof fn lemma_first_sep_is(s: Seq<u8>, k: int)
    requires
        0 <= k <= s.len(),
        forall|j: int| 0 <= j < k ==> !is_sep(#[trigger] s[j]),
        k == s.len() || is_sep(s[k]),
    ensures
        first_sep(s) == k,
    decreases k,
{
    if k > 0 {
        assert(!is_sep(s[0]));
        assert(forall|j: int| 0 <= j < k - 1 ==> !is_sep(#[trigger] s.drop_first()[j]));
        lemma_first_sep_is(s.drop_first(), k - 1);
    } else {
        if s.len() > 0 && !is_sep(s[0]) {
            assert(false);
        }
    }
}

/// The tokens of an ASCII payload: the pieces between space and newline
/// bytes, empty pieces dropped.
pub open spec fn ascii_tokens(s: Seq<u8>) -> Seq<Seq<u8>>
    decreases s.len(),
{
    if s.len() == 0 {
        seq![]
    } else if is_sep(s[0]) {
        ascii_tokens(s.drop_first())
    } else {
        let k = first_sep(s);
        if 0 < k <= s.len() {
            seq![s.subrange(0, k)] + ascii_tokens(s.subrange(k, s.len() as int))
        } else {
            seq![s]
        }
    }
}

/// A successful ASCII decode: every token parses, and there are exactly
/// `count` of them; `data` holds their bit patterns in order.
pub open spec fn ascii_ok(payload: Seq<u8>, count: nat, data: Seq<u64>) -> bool {
    let toks = ascii_tokens(payload);
    &&& toks.len() == count
    &&& data.len() == count
    &&& forall|i: int| 0 <= i < toks.len() ==> Some(data[i]) == token_bits(#[trigger] toks[i])
}

/// Every token of the payload parses, and `data` holds the tokens' bit
/// patterns in order; nothing is said about how many there are.
pub open spec fn ascii_bits_of(payload: Seq<u8>, data: Seq<u64>) -> bool {
    let toks = ascii_tokens(payload);
    &&& data.len() == toks.len()
    &&& forall|i: int| 0 <= i < toks.len() ==> Some(data[i]) == token_bits(#[trigger] toks[i])
}

/// A failed ASCII decode: the first token that does not parse is named, or,
/// when all parse, the token count misses the expected element count.
pub open spec fn ascii_err(payload: Seq<u8>, count: nat, e: NrrdError) -> bool {
    let toks = ascii_tokens(payload);
    if exists|i: int| 0 <= i < toks.len() && token_bits(#[trigger] toks[i]) is None {
        exists|i: int|
            {
                &&& 0 <= i < toks.len()
                &&& token_bits(#[trigger] toks[i]) is None
                &&& forall|j: int| 0 <= j < i ==> token_bits(#[trigger] toks[j]) is Some
                &&& e matches NrrdError::NumericParseFailure(t) && t@ == toks[i]
            }
    } else {
        toks.len() != count && e matches NrrdError::TruncatedPayload
    }
}

/// First index at or after `start` whose byte separates ASCII tokens, or the
/// end of the buffer.
fn find_sep(buf: &[u8], start: usize) -> (r: usize)
    requires
        start <= buf@.len(),
    ensures
        start <= r <= buf@.len(),
        forall|j: int| start <= j < r ==> !is_sep(#[trigger] buf@[j]),
        r < buf@.len() ==> is_sep(buf@[r as int]),
{
    let n = buf.len();
    let mut i: usize = start;
    while i < n && !(buf[i] == 32 || buf[i] == 10)
        invariant
            start <= i <= n == buf@.len(),
            forall|j: int| start <= j < i ==> !is_sep(#[trigger] buf@[j]),
        decreases n - i,
    {
        i = i + 1;
    }
    i
}

/// Parses every token of an ASCII payload, `buf[off..]`, into its bit
/// pattern.  Fails on the first token that does not parse, naming it.
pub fn ascii_bits(buf: &[u8], off: usize) -> (r: Result<Vec<u64>, NrrdError>)
    requires
        off <= buf@.len(),
    ensures
        ({
            let payload = buf@.subrange(off as int, buf@.len() as int);
            let toks = ascii_tokens(payload);
            match r {
                Ok(d) => ascii_bits_of(payload, d@),
                Err(e) => exists|i: int|
                    {
                        &&& 0 <= i < toks.len()
                        &&& token_bits(#[trigger] toks[i]) is None
                        &&& forall|j: int|
                            0 <= j < i ==> token_bits(#[trigger] toks[j]) is Some
                        &&& e matches NrrdError::NumericParseFailure(t) && t@ == toks[i]
                    },
            }
        }),
{
    let ghost payload = buf@.subrange(off as int, buf@.len() as int);
    let ghost toks = ascii_tokens(payload);
    let n = buf.len();
    let mut out: Vec<u64> = Vec::new();
    let mut i: usize = off;
    proof {
        assert(buf@.subrange(off as int, n as int) == payload);
        assert(toks.subrange(0, toks.len() as int) =~= toks);
    }
    loop
        invariant_except_break
            off <= i <= n == buf@.len(),
            payload == buf@.subrange(off as int, n as int),
            toks == ascii_tokens(payload),
            out@.len() <= toks.len(),
            ascii_tokens(buf@.subrange(i as int, n as int)) =~= toks.subrange(
                out@.len() as int,
                toks.len() as int,
            ),
            forall|j: int|
                0 <= j < out@.len() ==> Some(#[trigger] out@[j]) == token_bits(toks[j]),
        ensures
            toks == ascii_tokens(payload),
            out@.len() == toks.len(),
            forall|j: int|
                0 <= j < out@.len() ==> Some(#[trigger] out@[j]) == token_bits(toks[j]),
        decreases n - i,
    {
        let ghost i0 = i as int;
        while i < n && (buf[i] == 32 || buf[i] == 10)
            invariant
                i0 <= i as int,
                off <= i <= n == buf@.len(),
                out@.len() <= toks.len(),
                ascii_tokens(buf@.subrange(i as int, n as int)) =~= toks.subrange(
                    out@.len() as int,
                    toks.len() as int,
                ),
            decreases n - i,
        {
            proof {
                let suf = buf@.subrange(i as int, n as int);
                assert(suf.len() > 0 && is_sep(suf[0]));
                assert(suf.drop_first() =~= buf@.subrange(i + 1, n as int));
            }
            i = i + 1;
        }
        if i == n {
            proof {
                assert(ascii_tokens(buf@.subrange(i as int, n as int)).len() == 0);
                assert(out@.len() == toks.len());
            }
            break;
        }
        let k = find_sep(buf, i);
        let ghost suf = buf@.subrange(i as int, n as int);
        let ghost c = out@.len() as int;
        proof {
            if k == i {
                assert(is_sep(buf@[i as int]));
            }
            assert(k > i);
            assert(forall|j: int| 0 <= j < k - i ==> !is_sep(#[trigger] suf[j]));
            lemma_first_sep_is(suf, k - i);
            assert(!is_sep(suf[0]));
            assert(suf.subrange(0, k - i) =~= buf@.subrange(i as int, k as int));
            assert(suf.subrange(k - i, suf.len() as int) =~= buf@.subrange(k as int, n as int));
            assert(ascii_tokens(suf) == seq![buf@.subrange(i as int, k as int)] + ascii_tokens(
                buf@.subrange(k as int, n as int),
            ));
            assert(toks.subrange(c, toks.len() as int).len() >= 1);
            assert(toks.subrange(c, toks.len() as int)[0] == toks[c]);
            assert(toks[c] == buf@.subrange(i as int, k as int));
        }
        if k - i >= 0x8000_0000 {
            let bad = copy_range(buf, i, k);
            proof {
                assert(token_bits(toks[c]) is None);
                assert forall|j: int| 0 <= j < c implies token_bits(
                    #[trigger] toks[j],
                ) is Some by {
                    assert(Some(out@[j]) == token_bits(toks[j]));
                }
            }
            return Err(NrrdError::NumericParseFailure(bad));
        }
        match parse_float_bits(buf, i, k) {
            Some(bits) => {
                out.push(bits);
            },
            None => {
                let bad = copy_range(buf, i, k);
                proof {
                    assert(token_bits(toks[c]) is None);
                    assert forall|j: int| 0 <= j < c implies token_bits(
                        #[trigger] toks[j],
                    ) is Some by {
                        assert(Some(out@[j]) == token_bits(toks[j]));
                    }
                }
                return Err(NrrdError::NumericParseFailure(bad));
            },
        }
        proof {
            let rest = ascii_tokens(buf@.subrange(k as int, n as int));
            assert(toks.subrange(c, toks.len() as int).len() == rest.len() + 1);
            assert forall|j: int| 0 <= j < rest.len() implies toks.subrange(
                out@.len() as int,
                toks.len() as int,
            )[j] == rest[j] by {
                assert(toks.subrange(c, toks.len() as int)[j + 1] == rest[j]);
                assert(toks.subrange(c, toks.len() as int)[j + 1] == toks[c + j + 1]);
            }
            assert(ascii_tokens(buf@.subrange(k as int, n as int)) =~= toks.subrange(
                out@.len() as int,
                toks.len() as int,
            ));
        }
        i = k;
    }
    proof {
        assert forall|j: int| 0 <= j < toks.len() implies Some(out@[j]) == token_bits(
            #[trigger] toks[j],
        ) by {
            assert(Some(out@[j]) == token_bits(toks[j]));
        }
    }
    Ok(out)
}

/// Decodes a raw payload, `buf[off..]`: exactly `count` tightly packed
/// little-endian eight-byte numbers, or the truncation error.
pub fn decode_raw(buf: &[u8], off: usize, count: usize) -> (r: Result<Vec<u64>, NrrdError>)
    requires
        off <= buf@.len(),
    ensures
        ({
            let payload = buf@.subrange(off as int, buf@.len() as int);
            match r {
                Ok(d) => payload.len() == count * 8 && d@ == le_chunks(payload, count as nat),
                Err(e) => payload.len() != count * 8 && e matches NrrdError::TruncatedPayload,
            }
        }),
{
    let n = buf.len();
    let want = match count.checked_mul(8) {
        Some(w) => w,
        None => {
            return Err(NrrdError::TruncatedPayload);
        },
    };
    if n - off != want {
        return Err(NrrdError::TruncatedPayload);
    }
    let data = decode_le_chunks(&buf[off..n], count);
    Ok(data)
}

/// Turns `count * 8` decompressed bytes into their packed numbers; any other
/// byte count is the decompression-mismatch error.  `out` is what the
/// decompressor yielded, `None` when the stream was malformed.
pub open spec fn inflated_ok(out: Option<Seq<u8>>, count: nat, data: Seq<u64>) -> bool {
    out matches Some(b) && b.len() == count * 8 && data == le_chunks(b, count)
}

pub open spec fn inflated_bad(out: Option<Seq<u8>>, count: nat) -> bool {
    match out {
        Some(b) => b.len() != count * 8,
        None => true,
    }
}

pub open spec fn inflated_post(
    out: Option<Seq<u8>>,
    count: nat,
    r: Result<Vec<u64>, NrrdError>,
) -> bool {
    match r {
        Ok(d) => inflated_ok(out, count, d@),
        Err(e) => inflated_bad(out, count) && e matches NrrdError::DecompressionFailure,
    }
}

/// Decodes a bzip2-compressed payload, `buf[off..]`.
pub fn decode_bzip2(buf: &[u8], off: usize, count: usize) -> (r: Result<Vec<u64>, NrrdError>)
    requires
        off <= buf@.len(),
    ensures
        inflated_post(
            bz2_inflate(buf@.subrange(off as int, buf@.len() as int)),
            count as nat,
            r,
        ),
{
    let n = buf.len();
    match bz2_decompress(&buf[off..n]) {
        Some(out) => chunk_inflated(out, count),
        None => Err(NrrdError::DecompressionFailure),
    }
}

/// Decodes a gzip-compressed payload, `buf[off..]`.
pub fn decode_gzip(buf: &[u8], off: usize, count: usize) -> (r: Result<Vec<u64>, NrrdError>)
    requires
        off <= buf@.len(),
    ensures
        inflated_post(
            gzip_inflate(buf@.subrange(off as int, buf@.len() as int)),
            count as nat,
            r,
        ),
{
    let n = buf.len();
    match gzip_decompress(&buf[off..n]) {
        Some(out) => chunk_inflated(out, count),
        None => Err(NrrdError::DecompressionFailure),
    }
}

/// The shared tail of both compressed paths: the decompressed byte count must
/// equal `count * 8` exactly.
fn chunk_inflated(out: Vec<u8>, count: usize) -> (r: Result<Vec<u64>, NrrdError>)
    ensures
        inflated_post(Some(out@), count as nat, r),
{
    let olen = out.len();
    let want = match count.checked_mul(8) {
        Some(w) => w,
        None => {
            return Err(NrrdError::DecompressionFailure);
        },
    };
    if olen != want {
        return Err(NrrdError::DecompressionFailure);
    }
    let data = decode_le_chunks(out.as_slice(), count);
    Ok(data)
}

} // verus!

use vstd::prelude::*;

use crate::errors::{NrrdError, same_error};
use crate::header::{first_line, header_result, is_magic, parse_header};
use crate::metadata::Metadata;
use crate::numlist::{
    int_list_wf, list_product, parse_list, product_checked, split_sp, token_ok, token_val,
};
use crate::payload::{
    ascii_bits, ascii_err, ascii_ok, ascii_tokens, bz2_decompress, bz2_inflate, decode_bzip2,
    decode_gzip, decode_raw, gzip_decompress, gzip_inflate, inflated_bad, inflated_ok, le_chunks,
    token_bits,
};
use crate::scan::{bytes_eq, copy_range};

verus! {

/// The bytes of the field name `sizes`.
pub open spec fn key_sizes() -> Seq<u8> {
    seq![115u8, 105u8, 122u8, 101u8, 115u8]
}

/// The bytes of the field name `encoding`.
pub open spec fn key_encoding() -> Seq<u8> {
    seq![101u8, 110u8, 99u8, 111u8, 100u8, 105u8, 110u8, 103u8]
}

/// The bytes of the field name `dimension`.
pub open spec fn key_dimension() -> Seq<u8> {
    seq![100u8, 105u8, 109u8, 101u8, 110u8, 115u8, 105u8, 111u8, 110u8]
}

/// The bytes of the encoding token `ASCII`.
pub open spec fn enc_ascii() -> Seq<u8> {
    seq![65u8, 83u8, 67u8, 73u8, 73u8]
}

/// The bytes of the encoding token `raw`.
pub open spec fn enc_raw() -> Seq<u8> {
    seq![114u8, 97u8, 119u8]
}

/// The bytes of the encoding token `bzip2`.
pub open spec fn enc_bzip2() -> Seq<u8> {
    seq![98u8, 122u8, 105u8, 112u8, 50u8]
}

/// The bytes of the encoding token `gzip`.
pub open spec fn enc_gzip() -> Seq<u8> {
    seq![103u8, 122u8, 105u8, 112u8]
}

fn key_sizes_vec() -> (r: Vec<u8>)
    ensures
        r@ == key_sizes(),
{
    let mut v: Vec<u8> = Vec::new();
    v.push(115);
    v.push(105);
    v.push(122);
    v.push(101);
    v.push(115);
    proof {
        assert(v@ =~= key_sizes());
    }
    v
}

fn key_encoding_vec() -> (r: Vec<u8>)
    ensures
        r@ == key_encoding(),
{
    let mut v: Vec<u8> = Vec::new();
    v.push(101);
    v.push(110);
    v.push(99);
    v.push(111);
    v.push(100);
    v.push(105);
    v.push(110);
    v.push(103);
    proof {
        assert(v@ =~= key_encoding());
    }
    v
}

fn key_dimension_vec() -> (r: Vec<u8>)
    ensures
        r@ == key_dimension(),
{
    let mut v: Vec<u8> = Vec::new();
    v.push(100);
    v.push(105);
    v.push(109);
    v.push(101);
    v.push(110);
    v.push(115);
    v.push(105);
    v.push(111);
    v.push(110);
    proof {
        assert(v@ =~= key_dimension());
    }
    v
}

fn enc_ascii_vec() -> (r: Vec<u8>)
    ensures
        r@ == enc_ascii(),
{
    let mut v: Vec<u8> = Vec::new();
    v.push(65);
    v.push(83);
    v.push(67);
    v.push(73);
    v.push(73);
    proof {
        assert(v@ =~= enc_ascii());
    }
    v
}

fn enc_raw_vec() -> (r: Vec<u8>)
    ensures
        r@ == enc_raw(),
{
    let mut v: Vec<u8> = Vec::new();
    v.push(114);
    v.push(97);
    v.push(119);
    proof {
        assert(v@ =~= enc_raw());
    }
    v
}

fn enc_bzip2_vec() -> (r: Vec<u8>)
    ensures
        r@ == enc_bzip2(),
{
    let mut v: Vec<u8> = Vec::new();
    v.push(98);
    v.push(122);
    v.push(105);
    v.push(112);
    v.push(50);
    proof {
        assert(v@ =~= enc_bzip2());
    }
    v
}

fn enc_gzip_vec() -> (r: Vec<u8>)
    ensures
        r@ == enc_gzip(),
{
    let mut v: Vec<u8> = Vec::new();
    v.push(103);
    v.push(122);
    v.push(105);
    v.push(112);
    proof {
        assert(v@ =~= enc_gzip());
    }
    v
}

/// The first required field missing from `m`, checked in the order `sizes`,
/// `encoding`, `dimension`; `None` when all three are present.
pub open spec fn required_missing(m: Map<Seq<u8>, Seq<u8>>) -> Option<Seq<u8>> {
    if !m.contains_key(key_sizes()) {
        Some(key_sizes())
    } else if !m.contains_key(key_encoding()) {
        Some(key_encoding())
    } else if !m.contains_key(key_dimension()) {
        Some(key_dimension())
    } else {
        None
    }
}

/// The per-dimension element counts that the `sizes` field value denotes.
pub open spec fn sizes_values(sv: Seq<u8>) -> Seq<usize> {
    split_sp(sv).map_values(|t: Seq<u8>| token_val(t) as usize)
}

/// A decoded document: the header mapping, the flat data as the bit patterns
/// of IEEE-754 binary64 numbers, and the shape parsed from the `sizes` field
/// once, when the document is built.
pub struct Nrrd {
    pub metadata: Metadata,
    pub data: Vec<u64>,
    pub shape: Vec<usize>,
}

impl Nrrd {
    /// The documents that a successful decode hands out: the flat data holds
    /// exactly one element per cell of the shape.
    pub open spec fn wf(self) -> bool {
        self.data@.len() == list_product(self.shape@)
    }

    /// The per-dimension element counts, one per dimension, as parsed from
    /// the `sizes` field at construction.
    pub fn sizes(&self) -> (r: &Vec<usize>)
        ensures
            r@ == self.shape@,
    {
        &self.shape
    }
}

/// How `doc` relates to its header: the mapping is the parsed header, and the
/// shape is what the `sizes` value denotes.
pub open spec fn doc_header_ok(doc: Nrrd, m: Map<Seq<u8>, Seq<u8>>) -> bool {
    &&& doc.metadata@ == m
    &&& doc.shape@ == sizes_values(m[key_sizes()])
}

/// Everything `from_buffer` promises, for every input buffer: which value or
/// which error comes back, and when.
pub open spec fn decode_post(buf: Seq<u8>, r: Result<Nrrd, NrrdError>) -> bool {
    if !is_magic(first_line(buf)) {
        r matches Err(e) && e matches NrrdError::BadMagic(l) && l@ == first_line(buf)
    } else {
        let m = header_result(buf).0;
        let off = header_result(buf).1;
        match required_missing(m) {
            Some(f) => r matches Err(e) && e matches NrrdError::MissingField(t) && t@ == f,
            None => {
                let sv = m[key_sizes()];
                let toks = split_sp(sv);
                if !int_list_wf(sv) {
                    r matches Err(e) && e matches NrrdError::InvalidInteger(t) && (exists|i: int|
                        {
                            &&& 0 <= i < toks.len()
                            &&& !token_ok(#[trigger] toks[i])
                            &&& forall|j: int| 0 <= j < i ==> token_ok(#[trigger] toks[j])
                            &&& t@ == toks[i]
                        })
                } else {
                    let count = list_product(sizes_values(sv));
                    let payload = buf.subrange(off, buf.len() as int);
                    let enc = m[key_encoding()];
                    if enc == enc_ascii() {
                        match r {
                            Ok(doc) => doc_header_ok(doc, m) && ascii_ok(payload, count, doc.data@),
                            Err(e) => ascii_err(payload, count, e),
                        }
                    } else if enc == enc_raw() {
                        match r {
                            Ok(doc) => doc_header_ok(doc, m) && payload.len() == count * 8
                                && doc.data@ == le_chunks(payload, count),
                            Err(e) => payload.len() != count * 8 && e
                                matches NrrdError::TruncatedPayload,
                        }
                    } else if enc == enc_bzip2() {
                        match r {
                            Ok(doc) => doc_header_ok(doc, m) && inflated_ok(
                                bz2_inflate(payload),
                                count,
                                doc.data@,
                            ),
                            Err(e) => inflated_bad(bz2_inflate(payload), count) && e
                                matches NrrdError::DecompressionFailure,
                        }
                    } else if enc == enc_gzip() {
                        match r {
                            Ok(doc) => doc_header_ok(doc, m) && inflated_ok(
                                gzip_inflate(payload),
                                count,
                                doc.data@,
                            ),
                            Err(e) => inflated_bad(gzip_inflate(payload), count) && e
                                matches NrrdError::DecompressionFailure,
                        }
                    } else {
                        r matches Err(e) && e matches NrrdError::UnsupportedEncoding(t) && t@
                            == enc
                    }
                }
            },
        }
    }
}

impl Nrrd {
    /// Decodes one NRRD byte buffer into one document, or reports the first
    /// error, as `decode_post` lays out.  A successful decode always hands
    /// out a well-formed document: the data holds exactly one element per
    /// cell of the parsed shape.
    pub fn from_buffer(buf: &[u8]) -> (r: Result<Nrrd, NrrdError>)
        ensures
            decode_post(buf@, r),
            r matches Ok(doc) ==> doc.wf(),
    {
        let (md, off) = match parse_header(buf) {
            Ok(p) => p,
            Err(e) => {
                return Err(e);
            },
        };
        let ks = key_sizes_vec();
        let sv = match md.get(ks.as_slice()) {
            Some(v) => v,
            None => {
                return Err(NrrdError::MissingField(ks));
            },
        };
        let ke = key_encoding_vec();
        let enc = match md.get(ke.as_slice()) {
            Some(v) => v,
            None => {
                return Err(NrrdError::MissingField(ke));
            },
        };
        let kd = key_dimension_vec();
        if !md.contains_key(kd.as_slice()) {
            return Err(NrrdError::MissingField(kd));
        }
        let ghost m = header_result(buf@).0;
        let shape = match parse_list(sv.as_slice()) {
            Ok(l) => l,
            Err(t) => {
                return Err(NrrdError::InvalidInteger(t));
            },
        };
        proof {
            assert(shape@ =~= sizes_values(sv@));
        }
        let ghost count = list_product(sizes_values(sv@));
        let ghost payload = buf@.subrange(off as int, buf@.len() as int);
        let copt = product_checked(&shape);
        let data: Vec<u64> = if bytes_eq(enc.as_slice(), enc_ascii_vec().as_slice()) {
            let bits = match ascii_bits(buf, off) {
                Ok(b) => b,
                Err(e) => {
                    return Err(e);
                },
            };
            let blen = bits.len();
            let fits = match copt {
                Some(c) => blen == c,
                None => false,
            };
            if !fits {
                proof {
                    let toks = ascii_tokens(payload);
                    assert(toks.len() != count);
                    if exists|i: int|
                        0 <= i < toks.len() && token_bits(#[trigger] toks[i]) is None {
                        let i = choose|i: int|
                            0 <= i < toks.len() && token_bits(#[trigger] toks[i]) is None;
                        assert(Some(bits@[i]) == token_bits(toks[i]));
                    }
                }
                return Err(NrrdError::TruncatedPayload);
            }
            bits
        } else if bytes_eq(enc.as_slice(), enc_raw_vec().as_slice()) {
            match copt {
                Some(c) => match decode_raw(buf, off, c) {
                    Ok(d) => d,
                    Err(e) => {
                        return Err(e);
                    },
                },
                None => {
                    proof {
                        assert(payload.len() <= buf.len());
                        assert(count * 8 >= count);
                    }
                    return Err(NrrdError::TruncatedPayload);
                },
            }
        } else if bytes_eq(enc.as_slice(), enc_bzip2_vec().as_slice()) {
            match copt {
                Some(c) => match decode_bzip2(buf, off, c) {
                    Ok(d) => d,
                    Err(e) => {
                        return Err(e);
                    },
                },
                None => {
                    // the element count overflows the machine, so no
                    // decompressed byte count can match it; the stream is
                    // still consumed, as it would be with a fitting count
                    let n = buf.len();
                    match bz2_decompress(&buf[off..n]) {
                        Some(out) => {
                            proof {
                                assert(out.len() <= usize::MAX);
                                assert(count * 8 >= count);
                            }
                            return Err(NrrdError::DecompressionFailure);
                        },
                        None => {
                            return Err(NrrdError::DecompressionFailure);
                        },
                    }
                },
            }
        } else if bytes_eq(enc.as_slice(), enc_gzip_vec().as_slice()) {
            match copt {
                Some(c) => match decode_gzip(buf, off, c) {
                    Ok(d) => d,
                    Err(e) => {
                        return Err(e);
                    },
                },
                None => {
                    let n = buf.len();
                    match gzip_decompress(&buf[off..n]) {
                        Some(out) => {
                            proof {
                                assert(out.len() <= usize::MAX);
                                assert(count * 8 >= count);
                            }
                            return Err(NrrdError::DecompressionFailure);
                        },
                        None => {
                            return Err(NrrdError::DecompressionFailure);
                        },
                    }
                },
            }
        } else {
            let t = copy_range(enc.as_slice(), 0, enc.len());
            proof {
                assert(t@ =~= enc@);
            }
            return Err(NrrdError::UnsupportedEncoding(t));
        };
        let doc = Nrrd { metadata: md, data, shape };
        proof {
            assert(doc.wf());
        }
        Ok(doc)
    }
}

/// Every document a successful decode hands out is full: the flat data holds
/// exactly one element per cell of the shape, and the shape is what the
/// header's `sizes` field declares.
pub proof fn lemma_decoded_length(buf: Seq<u8>, doc: Nrrd)
    requires
        decode_post(buf, Ok(doc)),
    ensures
        doc.data@.len() == list_product(doc.shape@),
        doc.shape@ == sizes_values(header_result(buf).0[key_sizes()]),
{
}

/// Decoding is deterministic: any two outcomes that `decode_post` allows for
/// one buffer agree, in the decoded views on success and in the error kind
/// and its carried bytes on failure.
pub proof fn lemma_decode_deterministic(
    buf: Seq<u8>,
    r1: Result<Nrrd, NrrdError>,
    r2: Result<Nrrd, NrrdError>,
)
    requires
        decode_post(buf, r1),
        decode_post(buf, r2),
    ensures
        match (r1, r2) {
            (Ok(a), Ok(b)) => a.metadata@ == b.metadata@ && a.data@ == b.data@ && a.shape@
                == b.shape@,
            (Err(e1), Err(e2)) => same_error(e1, e2),
            _ => false,
        },
{
    if is_magic(first_line(buf)) {
        let m = header_result(buf).0;
        if required_missing(m) is None {
            let sv = m[key_sizes()];
            let toks = split_sp(sv);
            if !int_list_wf(sv) {
                let e1 = r1->Err_0;
                let e2 = r2->Err_0;
                let i1 = choose|i: int|
                    {
                        &&& 0 <= i < toks.len()
                        &&& !token_ok(#[trigger] toks[i])
                        &&& forall|j: int| 0 <= j < i ==> token_ok(#[trigger] toks[j])
                        &&& e1->InvalidInteger_0@ == toks[i]
                    };
                let i2 = choose|i: int|
                    {
                        &&& 0 <= i < toks.len()
                        &&& !token_ok(#[trigger] toks[i])
                        &&& forall|j: int| 0 <= j < i ==> token_ok(#[trigger] toks[j])
                        &&& e2->InvalidInteger_0@ == toks[i]
                    };
                assert(i1 == i2);
            } else {
                let count = list_product(sizes_values(sv));
                let payload = buf.subrange(header_result(buf).1, buf.len() as int);
                let enc = m[key_encoding()];
                if enc == enc_ascii() {
                    let atoks = ascii_tokens(payload);
                    if exists|i: int|
                        0 <= i < atoks.len() && token_bits(#[trigger] atoks[i]) is None {
                        let e1 = r1->Err_0;
                        let e2 = r2->Err_0;
                        let i1 = choose|i: int|
                            {
                                &&& 0 <= i < atoks.len()
                                &&& token_bits(#[trigger] atoks[i]) is None
                                &&& forall|j: int|
                                    0 <= j < i ==> token_bits(#[trigger] atoks[j]) is Some
                                &&& e1->NumericParseFailure_0@ == atoks[i]
                            };
                        let i2 = choose|i: int|
                            {
                                &&& 0 <= i < atoks.len()
                                &&& token_bits(#[trigger] atoks[i]) is None
                                &&& forall|j: int|
                                    0 <= j < i ==> token_bits(#[trigger] atoks[j]) is Some
                                &&& e2->NumericParseFailure_0@ == atoks[i]
                            };
                        assert(i1 == i2);
                    } else {
                        if r1 is Ok && r2 is Ok {
                            let a = r1->Ok_0;
                            let b = r2->Ok_0;
                            assert forall|i: int| 0 <= i < a.data@.len() implies a.data@[i]
                                == b.data@[i] by {
                                assert(Some(a.data@[i]) == token_bits(atoks[i]));
                                assert(Some(b.data@[i]) == token_bits(atoks[i]));
                            }
                            assert(a.data@ =~= b.data@);
                        }
                    }
                }
            }
        }
    }
}

} // verus!

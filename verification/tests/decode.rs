use nrrd::{Nrrd, NrrdError};

fn header(encoding: &str, extra: &str) -> Vec<u8> {
    format!(
        "NRRD0005\ntype: double\ndimension: 1\nsizes: 5\nencoding: {}\n{}\n",
        encoding, extra
    )
    .into_bytes()
}

fn raw_payload(values: &[f64]) -> Vec<u8> {
    let mut out = Vec::new();
    for v in values {
        out.extend_from_slice(&v.to_le_bytes());
    }
    out
}

fn sum(doc: &Nrrd) -> f64 {
    doc.data.iter().map(|b| f64::from_bits(*b)).sum()
}

fn expect_value(doc: &Nrrd, key: &[u8], value: &[u8]) {
    let got = doc.metadata.get(key).expect("key missing");
    assert_eq!(got.as_slice(), value);
}

fn expect_exact_metadata(doc: &Nrrd, entries: &[(&[u8], &[u8])]) {
    let mut keys = doc.metadata.keys();
    keys.sort();
    let mut expected: Vec<Vec<u8>> = entries.iter().map(|(k, _)| k.to_vec()).collect();
    expected.sort();
    assert_eq!(keys, expected);
    for (k, v) in entries {
        expect_value(doc, k, v);
    }
}

fn bz2_compress(data: &[u8]) -> Vec<u8> {
    let mut enc = bzip2::read::BzEncoder::new(data, bzip2::Compression::default());
    let mut out = Vec::new();
    std::io::Read::read_to_end(&mut enc, &mut out).expect("bzip2 compression failed");
    out
}

fn gzip_compress(data: &[u8]) -> Vec<u8> {
    let mut enc = flate2::read::GzEncoder::new(data, flate2::Compression::default());
    let mut out = Vec::new();
    std::io::Read::read_to_end(&mut enc, &mut out).expect("gzip compression failed");
    out
}

#[test]
fn parse_header() {
    let mut buf = header("ASCII", "");
    buf.extend_from_slice(b"0 1 3 4 5");
    let doc = Nrrd::from_buffer(&buf).unwrap();
    expect_exact_metadata(
        &doc,
        &[(b"type", b"double"), (b"dimension", b"1"), (b"sizes", b"5"), (b"encoding", b"ASCII")],
    );
    assert_eq!(sum(&doc), 0. + 1. + 3. + 4. + 5.);
}

#[test]
fn parse_raw() {
    let mut buf = header("raw", "endian: little\n");
    buf.extend_from_slice(&raw_payload(&[0., 1., 2., 3., 4.]));
    let doc = Nrrd::from_buffer(&buf).unwrap();
    expect_exact_metadata(
        &doc,
        &[
            (b"type", b"double"),
            (b"dimension", b"1"),
            (b"sizes", b"5"),
            (b"encoding", b"raw"),
            (b"endian", b"little"),
        ],
    );
    assert_eq!(sum(&doc), 0. + 1. + 2. + 3. + 4.);
}

#[test]
fn parse_binary_f64_bz2() {
    let plain = raw_payload(&[0., 1., 2., 3., 4.]);
    assert_eq!(plain.len(), 40);
    let mut buf = header("bzip2", "endian: little\n");
    buf.extend_from_slice(&bz2_compress(&plain));
    let doc = Nrrd::from_buffer(&buf).unwrap();
    expect_exact_metadata(
        &doc,
        &[
            (b"type", b"double"),
            (b"dimension", b"1"),
            (b"sizes", b"5"),
            (b"encoding", b"bzip2"),
            (b"endian", b"little"),
        ],
    );
    assert_eq!(doc.data.len(), 5);
    assert_eq!(sum(&doc), 0. + 1. + 2. + 3. + 4.);
}

#[test]
fn parse_binary_f64_gz() {
    let plain = raw_payload(&[0., 1., 2., 3., 4.]);
    let mut buf = header("gzip", "endian: little\n");
    buf.extend_from_slice(&gzip_compress(&plain));
    let doc = Nrrd::from_buffer(&buf).unwrap();
    expect_exact_metadata(
        &doc,
        &[
            (b"type", b"double"),
            (b"dimension", b"1"),
            (b"sizes", b"5"),
            (b"encoding", b"gzip"),
            (b"endian", b"little"),
        ],
    );
    assert_eq!(sum(&doc), 0. + 1. + 2. + 3. + 4.);
}

#[test]
fn data_length_matches_shape_product() {
    let mut buf = b"NRRD0004\ndimension: 2\nsizes: 2 3\nencoding: raw\n\n".to_vec();
    buf.extend_from_slice(&raw_payload(&[1., 2., 3., 4., 5., 6.]));
    let doc = Nrrd::from_buffer(&buf).unwrap();
    assert_eq!(doc.sizes().as_slice(), &[2usize, 3][..]);
    assert_eq!(doc.data.len(), 2 * 3);
}

#[test]
fn decoding_twice_agrees() {
    let mut buf = header("ASCII", "");
    buf.extend_from_slice(b"0 1 3 4 5");
    let a = Nrrd::from_buffer(&buf).unwrap();
    let b = Nrrd::from_buffer(&buf).unwrap();
    assert_eq!(a.data, b.data);
    assert_eq!(a.sizes(), b.sizes());
    for key in [b"type".as_slice(), b"dimension".as_slice(), b"sizes".as_slice(), b"encoding".as_slice()] {
        assert_eq!(a.metadata.get(key).unwrap(), b.metadata.get(key).unwrap());
    }
}

#[test]
fn missing_sizes_is_reported_first() {
    let buf = b"NRRD0005\ntype: double\ndimension: 1\nencoding: ASCII\n\n0 1 2".to_vec();
    match Nrrd::from_buffer(&buf) {
        Err(NrrdError::MissingField(f)) => assert_eq!(f.as_slice(), b"sizes"),
        other => panic!("expected MissingField(sizes), got {:?}", other.err()),
    }
    // even with every required field absent, `sizes` is the one named
    let bare = b"NRRD0005\ntype: double\n\n".to_vec();
    match Nrrd::from_buffer(&bare) {
        Err(NrrdError::MissingField(f)) => assert_eq!(f.as_slice(), b"sizes"),
        other => panic!("expected MissingField(sizes), got {:?}", other.err()),
    }
}

#[test]
fn missing_encoding_and_dimension() {
    let buf = b"NRRD0005\nsizes: 5\ndimension: 1\n\n".to_vec();
    match Nrrd::from_buffer(&buf) {
        Err(NrrdError::MissingField(f)) => assert_eq!(f.as_slice(), b"encoding"),
        other => panic!("expected MissingField(encoding), got {:?}", other.err()),
    }
    let buf = b"NRRD0005\nsizes: 5\nencoding: raw\n\n".to_vec();
    match Nrrd::from_buffer(&buf) {
        Err(NrrdError::MissingField(f)) => assert_eq!(f.as_slice(), b"dimension"),
        other => panic!("expected MissingField(dimension), got {:?}", other.err()),
    }
}

#[test]
fn bad_magic_is_rejected() {
    let buf = b"NRRD9999\nsizes: 5\ndimension: 1\nencoding: ASCII\n\n0 1 2 3 4".to_vec();
    match Nrrd::from_buffer(&buf) {
        Err(NrrdError::BadMagic(l)) => assert_eq!(l.as_slice(), b"NRRD9999"),
        other => panic!("expected BadMagic(NRRD9999), got {:?}", other.err()),
    }
    match Nrrd::from_buffer(b"") {
        Err(NrrdError::BadMagic(l)) => assert_eq!(l.as_slice(), b""),
        other => panic!("expected BadMagic with an empty line, got {:?}", other.err()),
    }
    match Nrrd::from_buffer(b"NRRD000") {
        Err(NrrdError::BadMagic(l)) => assert_eq!(l.as_slice(), b"NRRD000"),
        other => panic!("expected BadMagic(NRRD000), got {:?}", other.err()),
    }
}

#[test]
fn all_magic_versions_are_accepted() {
    for magic in ["NRRD0003", "NRRD0004", "NRRD0005"] {
        let buf = format!("{}\ndimension: 1\nsizes: 1\nencoding: ASCII\n\n7", magic).into_bytes();
        let doc = Nrrd::from_buffer(&buf).unwrap();
        assert_eq!(sum(&doc), 7.0);
    }
}

#[test]
fn hex_encoding_is_unsupported() {
    let buf = b"NRRD0005\ntype: double\ndimension: 1\nsizes: 5\nencoding: hex\n\n00".to_vec();
    match Nrrd::from_buffer(&buf) {
        Err(NrrdError::UnsupportedEncoding(t)) => assert_eq!(t.as_slice(), b"hex"),
        other => panic!("expected UnsupportedEncoding(hex), got {:?}", other.err()),
    }
}

#[test]
fn short_raw_payload_is_truncated() {
    let mut buf = header("raw", "endian: little\n");
    let mut payload = raw_payload(&[0., 1., 2., 3., 4.]);
    payload.pop();
    buf.extend_from_slice(&payload);
    assert!(matches!(Nrrd::from_buffer(&buf), Err(NrrdError::TruncatedPayload)));
}

#[test]
fn long_raw_payload_is_rejected_too() {
    let mut buf = header("raw", "endian: little\n");
    let mut payload = raw_payload(&[0., 1., 2., 3., 4.]);
    payload.push(0);
    buf.extend_from_slice(&payload);
    assert!(matches!(Nrrd::from_buffer(&buf), Err(NrrdError::TruncatedPayload)));
}

#[test]
fn ascii_token_count_must_match() {
    let mut buf = header("ASCII", "");
    buf.extend_from_slice(b"0 1 3 4");
    assert!(matches!(Nrrd::from_buffer(&buf), Err(NrrdError::TruncatedPayload)));
}

#[test]
fn ascii_bad_token_is_named() {
    let mut buf = header("ASCII", "");
    buf.extend_from_slice(b"0 1 oops 4 5");
    match Nrrd::from_buffer(&buf) {
        Err(NrrdError::NumericParseFailure(t)) => assert_eq!(t.as_slice(), b"oops"),
        other => panic!("expected NumericParseFailure(oops), got {:?}", other.err()),
    }
}

#[test]
fn invalid_sizes_token_is_named() {
    let buf = b"NRRD0005\ndimension: 1\nsizes: 5x\nencoding: ASCII\n\n0".to_vec();
    match Nrrd::from_buffer(&buf) {
        Err(NrrdError::InvalidInteger(t)) => assert_eq!(t.as_slice(), b"5x"),
        other => panic!("expected InvalidInteger(5x), got {:?}", other.err()),
    }
    let buf = b"NRRD0005\ndimension: 2\nsizes: 3 -1\nencoding: ASCII\n\n0".to_vec();
    match Nrrd::from_buffer(&buf) {
        Err(NrrdError::InvalidInteger(t)) => assert_eq!(t.as_slice(), b"-1"),
        other => panic!("expected InvalidInteger(-1), got {:?}", other.err()),
    }
}

#[test]
fn malformed_bzip2_stream_fails() {
    let mut buf = header("bzip2", "endian: little\n");
    buf.extend_from_slice(b"this is not a bzip2 stream");
    assert!(matches!(Nrrd::from_buffer(&buf), Err(NrrdError::DecompressionFailure)));
}

#[test]
fn bzip2_length_mismatch_fails() {
    // four elements compressed, five declared: exact length is demanded
    let plain = raw_payload(&[0., 1., 2., 3.]);
    let mut buf = header("bzip2", "endian: little\n");
    buf.extend_from_slice(&bz2_compress(&plain));
    assert!(matches!(Nrrd::from_buffer(&buf), Err(NrrdError::DecompressionFailure)));
}

#[test]
fn malformed_gzip_stream_fails() {
    let mut buf = header("gzip", "endian: little\n");
    buf.extend_from_slice(b"this is not a gzip stream");
    assert!(matches!(Nrrd::from_buffer(&buf), Err(NrrdError::DecompressionFailure)));
}

#[test]
fn gzip_length_mismatch_fails() {
    let plain = raw_payload(&[0., 1., 2., 3., 4., 5.]);
    let mut buf = header("gzip", "endian: little\n");
    buf.extend_from_slice(&gzip_compress(&plain));
    assert!(matches!(Nrrd::from_buffer(&buf), Err(NrrdError::DecompressionFailure)));
}

#[test]
fn header_conventions_are_followed() {
    let mut buf = b"NRRD0005\n# a comment: ignored\nno colon line\ndimension: 1\nsizes:= 3\nspaced  :  padded value \nsizes: 3\nencoding: ASCII\n\n1 2 4".to_vec();
    let doc = Nrrd::from_buffer(&buf).unwrap();
    // a commented key is not stored
    assert!(doc.metadata.get(b"# a comment").is_none());
    // a line without a colon is skipped silently
    assert!(doc.metadata.get(b"no colon line").is_none());
    // keys and values are trimmed, and a leading `=` marker is dropped
    expect_value(&doc, b"spaced", b"padded value");
    expect_value(&doc, b"sizes", b"3");
    assert_eq!(sum(&doc), 7.0);
    // last write wins for a repeated key
    buf = b"NRRD0005\ndimension: 1\nsizes: 2\nsizes: 1\nencoding: ASCII\n\n9".to_vec();
    let doc = Nrrd::from_buffer(&buf).unwrap();
    expect_value(&doc, b"sizes", b"1");
    assert_eq!(doc.sizes().as_slice(), &[1usize][..]);
}

#[test]
fn carriage_returns_are_trimmed() {
    let mut buf = b"NRRD0005\r\ndimension: 1\r\nsizes: 2\r\nencoding: raw\r\n\r\n".to_vec();
    // the magic line must be exactly the token, so CRLF line endings fail
    // there, and the carried line shows the stray byte
    match Nrrd::from_buffer(&buf) {
        Err(NrrdError::BadMagic(l)) => assert_eq!(l.as_slice(), b"NRRD0005\r"),
        other => panic!("expected BadMagic(NRRD0005<CR>), got {:?}", other.err()),
    }
    // with a plain magic line, a stray CR in a field line is trimmed from the value
    buf = b"NRRD0005\ndimension: 1\nsizes: 1\r\nencoding: ASCII\n\n5".to_vec();
    let doc = Nrrd::from_buffer(&buf).unwrap();
    expect_value(&doc, b"sizes", b"1");
    assert_eq!(sum(&doc), 5.0);
}

#[test]
fn zero_size_yields_empty_data() {
    let buf = b"NRRD0005\ndimension: 1\nsizes: 0\nencoding: raw\n\n".to_vec();
    let doc = Nrrd::from_buffer(&buf).unwrap();
    assert_eq!(doc.data.len(), 0);
    assert_eq!(doc.sizes().as_slice(), &[0usize][..]);
}

#[test]
fn ascii_fractions_round_trip_exactly() {
    let mut buf = b"NRRD0005\ndimension: 1\nsizes: 4\nencoding: ASCII\n\n0.5 -2.25 1e3 0.1".to_vec();
    let doc = Nrrd::from_buffer(&buf).unwrap();
    let vals: Vec<f64> = doc.data.iter().map(|b| f64::from_bits(*b)).collect();
    assert_eq!(vals, vec![0.5, -2.25, 1000.0, 0.1]);
    buf = b"NRRD0005\ndimension: 1\nsizes: 2\nencoding: ASCII\n\n1\n2".to_vec();
    let doc = Nrrd::from_buffer(&buf).unwrap();
    assert_eq!(sum(&doc), 3.0);
}

#[test]
fn parse_list_parses_unsigned_integers() {
    assert_eq!(nrrd::numlist::parse_list(b"3 4").unwrap(), vec![3, 4]);
    assert_eq!(nrrd::numlist::parse_list(b"5").unwrap(), vec![5]);
    assert_eq!(nrrd::numlist::parse_list(b"+7").unwrap(), vec![7]);
    assert_eq!(nrrd::numlist::parse_list(b"").unwrap_err(), Vec::<u8>::new());
    // a doubled space yields an empty token, which does not parse
    assert_eq!(nrrd::numlist::parse_list(b"1  2").unwrap_err(), Vec::<u8>::new());
    assert_eq!(nrrd::numlist::parse_list(b"1 x 2").unwrap_err(), b"x".to_vec());
    // a value beyond the machine's integer range does not parse
    assert_eq!(
        nrrd::numlist::parse_list(b"99999999999999999999999999").unwrap_err(),
        b"99999999999999999999999999".to_vec()
    );
}

#[test]
fn element_count_overflow_fails() {
    // each size fits the machine, their product does not
    let sizes = "sizes: 4000000000 4000000000 4000000000";
    let buf = format!("NRRD0005\ndimension: 3\n{}\nencoding: raw\n\n", sizes).into_bytes();
    assert!(matches!(Nrrd::from_buffer(&buf), Err(NrrdError::TruncatedPayload)));
    let mut buf = format!("NRRD0005\ndimension: 3\n{}\nencoding: bzip2\n\n", sizes).into_bytes();
    buf.extend_from_slice(&bz2_compress(&[0u8; 8]));
    assert!(matches!(Nrrd::from_buffer(&buf), Err(NrrdError::DecompressionFailure)));
    let mut buf = format!("NRRD0005\ndimension: 3\n{}\nencoding: gzip\n\n", sizes).into_bytes();
    buf.extend_from_slice(&gzip_compress(&[0u8; 8]));
    assert!(matches!(Nrrd::from_buffer(&buf), Err(NrrdError::DecompressionFailure)));
    // in the ASCII path an unparsable token is still reported first
    let mut buf = format!("NRRD0005\ndimension: 3\n{}\nencoding: ASCII\n\n", sizes).into_bytes();
    buf.extend_from_slice(b"nope");
    match Nrrd::from_buffer(&buf) {
        Err(NrrdError::NumericParseFailure(t)) => assert_eq!(t.as_slice(), b"nope"),
        other => panic!("expected NumericParseFailure(nope), got {:?}", other.err()),
    }
    let mut buf = format!("NRRD0005\ndimension: 3\n{}\nencoding: ASCII\n\n", sizes).into_bytes();
    buf.extend_from_slice(b"1 2");
    assert!(matches!(Nrrd::from_buffer(&buf), Err(NrrdError::TruncatedPayload)));
}

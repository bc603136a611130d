use thumbor::codec::{encode_blob, encode_segment, SpecDecodeError};
use thumbor::model::{Filter, ImageSpec, Operation, SampleFilter};

fn scenario() -> ImageSpec {
    ImageSpec::new(vec![
        Operation::new_resize(500, 800, SampleFilter::CatmullRom),
        Operation::new_watermark(20, 20),
        Operation::new_filter(Filter::Marine),
    ])
}

#[test]
fn scenario_token_round_trips() {
    let spec = scenario();
    let token = spec.encode();
    assert_eq!(
        token,
        "%01%F4%01%00%00%20%03%00%00%02%02%14%00%00%00%14%00%00%00%03%02"
    );
    let back = ImageSpec::decode(&token).unwrap();
    assert_eq!(back, spec);
    assert_eq!(back.specs.len(), 3);
    assert_eq!(back.specs[0], Operation::Resize { width: 500, height: 800, filter: SampleFilter::CatmullRom });
    assert_eq!(back.specs[1], Operation::Watermark { x: 20, y: 20 });
    assert_eq!(back.specs[2], Operation::Filter { kind: Filter::Marine });
}

#[test]
fn empty_spec_is_empty_token() {
    let spec = ImageSpec::new(vec![]);
    let token = spec.encode();
    assert_eq!(token, "");
    assert_eq!(ImageSpec::decode("").unwrap(), spec);
}

#[test]
fn encode_is_deterministic() {
    let a = scenario();
    let b = scenario();
    assert_eq!(a.encode(), b.encode());
    assert_eq!(a.encode(), a.clone().encode());
}

#[test]
fn round_trip_many_specs() {
    let kernels = [
        SampleFilter::Nearest,
        SampleFilter::Triangle,
        SampleFilter::CatmullRom,
        SampleFilter::Gaussian,
        SampleFilter::Lanczos3,
    ];
    let filters = [Filter::Oceanic, Filter::Islands, Filter::Marine];
    let mut ops = Vec::new();
    for (i, k) in kernels.iter().enumerate() {
        ops.push(Operation::new_resize(u32::MAX - i as u32, 48 + i as u32, *k));
        ops.push(Operation::new_watermark(i as u32 * 65, u32::MAX));
    }
    for f in filters.iter() {
        ops.push(Operation::new_filter(*f));
    }
    ops.push(Operation::new_resize(0, 0, SampleFilter::Nearest));
    for n in 0..ops.len() {
        let spec = ImageSpec::new(ops[..n].to_vec());
        let token = spec.encode();
        assert_eq!(ImageSpec::decode(&token).unwrap(), spec);
    }
}

#[test]
fn order_is_kept() {
    let a = ImageSpec::new(vec![Operation::new_watermark(1, 2), Operation::new_filter(Filter::Oceanic)]);
    let b = ImageSpec::new(vec![Operation::new_filter(Filter::Oceanic), Operation::new_watermark(1, 2)]);
    assert_ne!(a.encode(), b.encode());
    assert_eq!(ImageSpec::decode(&b.encode()).unwrap(), b);
}

#[test]
fn unknown_tag_is_rejected() {
    assert_eq!(ImageSpec::decode("%09"), Err(SpecDecodeError::UnknownOperation));
    assert_eq!(ImageSpec::decode("A"), Err(SpecDecodeError::UnknownOperation));
    assert_eq!(ImageSpec::decode("%03%02%00"), Err(SpecDecodeError::UnknownOperation));
}

#[test]
fn truncated_record_is_rejected() {
    assert_eq!(ImageSpec::decode("%01%00"), Err(SpecDecodeError::Truncated));
    assert_eq!(ImageSpec::decode("%02%01%00%00%00%02%00%00"), Err(SpecDecodeError::Truncated));
    assert_eq!(ImageSpec::decode("%03"), Err(SpecDecodeError::Truncated));
}

#[test]
fn unknown_kind_is_rejected() {
    assert_eq!(ImageSpec::decode("%03%07"), Err(SpecDecodeError::UnknownKind));
    assert_eq!(
        ImageSpec::decode("%01%01%00%00%00%01%00%00%00%09"),
        Err(SpecDecodeError::UnknownKind)
    );
}

#[test]
fn invalid_encoding_is_rejected() {
    assert_eq!(ImageSpec::decode("%zz"), Err(SpecDecodeError::InvalidEncoding));
    assert_eq!(ImageSpec::decode("%"), Err(SpecDecodeError::InvalidEncoding));
    assert_eq!(ImageSpec::decode("%0"), Err(SpecDecodeError::InvalidEncoding));
    assert_eq!(ImageSpec::decode("%03%0g"), Err(SpecDecodeError::InvalidEncoding));
    assert_eq!(ImageSpec::decode("é"), Err(SpecDecodeError::InvalidEncoding));
}

#[test]
fn other_valid_encodings_decode_by_their_bytes() {
    assert_eq!(ImageSpec::decode("%2a"), Err(SpecDecodeError::UnknownOperation));
    assert_eq!(ImageSpec::decode("%41"), Err(SpecDecodeError::UnknownOperation));
    assert_eq!(ImageSpec::decode("%03%02-"), Err(SpecDecodeError::UnknownOperation));
    let lower = ImageSpec::decode("%02%0a%00%00%00%00%00%00%00").unwrap();
    assert_eq!(lower, ImageSpec::new(vec![Operation::new_watermark(10, 0)]));
    let mixed = ImageSpec::decode("%03%02%03%00").unwrap();
    assert_eq!(mixed.specs, vec![Operation::new_filter(Filter::Marine), Operation::new_filter(Filter::Oceanic)]);
}

#[test]
fn arbitrary_tokens_never_decode_to_garbage() {
    let mut seed: u64 = 0x9E37_79B9_7F4A_7C15;
    let alphabet: Vec<char> = "%0123456789ABCDEFabcdefz-_.~é".chars().collect();
    for _ in 0..2000 {
        seed ^= seed << 13;
        seed ^= seed >> 7;
        seed ^= seed << 17;
        let len = (seed % 24) as usize;
        let mut token = String::new();
        let mut s = seed;
        for _ in 0..len {
            s = s.wrapping_mul(6364136223846793005).wrapping_add(1442695040888963407);
            token.push(alphabet[((s >> 33) as usize) % alphabet.len()]);
        }
        if let Ok(spec) = ImageSpec::decode(&token) {
            let blob: Vec<u8> = percent_encoding::percent_decode_str(&token).collect();
            assert_eq!(encode_blob(&spec.specs), blob);
            assert_eq!(ImageSpec::decode(&spec.encode()).unwrap(), spec);
        }
    }
}

#[test]
fn token_is_one_path_segment() {
    let token = scenario().encode();
    assert!(!token.is_empty());
    assert!(token.chars().all(|c| c.is_ascii_alphanumeric() || c == '%'));
}

#[test]
fn source_url_encodes_as_one_segment() {
    assert_eq!(encode_segment("foo bar?"), "foo%20bar%3F");
    assert_eq!(encode_segment("https://a/b"), "https%3A%2F%2Fa%2Fb");
    assert_eq!(encode_segment(""), "");
}

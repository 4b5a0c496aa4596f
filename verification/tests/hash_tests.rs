use cairn::hash::{digest_of, Hasher, FNV_OFFSET_BASIS};

fn hex_of(data: &[u8]) -> String {
    let mut h = Hasher::new();
    h.update(data);
    h.finalize_hex()
}

#[test]
fn fnv1a_reference_vectors() {
    assert_eq!(hex_of(b""), "cbf29ce484222325");
    assert_eq!(hex_of(b"a"), "af63dc4c8601ec8c");
    assert_eq!(hex_of(b"foobar"), "85944171f73967e8");
}

#[test]
fn numeric_digest_matches_hex() {
    let mut h = Hasher::new();
    assert_eq!(h.finalize(), FNV_OFFSET_BASIS);
    h.update(b"a");
    assert_eq!(h.finalize(), 0xaf63dc4c8601ec8c);
}

#[test]
fn readme_content_address() {
    // `printf 'greetings from cairn' > input.txt; cairn hash input.txt`
    assert_eq!(digest_of(b"greetings from cairn"), "2e94eeb351265c82");
}

#[test]
fn streaming_in_chunks_equals_hashing_whole() {
    let data: Vec<u8> = (0u32..1000).map(|i| (i * 7 % 251) as u8).collect();
    let whole = digest_of(&data);
    let mut h = Hasher::new();
    for chunk in data.chunks(64) {
        h.update(chunk);
    }
    assert_eq!(h.finalize_hex(), whole);
    let mut h2 = Hasher::new();
    h2.update(&data[..1]);
    h2.update(&[]);
    h2.update(&data[1..]);
    assert_eq!(h2.finalize_hex(), whole);
}

#[test]
fn digest_is_sixteen_lowercase_hex_chars() {
    for input in [&b""[..], b"x", b"hello", b"result-bytes", b"\x00\xff"] {
        let d = digest_of(input);
        assert_eq!(d.len(), 16);
        assert!(d.chars().all(|c| c.is_ascii_digit() || ('a'..='f').contains(&c)));
    }
}

#[test]
fn identical_bytes_identical_digest() {
    assert_eq!(digest_of(b"hello"), digest_of(b"hello"));
    assert_eq!(digest_of(b"hello"), "a430d84680aabd0b");
    assert_ne!(digest_of(b"hello"), digest_of(b"hellp"));
}

#[test]
fn any_chunking_gives_the_whole_digest() {
    let data: Vec<u8> = (0..200u32).map(|i| (i * 7 % 256) as u8).collect();
    let mut whole = Hasher::new();
    whole.update(&data);
    for size in [1usize, 3, 64, 199, 200, 500] {
        let mut h = Hasher::new();
        for chunk in data.chunks(size) {
            h.update(chunk);
        }
        assert_eq!(h.finalize(), whole.finalize());
        assert_eq!(h.finalize_hex(), digest_of(&data));
    }
}

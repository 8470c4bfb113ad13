use manifest_sync::codec::{parse_manifest, serialize_manifest};
use manifest_sync::digest::{hash_bytes, to_hex, FileHasher};
use manifest_sync::manifest::FileChecksum;

fn entry(name: &str, path: &str, digest: &str) -> FileChecksum {
    FileChecksum { name: name.to_string(), file_path: path.to_string(), checksum: digest.to_string() }
}

#[test]
fn round_trip_preserves_the_entries() {
    let m = vec![
        entry("a.txt", "a.txt", "00ff"),
        entry("b.txt", "charts/b.txt", "9f2a"),
        entry("c.bin", "skins/deep/c.bin", "abcdef0123456789"),
    ];
    let text = serialize_manifest(&m);
    let parsed = parse_manifest(&text).expect("canonical text must parse");
    assert_eq!(parsed.len(), m.len());
    for (p, e) in parsed.iter().zip(m.iter()) {
        assert_eq!(p.name, e.name);
        assert_eq!(p.file_path, e.file_path);
        assert_eq!(p.checksum, e.checksum);
    }
}

#[test]
fn round_trip_of_the_empty_manifest() {
    let m: Vec<FileChecksum> = Vec::new();
    let text = serialize_manifest(&m);
    assert_eq!(text, "[]");
    let parsed = parse_manifest(&text).expect("empty manifest must parse");
    assert!(parsed.is_empty());
}

#[test]
fn serialized_form_is_the_documented_json() {
    let m = vec![entry("a.txt", "x/a.txt", "d1")];
    let text = serialize_manifest(&m);
    assert_eq!(
        text,
        "[\n  {\n    \"name\": \"a.txt\",\n    \"filePath\": \"x/a.txt\",\n    \"checksum\": \"d1\"\n  }\n]"
    );
}

#[test]
fn serialized_form_is_valid_json_with_the_expected_fields() {
    let m = vec![entry("a.txt", "x/a.txt", "d1"), entry("b", "b", "d2")];
    let text = serialize_manifest(&m);
    let v: serde_json::Value = serde_json::from_str(&text).expect("output must be JSON");
    let arr = v.as_array().expect("an array");
    assert_eq!(arr.len(), 2);
    assert_eq!(arr[0]["name"], "a.txt");
    assert_eq!(arr[0]["filePath"], "x/a.txt");
    assert_eq!(arr[0]["checksum"], "d1");
    assert_eq!(arr[1]["filePath"], "b");
}

#[test]
fn parser_rejects_what_the_writer_cannot_produce() {
    assert!(parse_manifest("").is_none());
    assert!(parse_manifest("{}").is_none());
    assert!(parse_manifest("[").is_none());
    assert!(parse_manifest("[\n]").is_none());
    let m = vec![entry("a", "a", "d")];
    let mut text = serialize_manifest(&m);
    text.push_str(" ");
    assert!(parse_manifest(&text).is_none());
}

#[test]
fn digests_depend_on_content_alone() {
    // the same bytes under different names hash alike
    let d1 = hash_bytes(b"the same content");
    let d2 = hash_bytes(b"the same content");
    assert_eq!(d1, d2);
    let d3 = hash_bytes(b"different content");
    assert_ne!(d1, d3);
}

#[test]
fn digest_matches_the_published_sha256_vectors() {
    assert_eq!(
        hash_bytes(b""),
        "e3b0c44298fc1c149afbf4c8996fb92427ae41e4649b934ca495991b7852b855"
    );
    assert_eq!(
        hash_bytes(b"abc"),
        "ba7816bf8f01cfea414140de5dae2223b00361a396177a9cb410ff61f20015ad"
    );
}

#[test]
fn streaming_in_chunks_matches_hashing_at_once() {
    let mut h = FileHasher::new();
    h.update(b"hello ");
    h.update(b"world");
    assert_eq!(h.finish_hex(), hash_bytes(b"hello world"));
}

#[test]
fn hex_encoding_is_lowercase_two_digits_per_byte() {
    assert_eq!(to_hex(&[0xbe, 0xef]), "beef");
    assert_eq!(to_hex(&[0x00, 0x0a, 0xff]), "000aff");
    assert_eq!(to_hex(&[]), "");
}

#[test]
fn large_content_is_hashed_across_chunk_boundaries() {
    // more than one 64 KiB chunk
    let data = vec![0x41u8; 70000];
    let d = hash_bytes(&data);
    assert_eq!(d.len(), 64);
    let mut h = FileHasher::new();
    h.update(&data[..65536]);
    h.update(&data[65536..]);
    assert_eq!(h.finish_hex(), d);
}

use sashstore::indexmap::hash::{make_hash, IndexHasher, IndexHasherBuilder};

#[test]
fn hash_string() {
    let val = String::from("Hash this !");
    let hasher_builder = IndexHasherBuilder;

    // Rust's String hashing feeds the hasher the ASCII bytes followed by a
    // single 0xff terminator byte; the reference digest is of that stream.
    let mut bytes = val.as_bytes().to_vec();
    bytes.push(0xff);

    let hashed = make_hash(&hasher_builder, &bytes);

    assert_eq!(hashed, 0xf1b59cbd9867ed1);
}

#[test]
fn hash_empty_is_offset_basis() {
    let hashed = make_hash(&IndexHasherBuilder, &[]);
    assert_eq!(hashed, 0xcbf29ce484222325);
}

#[test]
fn hash_known_fnv1_vectors() {
    assert_eq!(make_hash(&IndexHasherBuilder, b"a"), 0xaf63bd4c8601b7be);
    assert_eq!(make_hash(&IndexHasherBuilder, b"foobar"), 0x340d8765a4dda9c2);
}

#[test]
fn hash_streaming_matches_one_shot() {
    let mut h = IndexHasher::new();
    h.write(b"Hash ");
    h.write(b"this !");
    let split = h.finish();
    let whole = make_hash(&IndexHasherBuilder, b"Hash this !");
    assert_eq!(split, whole);
}

#[test]
fn hasher_builder_starts_fresh() {
    let b = IndexHasherBuilder;
    let h1 = b.build_hasher().finish();
    let mut h2 = b.build_hasher();
    h2.write(b"x");
    let h3 = b.build_hasher().finish();
    assert_eq!(h1, h3);
    assert_ne!(h1, h2.finish());
}

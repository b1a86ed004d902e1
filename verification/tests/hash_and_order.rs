use declutter::hash::fnv1a_step;
use declutter::hash::fnv1a_tagged;
use declutter::hash::fnv1a_u32s;

#[test]
fn fnv_empty_is_offset_basis() {
    assert_eq!(fnv1a_u32s(&[]), 2166136261);
}

#[test]
fn fnv_single_byte_matches_reference() {
    // FNV-1a of the single byte 'a'.
    assert_eq!(fnv1a_step(2166136261, 0x61), 0xe40c292c);
}

#[test]
fn fnv_word_feeds_little_endian_bytes() {
    // The word 0x64636261 feeds the bytes "abcd"; FNV-1a("abcd") = 0xce3479bd.
    assert_eq!(fnv1a_u32s(&[0x64636261]), 0xce3479bd);
}

#[test]
fn fnv_tagged_matches_word_hash() {
    let tag = 0x636f_6e74; // "cont"
    assert_eq!(fnv1a_tagged(42, tag, 7), fnv1a_u32s(&[42, tag, 7]));
    assert_eq!(fnv1a_tagged(42, tag, 7), 2191231288);
}

#[test]
fn fnv_depends_on_every_input() {
    let tag = 0x636f_6e74;
    let base = fnv1a_tagged(1, tag, 1);
    assert_ne!(base, fnv1a_tagged(2, tag, 1));
    assert_ne!(base, fnv1a_tagged(1, tag, 2));
    assert_ne!(base, fnv1a_tagged(1, tag + 1, 1));
}

use openscad_rs::stl::{encode_binary_stl, Facet};

#[test]
fn empty_file_is_header_and_zero_count() {
    let bytes = encode_binary_stl(&Vec::new());
    assert_eq!(bytes.len(), 84);
    let text = b"openscad_rs (Manifold) binary STL";
    assert_eq!(&bytes[..text.len()], &text[..]);
    assert!(bytes[text.len()..80].iter().all(|b| *b == 0));
    assert_eq!(&bytes[80..84], &[0, 0, 0, 0]);
}

#[test]
fn facets_are_little_endian_words_and_two_zero_bytes() {
    let one = 1.0f32.to_bits();
    let f = Facet {
        normal: [0, 0, one],
        a: [0x01020304, 0, 0],
        b: [one, 0, 0],
        c: [0, one, 0xffffffff],
    };
    let bytes = encode_binary_stl(&vec![f, f]);
    assert_eq!(bytes.len(), 84 + 2 * 50);
    assert_eq!(&bytes[80..84], &[2, 0, 0, 0]);
    let rec = &bytes[84..134];
    assert_eq!(&rec[8..12], &1.0f32.to_le_bytes());
    assert_eq!(&rec[12..16], &[4, 3, 2, 1]);
    assert_eq!(&rec[44..48], &[0xff, 0xff, 0xff, 0xff]);
    assert_eq!(&rec[48..50], &[0, 0]);
    assert_eq!(&bytes[84..134], &bytes[134..184]);
}

#[test]
fn count_is_read_back_from_the_file() {
    let f = Facet { normal: [0; 3], a: [0; 3], b: [0; 3], c: [0; 3] };
    let facets = vec![f; 300];
    let bytes = encode_binary_stl(&facets);
    let n = u32::from_le_bytes([bytes[80], bytes[81], bytes[82], bytes[83]]);
    assert_eq!(n, 300);
    assert_eq!(bytes.len(), 84 + 300 * 50);
}

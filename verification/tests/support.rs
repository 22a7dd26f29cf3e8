use grotsky::embed::{
    compile_time_random_bytes, embed_script, embedded_script, find_position, new_marker, simple_compile_time_lcg,
    str_fnv1a_hash,
};
use grotsky::value::{slice_bounds, BoolValue, BytesValue, MutValue, StringValue};

fn pattern() -> [u8; 512] {
    let bytes = compile_time_random_bytes(512, 42);
    let mut p = [0u8; 512];
    p.copy_from_slice(&bytes);
    p
}

#[test]
fn lcg_step() {
    assert_eq!(simple_compile_time_lcg(0), 1013904223);
    assert_eq!(simple_compile_time_lcg(1), 1664525 + 1013904223);
    assert_eq!(simple_compile_time_lcg(u64::MAX), 1013904223u64.wrapping_sub(1664525));
}

#[test]
fn fnv1a_known_values() {
    assert_eq!(str_fnv1a_hash(b""), 0xcbf29ce484222325);
    assert_eq!(str_fnv1a_hash(b"a"), 0xaf63dc4c8601ec8c);
}

#[test]
fn random_bytes_are_little_endian_lcg_states() {
    let bytes = compile_time_random_bytes(10, 0);
    assert_eq!(bytes.len(), 10);
    let first = simple_compile_time_lcg(0).to_le_bytes();
    let second = simple_compile_time_lcg(simple_compile_time_lcg(0)).to_le_bytes();
    assert_eq!(&bytes[0..8], &first[..]);
    assert_eq!(&bytes[8..10], &second[0..2]);
}

#[test]
fn marker_starts_not_embedded() {
    let m = new_marker(7);
    assert_eq!(m.magic_pattern.len(), 512);
    assert_eq!(m.is_embedded, 0);
    assert_eq!(m.magic_pattern, compile_time_random_bytes(512, 7));
}

#[test]
fn find_position_finds_first_occurrence() {
    let p = pattern();
    let mut hay = vec![1u8, 2, 3];
    hay.extend_from_slice(&p);
    hay.extend_from_slice(&p);
    assert_eq!(find_position(&hay, &p), Some(3));
    assert_eq!(find_position(&vec![1u8, 2, 3], &p), None);
}

#[test]
fn embedded_script_is_extracted_again() {
    let p = pattern();
    let mut exe = vec![9u8; 100];
    exe.extend_from_slice(&p);
    exe.push(0);
    exe.extend_from_slice(&[5u8; 50]);
    let compiled = vec![1u8, 2, 3, 4];
    let out = embed_script(exe.clone(), &p, compiled.clone()).unwrap();
    assert_eq!(out[100 + 512], 1);
    assert_eq!(out.len(), exe.len() + 512 + compiled.len());
    assert_eq!(embedded_script(&out, &p), Some(compiled));
}

#[test]
fn embed_without_marker_gives_nothing() {
    let p = pattern();
    assert_eq!(embed_script(vec![0u8; 10], &p, vec![1]), None);
    assert_eq!(embedded_script(&vec![0u8; 10], &p), None);
}

#[test]
fn slice_bounds_defaults() {
    assert_eq!(slice_bounds(None, None, Some(0)), Some((0, usize::MAX, 1)));
    assert_eq!(slice_bounds(Some(2), Some(5), Some(3)), Some((2, 5, 3)));
    assert_eq!(slice_bounds(Some(2), None, None), None);
}

#[test]
fn bytes_index_and_slice() {
    let b = BytesValue { s: vec![10, 11, 12, 13, 14, 15] };
    assert_eq!(b.access_index(2).s, vec![12]);
    assert_eq!(b.access_slice(1, 5, 2).s, vec![11, 13]);
    assert_eq!(b.access_slice(0, usize::MAX, 1).s, b.s);
    assert_eq!(b.access_slice(0, usize::MAX, 7).s, Vec::<u8>::new());
    assert_eq!(b.access_slice(4, 2, 1).s, Vec::<u8>::new());
}

#[test]
fn string_index_and_slice() {
    let s = StringValue { s: "grotsky".to_string() };
    assert_eq!(s.access_index(0).s, "g");
    assert_eq!(s.access_slice(1, 4, 1).s, "rot");
    assert_eq!(s.access_slice(0, usize::MAX, 2).s, "gosy");
    assert_eq!(s.access_slice(0, usize::MAX, 8).s, "");
}

#[test]
fn shared_cells_are_shared() {
    let cell = MutValue::new(BoolValue { b: false });
    let other = cell.clone();
    other.0.borrow_mut().b = true;
    assert!(cell.0.borrow().b);
}

use steamws::mdl::binary;

fn put_u32(buf: &mut Vec<u8>, off: usize, v: u32) {
    buf[off] = (v & 0xff) as u8;
    buf[off + 1] = ((v >> 8) & 0xff) as u8;
    buf[off + 2] = ((v >> 16) & 0xff) as u8;
    buf[off + 3] = ((v >> 24) & 0xff) as u8;
}

fn put_u16(buf: &mut Vec<u8>, off: usize, v: u16) {
    buf[off] = (v & 0xff) as u8;
    buf[off + 1] = ((v >> 8) & 0xff) as u8;
}

fn put_str(buf: &mut Vec<u8>, off: usize, s: &str) {
    for (i, b) in s.bytes().enumerate() {
        buf[off + i] = b;
    }
    buf[off + s.len()] = 0;
}

/// A minimal model: one texture name, one directory, one 1x1 skin table.
fn sample_model() -> Vec<u8> {
    let mut buf = vec![0u8; 320];
    put_str(&mut buf, 0, "IDST");
    put_u32(&mut buf, 4, 44); // version (overwrites the magic's terminator)
    put_u32(&mut buf, 8, 0); // checksum
    put_str(&mut buf, 12, "models/m.mdl");
    put_u32(&mut buf, 172, 1); // texture_count
    put_u32(&mut buf, 176, 200); // texture_offset
    put_u32(&mut buf, 180, 1); // texturedir_count
    put_u32(&mut buf, 184, 280); // texturedir_offset
    put_u32(&mut buf, 188, 1); // skinreference_count
    put_u32(&mut buf, 192, 1); // skinfamily_count
    put_u32(&mut buf, 196, 300); // skinreference_index
    put_u32(&mut buf, 200, 64); // texture entry 0: relative name offset
    put_str(&mut buf, 264, "brick");
    put_u32(&mut buf, 280, 284); // directory entry 0: absolute offset
    put_str(&mut buf, 284, "models/");
    put_u16(&mut buf, 300, 0); // skin table cell
    buf
}

#[test]
fn decodes_sample_model() {
    let buf = sample_model();
    let m = binary::read(&buf).unwrap();
    assert_eq!(m.name, "models/m.mdl");
    assert_eq!(m.texture_names, vec!["brick".to_string()]);
    assert_eq!(m.texture_dirs, vec!["models/".to_string()]);
    assert_eq!(m.skin_count, 1);
    assert_eq!(m.texture_slot_count, 1);
    assert_eq!(m.skins.len(), 1);
    assert_eq!(m.skins[0].0, vec![0u16]);
}

#[test]
fn rejects_wrong_magic() {
    let mut buf = sample_model();
    buf[0] = b'X';
    match binary::read(&buf) {
        Err(binary::Error::InvalidHeader) => (),
        _ => panic!("expected an invalid header error"),
    }
}

#[test]
fn rejects_truncated_header() {
    let buf = vec![b'I', b'D', b'S', b'T', 0, 0, 0];
    match binary::read(&buf) {
        Err(binary::Error::Io) => (),
        _ => panic!("expected a failed read"),
    }
}

#[test]
fn rejects_empty_buffer() {
    let buf: Vec<u8> = Vec::new();
    match binary::read(&buf) {
        Err(binary::Error::Io) => (),
        _ => panic!("expected a failed read"),
    }
}

#[test]
fn rejects_texture_entry_out_of_range() {
    let mut buf = sample_model();
    put_u32(&mut buf, 176, 5000); // texture_offset far past the end
    match binary::read(&buf) {
        Err(binary::Error::Io) => (),
        _ => panic!("expected a failed read"),
    }
}

#[test]
fn rejects_skin_table_out_of_range() {
    let mut buf = sample_model();
    put_u32(&mut buf, 196, 319); // one byte left, two needed
    match binary::read(&buf) {
        Err(binary::Error::Io) => (),
        _ => panic!("expected a failed read"),
    }
}

#[test]
fn zero_skin_families_yield_zero_skins() {
    let mut buf = sample_model();
    put_u32(&mut buf, 192, 0); // skinfamily_count
    let m = binary::read(&buf).unwrap();
    assert_eq!(m.skin_count, 0);
    assert_eq!(m.texture_slot_count, 0);
    assert!(m.skins.is_empty());
}

#[test]
fn missing_name_terminator_yields_empty_name() {
    let mut buf = sample_model();
    for i in 12..76 {
        buf[i] = b'x';
    }
    let m = binary::read(&buf).unwrap();
    assert_eq!(m.name, "");
}

/// A model with a 4x2 skin table (4 references, 2 families), family-major
/// on disk.
fn skin_model(cells: &[u16]) -> Vec<u8> {
    assert_eq!(cells.len(), 8);
    let mut buf = sample_model();
    put_u32(&mut buf, 188, 4); // skinreference_count
    put_u32(&mut buf, 192, 2); // skinfamily_count
    for (i, v) in cells.iter().enumerate() {
        put_u16(&mut buf, 300 + 2 * i, *v);
    }
    buf
}

#[test]
fn uniform_skin_table_compacts_to_one_slot() {
    // both families identical, and rows 1..3 repeat values of row 0
    let m = binary::read(&skin_model(&[0, 0, 0, 0, 0, 0, 0, 0])).unwrap();
    assert_eq!(m.texture_slot_count, 1);
    assert_eq!(m.skins.len(), 2);
    assert_eq!(m.skins[0].0, vec![0u16]);
    assert_eq!(m.skins[1].0, vec![0u16]);
}

#[test]
fn differing_row_keeps_slots() {
    // row 2 differs across the families: slots 0..=2 stay
    let m = binary::read(&skin_model(&[0, 0, 0, 0, 0, 0, 1, 0])).unwrap();
    assert_eq!(m.texture_slot_count, 3);
    assert_eq!(m.skins[0].0, vec![0, 0, 0]);
    assert_eq!(m.skins[1].0, vec![0, 0, 1]);
}

#[test]
fn fresh_index_keeps_slots() {
    // rows never differ across families, but row 1 introduces index 1
    let m = binary::read(&skin_model(&[0, 1, 0, 0, 0, 1, 0, 0])).unwrap();
    assert_eq!(m.texture_slot_count, 2);
    assert_eq!(m.skins[0].0, vec![0, 1]);
    assert_eq!(m.skins[1].0, vec![0, 1]);
}

#[test]
fn compact_skin_table_directly() {
    // 2 families, 3 references, flat family-major
    let flat = vec![5u16, 0, 0, 5, 1, 0];
    let (slots, skins) = binary::compact_skin_table(&flat, 2, 3);
    // row 1 differs (0 vs 1) and introduces index 1; row 2 adds nothing
    assert_eq!(slots, 2);
    assert_eq!(skins.len(), 2);
    assert_eq!(skins[0].0, vec![5, 0]);
    assert_eq!(skins[1].0, vec![5, 1]);
}

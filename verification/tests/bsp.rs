use steamws::bsp;
use steamws::bsp::buffered_bsp::BufferedBSP;
use steamws::bsp::counting_read::CountingRead;
use steamws::bsp::{BSPHeader, Lump, BSP_HEADER_LEN, BSP_LUMP_COUNT};

fn header_with(lumps: Vec<Lump>) -> BSPHeader {
    BSPHeader { version: 20, lumps, map_revision: 3 }
}

fn lump(off: u32, len: u32) -> Lump {
    Lump { off, len, version: 0, ident: 0 }
}

#[test]
fn lump_slice_reads_rebased_range() {
    let bsp = BufferedBSP {
        header: header_with(vec![lump(BSP_HEADER_LEN + 2, 3)]),
        data_without_header: vec![10, 11, 12, 13, 14, 15],
    };
    assert_eq!(bsp.lump_slice(0), &[12, 13, 14]);
}

#[test]
fn lump_before_header_end_is_empty() {
    let bsp = BufferedBSP {
        header: header_with(vec![lump(0, 5)]),
        data_without_header: vec![1, 2, 3],
    };
    assert_eq!(bsp.lump_slice(0), &[] as &[u8]);
}

#[test]
fn replace_lump_splices_and_shifts_offsets() {
    let mut bsp = BufferedBSP {
        header: header_with(vec![
            lump(BSP_HEADER_LEN, 2),
            lump(BSP_HEADER_LEN + 2, 3),
        ]),
        data_without_header: vec![1, 2, 3, 4, 5],
    };
    bsp.replace_lump(0, vec![7, 8, 9, 10]);
    assert_eq!(bsp.data_without_header, vec![7, 8, 9, 10, 3, 4, 5]);
    assert_eq!(bsp.header.lumps[0].len, 4);
    assert_eq!(bsp.header.lumps[0].off, BSP_HEADER_LEN);
    // the second lump moved by the length difference
    assert_eq!(bsp.header.lumps[1].off, BSP_HEADER_LEN + 4);
    assert_eq!(bsp.header.lumps[1].len, 3);
    assert_eq!(bsp.lump_slice(1), &[3, 4, 5]);
}

#[test]
fn replace_lump_with_shorter_data() {
    let mut bsp = BufferedBSP {
        header: header_with(vec![
            lump(BSP_HEADER_LEN, 3),
            lump(BSP_HEADER_LEN + 3, 2),
        ]),
        data_without_header: vec![1, 2, 3, 4, 5],
    };
    bsp.replace_lump(0, vec![9]);
    assert_eq!(bsp.data_without_header, vec![9, 4, 5]);
    assert_eq!(bsp.header.lumps[1].off, BSP_HEADER_LEN + 1);
}

#[test]
fn lump_count_matches_format() {
    assert_eq!(BSP_LUMP_COUNT, 64);
    assert_eq!(BSP_HEADER_LEN, 1036);
}

#[test]
fn counting_read_counts_bytes() {
    let data: Vec<u8> = vec![1, 2, 3];
    let mut cr = CountingRead::new(data);
    assert_eq!(cr.bytes_read(), 0);
    cr.add_bytes(2);
    cr.add_bytes(1);
    assert_eq!(cr.bytes_read(), 3);
    let back = cr.into_inner();
    assert_eq!(back, vec![1, 2, 3]);
}

fn sample_container() -> Vec<u8> {
    let mut bytes = vec![0u8; BSP_HEADER_LEN as usize + 3];
    bytes[0] = b'V';
    bytes[1] = b'B';
    bytes[2] = b'S';
    bytes[3] = b'P';
    bytes[4] = 20; // version
    // lump 5 begins at 8 + 16*5 = 88: off, len, version, ident
    bytes[88] = 0x0c;
    bytes[89] = 0x04; // off = 1036
    bytes[92] = 3; // len
    bytes[96] = 1; // version
    bytes[100] = 9; // ident
    bytes[1032] = 7; // map revision
    bytes[1036] = 41;
    bytes[1037] = 42;
    bytes[1038] = 43;
    bytes
}

#[test]
fn parses_container_header() {
    let bytes = sample_container();
    let h = bsp::parse_header(&bytes).unwrap();
    assert_eq!(h.version, 20);
    assert_eq!(h.map_revision, 7);
    assert_eq!(h.lumps.len(), BSP_LUMP_COUNT);
    assert_eq!(h.lumps[5].off, 1036);
    assert_eq!(h.lumps[5].len, 3);
    assert_eq!(h.lumps[5].version, 1);
    assert_eq!(h.lumps[5].ident, 9);
    assert_eq!(h.lumps[0].off, 0);
}

#[test]
fn rejects_wrong_container_ident() {
    let mut bytes = sample_container();
    bytes[0] = b'X';
    match bsp::parse_header(&bytes) {
        Err(bsp::Error::InvalidHeader) => (),
        _ => panic!("expected an invalid header error"),
    }
}

#[test]
fn rejects_short_container() {
    let bytes = vec![b'V', b'B', b'S', b'P', 0, 0];
    match bsp::parse_header(&bytes) {
        Err(bsp::Error::Io) => (),
        _ => panic!("expected a failed read"),
    }
}

#[test]
fn container_round_trips_through_bytes() {
    let bytes = sample_container();
    let h = bsp::parse_header(&bytes).unwrap();
    let bsp = BufferedBSP { header: h, data_without_header: vec![41, 42, 43] };
    assert_eq!(bsp.to_bytes(), bytes);
    assert_eq!(bsp.lump_slice(5), &[41, 42, 43]);
}

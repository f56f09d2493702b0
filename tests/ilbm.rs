use color_cycle::color::Rgb;
use color_cycle::ilbm::{ErrorKind, FileType, CMAP, CRNG, CCRT, CAMG, BMHD, ILBM};
use color_cycle::image::CycleImage;

fn chunk(tag: &[u8; 4], payload: &[u8]) -> Vec<u8> {
    let mut out = tag.to_vec();
    out.extend_from_slice(&(payload.len() as u32).to_be_bytes());
    out.extend_from_slice(payload);
    if payload.len() % 2 == 1 {
        out.push(0);
    }
    out
}

fn form(kind: &[u8; 4], chunks: &[Vec<u8>]) -> Vec<u8> {
    let body: Vec<u8> = chunks.concat();
    let mut out = b"FORM".to_vec();
    out.extend_from_slice(&((body.len() + 4) as u32).to_be_bytes());
    out.extend_from_slice(kind);
    out.extend_from_slice(&body);
    out
}

fn bmhd(width: u16, height: u16, planes: u8, mask: u8, compression: u8) -> Vec<u8> {
    let mut p = Vec::new();
    p.extend_from_slice(&width.to_be_bytes());
    p.extend_from_slice(&height.to_be_bytes());
    p.extend_from_slice(&(-3i16).to_be_bytes());
    p.extend_from_slice(&7i16.to_be_bytes());
    p.push(planes);
    p.push(mask);
    p.push(compression);
    p.push(0);
    p.extend_from_slice(&5u16.to_be_bytes());
    p.push(10);
    p.push(11);
    p.extend_from_slice(&320i16.to_be_bytes());
    p.extend_from_slice(&200i16.to_be_bytes());
    chunk(b"BMHD", &p)
}

fn cmap(colors: &[[u8; 3]]) -> Vec<u8> {
    chunk(b"CMAP", &colors.concat())
}

/// Literal runs of at most 128 bytes.
fn encode_literal(row: &[u8]) -> Vec<u8> {
    let mut out = Vec::new();
    for part in row.chunks(128) {
        out.push((part.len() - 1) as u8);
        out.extend_from_slice(part);
    }
    out
}

fn pixels(ilbm: &ILBM) -> Vec<u8> {
    ilbm.body().unwrap().pixels().to_vec()
}

#[test]
fn planar_row_reads_pixel_zero_from_the_top_bit() {
    let data = form(
        b"ILBM",
        &[bmhd(4, 1, 2, 0, 0), cmap(&[[0, 0, 0], [255, 0, 0]]), chunk(b"BODY", &[0b1010_0000, 0, 0b0011_0000, 0])],
    );
    let ilbm = ILBM::read(&data).unwrap();
    assert_eq!(ilbm.file_type(), FileType::ILBM);
    assert_eq!(pixels(&ilbm), vec![0b01, 0b00, 0b11, 0b10]);
    let image = CycleImage::read_ilbm(&data).unwrap();
    assert_eq!(image.indexed_image().data(), &[1, 0, 3, 2]);
    assert_eq!(image.palette().get(1), Rgb([255, 0, 0]));
    assert_eq!(image.palette().get(2), Rgb([0, 0, 0]));
}

#[test]
fn header_fields_are_read_big_endian() {
    let data = form(b"ILBM", &[bmhd(300, 2, 8, 0, 1), cmap(&[[1, 2, 3]])]);
    let ilbm = ILBM::read(&data).unwrap();
    let h: &BMHD = ilbm.header();
    assert_eq!((h.width(), h.height()), (300, 2));
    assert_eq!((h.x_origin(), h.y_origin()), (-3, 7));
    assert_eq!((h.num_planes(), h.mask(), h.compression(), h.flags()), (8, 0, 1, 0));
    assert_eq!(h.trans_color(), 5);
    assert_eq!((h.x_aspect(), h.y_aspect()), (10, 11));
    assert_eq!((h.page_width(), h.page_heigth()), (320, 200));
    assert!(ilbm.body().is_none());
}

#[test]
fn missing_header_is_a_broken_file() {
    let data = form(b"ILBM", &[cmap(&[[1, 2, 3]; 10])]);
    let err = ILBM::read(&data).unwrap_err();
    assert_eq!(err.kind(), ErrorKind::BrokenFile);
    assert_eq!(err.message(), "BMHD chunk missing");
}

#[test]
fn unknown_chunks_without_header_report_the_missing_header() {
    let mut data = b"FORM".to_vec();
    data.extend_from_slice(&[0, 0, 0, 40]);
    data.extend_from_slice(b"ILBM");
    data.extend_from_slice(b"ABCD");
    data.extend_from_slice(&[0, 0, 0, 28]);
    data.extend_from_slice(&[0u8; 28]);
    let err = ILBM::read(&data).unwrap_err();
    assert_eq!(err.kind(), ErrorKind::BrokenFile);
    assert_eq!(err.message(), "BMHD chunk missing");
    // a pixel chunk before any header fails without decoding its payload
    let data = form(b"ILBM", &[chunk(b"BODY", &[0xFF; 40])]);
    assert_eq!(ILBM::read(&data).unwrap_err().message(), "BMHD chunk missing");
}

/// PackBits-style: repeat packets for runs of three or more, literals otherwise.
fn encode_packbits(row: &[u8]) -> Vec<u8> {
    let mut out = Vec::new();
    let mut i = 0;
    while i < row.len() {
        let mut run = 1;
        while i + run < row.len() && run < 128 && row[i + run] == row[i] {
            run += 1;
        }
        if run >= 3 {
            out.push((257 - run) as u8);
            out.push(row[i]);
            i += run;
        } else {
            let start = i;
            while i < row.len() && i - start < 128 {
                if i + 2 < row.len() && row[i] == row[i + 1] && row[i] == row[i + 2] {
                    break;
                }
                i += 1;
            }
            out.push((i - start - 1) as u8);
            out.extend_from_slice(&row[start..i]);
        }
    }
    out
}

#[test]
fn packbits_rows_round_trip() {
    // PBM, 8 bits per pixel, width 48: rows of 48 bytes
    let rows: Vec<Vec<u8>> = vec![
        (0..48).map(|x| if x < 20 { 5 } else { x as u8 }).collect(),
        vec![9; 48],
        (0..48).map(|x| (x / 4) as u8).collect(),
    ];
    let packed: Vec<u8> = rows.iter().flat_map(|r| encode_packbits(r)).collect();
    let plain: Vec<u8> = rows.concat();
    let a = ILBM::read(&form(b"PBM ", &[bmhd(48, 3, 8, 0, 1), chunk(b"BODY", &packed)])).unwrap();
    let b = ILBM::read(&form(b"PBM ", &[bmhd(48, 3, 8, 0, 0), chunk(b"BODY", &plain)])).unwrap();
    assert_eq!(pixels(&a), plain);
    assert_eq!(pixels(&a), pixels(&b));
}

#[test]
fn color_map_of_nine_bytes_has_three_colors() {
    let cm = CMAP::read(&[1, 2, 3, 4, 5, 6, 7, 8, 9]);
    assert_eq!(cm.colors(), &[Rgb([1, 2, 3]), Rgb([4, 5, 6]), Rgb([7, 8, 9])]);
    let data = form(
        b"ILBM",
        &[bmhd(1, 1, 1, 0, 0), cmap(&[[1, 2, 3], [4, 5, 6], [7, 8, 9]]), chunk(b"CRNG", &[0, 0, 0, 9, 0, 1, 4, 8])],
    );
    let ilbm = ILBM::read(&data).unwrap();
    assert_eq!(ilbm.cmaps().len(), 1);
    assert_eq!(ilbm.cmaps()[0].colors().len(), 3);
    // the range chunk right after the padded color map is read in full
    assert_eq!(ilbm.crngs().len(), 1);
    assert_eq!((ilbm.crngs()[0].rate(), ilbm.crngs()[0].low(), ilbm.crngs()[0].high()), (9, 4, 8));
}

#[test]
fn color_map_leftover_bytes_are_padding() {
    let cm = CMAP::read(&[1, 2, 3, 4, 5]);
    assert_eq!(cm.colors(), &[Rgb([1, 2, 3])]);
    assert!(CMAP::read(&[]).colors().is_empty());
}

#[test]
fn run_length_rows_round_trip() {
    let rows: Vec<Vec<u8>> = (0..3u8).map(|y| (0..200u8).map(|x| x.wrapping_mul(7).wrapping_add(y)).collect()).collect();
    // 8 planes, width 100: plane rows of 14 bytes, 112 bytes per row
    let width = 100u16;
    let line_len = 8 * ((width as usize + 15) / 16 * 2);
    let rows: Vec<Vec<u8>> = rows.iter().map(|r| r[..line_len].to_vec()).collect();
    let mut packed = Vec::new();
    let mut plain = Vec::new();
    for row in &rows {
        packed.extend(encode_literal(row));
        plain.extend_from_slice(row);
    }
    let compressed = form(b"ILBM", &[bmhd(width, 3, 8, 0, 1), chunk(b"BODY", &packed)]);
    let uncompressed = form(b"ILBM", &[bmhd(width, 3, 8, 0, 0), chunk(b"BODY", &plain)]);
    let a = ILBM::read(&compressed).unwrap();
    let b = ILBM::read(&uncompressed).unwrap();
    assert_eq!(pixels(&a), pixels(&b));
    assert_eq!(pixels(&a).len(), 300);
}

#[test]
fn run_length_repeats_and_end_marker() {
    // PBM, 8 bits per pixel, width 16: rows of 16 bytes
    let row1 = [0xFDu8, 7, 2, 1, 2, 3, 0xF9, 9, 0x00, 4];
    let row2 = [1u8, 5, 6, 128];
    let mut body = row1.to_vec();
    body.extend_from_slice(&row2);
    let data = form(b"PBM ", &[bmhd(16, 2, 8, 0, 1), chunk(b"BODY", &body)]);
    let ilbm = ILBM::read(&data).unwrap();
    let mut expected = vec![7, 7, 7, 7, 1, 2, 3, 9, 9, 9, 9, 9, 9, 9, 9, 4];
    expected.extend_from_slice(&[5, 6, 0, 0, 0, 0, 0, 0, 0, 0, 0, 0, 0, 0, 0, 0]);
    assert_eq!(pixels(&ilbm), expected);
}

#[test]
fn run_past_the_row_is_a_broken_file() {
    let data = form(b"PBM ", &[bmhd(16, 1, 8, 0, 1), chunk(b"BODY", &[0x80 + 0x70, 1, 0, 0])]);
    let err = ILBM::read(&data).unwrap_err();
    assert_eq!(err.kind(), ErrorKind::BrokenFile);
    assert_eq!(err.message(), "broken BODY compression in row 0, row length 16");
    let short = form(b"PBM ", &[bmhd(16, 1, 8, 0, 1), chunk(b"BODY", &[0x0F, 1, 2])]);
    assert_eq!(ILBM::read(&short).unwrap_err().kind(), ErrorKind::BrokenFile);
}

#[test]
fn word_compressed_planes_run_down_columns() {
    // width 16, height 2, one plane: the stream runs down the 16-pixel column,
    // one word per row.
    // commands at 2..4: -1 (copy one word), 2 (repeat the next word twice)
    let mut vdat = Vec::new();
    vdat.extend_from_slice(&4u16.to_be_bytes());
    vdat.push(0xFF);
    vdat.push(2);
    vdat.extend_from_slice(&[0b1000_0000, 0b0000_0001]);
    vdat.extend_from_slice(&[0b0100_0000, 0b0000_0000]);
    let mut body = b"VDAT".to_vec();
    body.extend_from_slice(&(vdat.len() as u32).to_be_bytes());
    body.extend_from_slice(&vdat);
    let data = form(b"ILBM", &[bmhd(16, 2, 1, 0, 2), chunk(b"BODY", &body)]);
    let ilbm = ILBM::read(&data).unwrap();
    let mut expected = vec![0u8; 32];
    expected[0] = 1; // word 0 -> row 0
    expected[15] = 1;
    expected[16 + 1] = 1; // word 1 -> row 1
    assert_eq!(pixels(&ilbm), expected);
}

#[test]
fn word_compressed_count_commands() {
    // width 32, height 1, two planes.
    // plane 0: command 0 reads a count of 2 and copies two words.
    let mut p0 = Vec::new();
    p0.extend_from_slice(&3u16.to_be_bytes());
    p0.push(0);
    p0.extend_from_slice(&2u16.to_be_bytes());
    p0.extend_from_slice(&[0xFF, 0x00, 0x00, 0x80]);
    // plane 1: command 1 reads a count of 2 and repeats the next word.
    let mut p1 = Vec::new();
    p1.extend_from_slice(&3u16.to_be_bytes());
    p1.push(1);
    p1.extend_from_slice(&2u16.to_be_bytes());
    p1.extend_from_slice(&[0x80, 0x01]);
    let mut body = Vec::new();
    for p in [&p0, &p1] {
        body.extend_from_slice(b"VDAT");
        body.extend_from_slice(&(p.len() as u32).to_be_bytes());
        body.extend_from_slice(p);
    }
    let data = form(b"ILBM", &[bmhd(32, 1, 2, 0, 2), chunk(b"BODY", &body)]);
    let ilbm = ILBM::read(&data).unwrap();
    let px = pixels(&ilbm);
    let mut expected = vec![0u8; 32];
    for x in 0..8 {
        expected[x] |= 1;
    }
    expected[24] |= 1;
    for x in [0usize, 15, 16, 31] {
        expected[x] |= 2;
    }
    assert_eq!(px, expected);
}

#[test]
fn word_compressed_needs_vdat_tags() {
    let data = form(b"ILBM", &[bmhd(16, 1, 1, 0, 2), chunk(b"BODY", b"XDAT\0\0\0\x04\0\x02\0\0")]);
    assert_eq!(ILBM::read(&data).unwrap_err().kind(), ErrorKind::BrokenFile);
}

#[test]
fn chunky_pixels_of_one_four_and_eight_bits() {
    let data = form(b"PBM ", &[bmhd(10, 1, 1, 0, 0), chunk(b"BODY", &[0b0000_0101, 0b0000_0010, 0, 0])]);
    assert_eq!(pixels(&ILBM::read(&data).unwrap()), vec![1, 0, 1, 0, 0, 0, 0, 0, 0, 1]);
    let mut row = vec![0x21u8, 0x43, 0x05];
    row.resize(8, 0);
    let data = form(b"PBM ", &[bmhd(5, 1, 4, 0, 0), chunk(b"BODY", &row)]);
    assert_eq!(pixels(&ILBM::read(&data).unwrap()), vec![1, 2, 3, 4, 5]);
    let mut row: Vec<u8> = (10..19).collect();
    row.resize(32, 0);
    let data = form(b"PBM ", &[bmhd(3, 1, 8, 0, 0), chunk(b"BODY", &row[..16])]);
    assert_eq!(pixels(&ILBM::read(&data).unwrap()), vec![10, 11, 12]);
}

#[test]
fn mask_plane_is_kept_bit_by_bit() {
    // width 3, one plane and a mask: 2 bytes of pixels, 2 of mask per row
    let data = form(b"ILBM", &[bmhd(3, 2, 1, 1, 0), chunk(b"BODY", &[0b1010_0000, 0, 0b0000_0101, 0, 0b0100_0000, 0, 0b0000_0010, 0])]);
    let ilbm = ILBM::read(&data).unwrap();
    assert_eq!(pixels(&ilbm), vec![1, 0, 1, 0, 1, 0]);
    let mask = ilbm.body().unwrap().mask().unwrap();
    let bits: Vec<bool> = (0..mask.len()).map(|i| mask.get(i).unwrap()).collect();
    assert_eq!(bits, vec![true, false, true, false, true, false]);
}

#[test]
fn unsupported_inputs() {
    let mut data = form(b"ILBM", &[bmhd(1, 1, 1, 0, 0), cmap(&[[0, 0, 0]; 3])]);
    data[0] = b'X';
    assert_eq!(ILBM::read(&data).unwrap_err().kind(), ErrorKind::UnsupportedFileFormat);
    let data = form(b"ACBM", &[bmhd(1, 1, 1, 0, 0), cmap(&[[0, 0, 0]; 3])]);
    assert_eq!(ILBM::read(&data).unwrap_err().kind(), ErrorKind::UnsupportedFileFormat);
    let data = form(b"ILBM", &[bmhd(1, 1, 1, 0, 3), chunk(b"BODY", &[0, 0])]);
    let err = ILBM::read(&data).unwrap_err();
    assert_eq!(err.kind(), ErrorKind::UnsupportedFileFormat);
    assert_eq!(err.message(), "unsupported compression flag: 3");
    let data = form(b"ILBM", &[bmhd(1, 1, 1, 0, 0)]);
    let err = ILBM::read(&data).unwrap_err();
    assert_eq!(err.kind(), ErrorKind::UnsupportedFileFormat);
    assert_eq!(err.message(), "file too short");
    let data = form(b"PBM ", &[bmhd(1, 1, 2, 0, 0), chunk(b"BODY", &[0, 0, 0, 0])]);
    let err = ILBM::read(&data).unwrap_err();
    assert_eq!(err.kind(), ErrorKind::BrokenFile);
    assert_eq!(err.message(), "unsupported number of bit planes: 2");
}

#[test]
fn short_and_misordered_chunks_are_broken() {
    let data = form(b"ILBM", &[chunk(b"BMHD", &[0; 10]), cmap(&[[0, 0, 0]; 8])]);
    let err = ILBM::read(&data).unwrap_err();
    assert_eq!(err.kind(), ErrorKind::BrokenFile);
    assert_eq!(err.message(), "truncated BMHD chunk: 10 < 20");
    let data = form(b"ILBM", &[chunk(b"BODY", &[0; 4]), bmhd(4, 1, 2, 0, 0)]);
    let err = ILBM::read(&data).unwrap_err();
    assert_eq!(err.kind(), ErrorKind::BrokenFile);
    assert_eq!(err.message(), "BMHD chunk missing");
    let data = form(b"ILBM", &[bmhd(16, 4, 8, 0, 0), chunk(b"BODY", &[0; 20])]);
    let err = ILBM::read(&data).unwrap_err();
    assert_eq!(err.kind(), ErrorKind::BrokenFile);
    assert_eq!(err.message(), "truncated BODY chunk: 20 < 64");
    let err = CRNG::read(&[0; 7]).unwrap_err();
    assert_eq!(err.message(), "truncated CRNG chunk: 7 < 8");
    assert_eq!(CAMG::read(&[0; 3]).unwrap_err().message(), "truncated CAMG chunk: 3 < 4");
    assert_eq!(CCRT::read(&[0; 13]).unwrap_err().message(), "truncated CCRT chunk: 13 < 14");
    assert_eq!(CRNG::read(&[0; 7]).unwrap_err().kind(), ErrorKind::BrokenFile);
    assert_eq!(CAMG::read(&[0; 3]).unwrap_err().kind(), ErrorKind::BrokenFile);
    assert_eq!(CCRT::read(&[0; 13]).unwrap_err().kind(), ErrorKind::BrokenFile);
    let mut bad = vec![0u8; 14];
    bad[1] = 2;
    let err = CCRT::read(&bad).unwrap_err();
    assert_eq!(err.kind(), ErrorKind::BrokenFile);
    assert_eq!(err.message(), "invalid CCRT direction: 2");
}

#[test]
fn truncated_data_is_an_io_error() {
    let data = form(b"ILBM", &[bmhd(1, 1, 1, 0, 0), cmap(&[[0, 0, 0]; 3])]);
    assert_eq!(ILBM::read(&data[..data.len() - 3]).unwrap_err().kind(), ErrorKind::IO);
    assert_eq!(ILBM::read(&data[..2]).unwrap_err().kind(), ErrorKind::IO);
    assert_eq!(ILBM::read(&data[..10]).unwrap_err().kind(), ErrorKind::IO);
}

#[test]
fn unknown_chunks_are_skipped() {
    let data = form(
        b"ILBM",
        &[chunk(b"ANNO", b"hello"), bmhd(1, 1, 1, 0, 0), chunk(b"CAMG", &[0, 0, 0x80, 0x04]), chunk(b"DPPS", &[1, 2, 3])],
    );
    let ilbm = ILBM::read(&data).unwrap();
    assert_eq!(ilbm.camg().unwrap().viewport_mode(), 0x8004);
    assert!(ILBM::can_read(&data));
    assert!(!ILBM::can_read(&data[..11]));
}

#[test]
fn cycle_chunks_become_cycles() {
    let mut ccrt = Vec::new();
    ccrt.extend_from_slice(&1i16.to_be_bytes());
    ccrt.push(16);
    ccrt.push(31);
    ccrt.extend_from_slice(&1u32.to_be_bytes());
    ccrt.extend_from_slice(&500_000u32.to_be_bytes());
    ccrt.extend_from_slice(&[0, 0]);
    let mut still = ccrt.clone();
    still[0] = 0;
    still[1] = 0;
    let data = form(
        b"ILBM",
        &[
            bmhd(2, 1, 1, 0, 0),
            chunk(b"CRNG", &[0, 0, 0x0A, 0x00, 0, 3, 1, 5]),
            chunk(b"CRNG", &[0, 0, 0x0A, 0x00, 0, 0, 6, 9]),
            chunk(b"CCRT", &ccrt),
            chunk(b"CCRT", &still),
            chunk(b"BODY", &[0, 0]),
        ],
    );
    let ilbm = ILBM::read(&data).unwrap();
    assert_eq!(ilbm.ccrts()[0].direction(), 1);
    assert_eq!((ilbm.ccrts()[0].low(), ilbm.ccrts()[0].high()), (16, 31));
    assert_eq!((ilbm.ccrts()[0].delay_sec(), ilbm.ccrts()[0].delay_usec()), (1, 500_000));
    assert_eq!(ilbm.crngs()[0].flags(), 3);
    let image = CycleImage::from_ilbm(ilbm).unwrap();
    let cycles = image.cycles();
    assert_eq!(cycles.len(), 2);
    assert_eq!((cycles[0].low(), cycles[0].high(), cycles[0].rate(), cycles[0].reverse()), (1, 5, 2560, true));
    // 1.5 s = 1 500 000 us; 1 500 000 * 8903 / 1 000 000 = 13354
    assert_eq!((cycles[1].low(), cycles[1].high(), cycles[1].rate(), cycles[1].reverse()), (16, 31, 13354, true));
    assert_eq!(image.palette().get(0), Rgb([0, 0, 0]));
}

#[test]
fn adapter_checks_size_and_fills_missing_pixels() {
    let data = form(b"ILBM", &[bmhd(0, 5, 1, 0, 0), cmap(&[[0, 0, 0]; 3])]);
    assert_eq!(CycleImage::read_ilbm(&data).unwrap_err().kind(), ErrorKind::BrokenFile);
    let data = form(b"ILBM", &[bmhd(3, 2, 1, 0, 0), cmap(&[[9, 9, 9]; 3])]);
    let image = CycleImage::read_ilbm(&data).unwrap();
    assert_eq!(image.size(), (3, 2));
    assert_eq!(image.indexed_image().data(), &[0; 6]);
    assert_eq!(image.palette().get(2), Rgb([9, 9, 9]));
    assert_eq!(image.palette().get(3), Rgb([0, 0, 0]));
}

#[test]
fn column_swap_reverses_groups_of_eight() {
    let row: Vec<u8> = (0..10).collect();
    let mut body = Vec::new();
    body.extend_from_slice(&row);
    body.resize(16, 0);
    let data = form(b"PBM ", &[bmhd(10, 1, 8, 0, 0), chunk(b"BODY", &body)]);
    let mut ilbm = ILBM::read(&data).unwrap();
    ilbm.column_swap();
    assert_eq!(pixels(&ilbm), vec![7, 6, 5, 4, 3, 2, 1, 0, 9, 8]);
}

use vsd::mp4::boxes::schm::SchmBox;
use vsd::mp4::boxes::senc::{SencBox, SencSubsample};
use vsd::mp4::boxes::sidx::{SidxBox, SidxRange};
use vsd::mp4::boxes::tenc::TencBox;
use vsd::mp4::boxes::tfdt::TfdtBox;
use vsd::mp4::boxes::trun::TrunBox;
use vsd::mp4::decrypt::reader::Mp4Reader;
use vsd::mp4::error::Error;
use vsd::mp4::parser::{BoxAction, Mp4Parser, MOOF, MOOV, SCHM, SENC, SIDX, TENC, TFDT, TRAF, TRUN};
use vsd::mp4::reader::Reader;

fn bx(typ: &[u8; 4], payload: &[u8]) -> Vec<u8> {
    let mut v = ((8 + payload.len()) as u32).to_be_bytes().to_vec();
    v.extend_from_slice(typ);
    v.extend_from_slice(payload);
    v
}

fn full(typ: &[u8; 4], version: u8, flags: u32, payload: &[u8]) -> Vec<u8> {
    let mut p = vec![version];
    p.extend_from_slice(&flags.to_be_bytes()[1..]);
    p.extend_from_slice(payload);
    bx(typ, &p)
}

#[test]
fn reader_reads_both_endiannesses() {
    let data = [1u8, 2, 3, 4, 5, 6, 7, 8, 0xff, 0xff, 0xff, 0xfe];
    let mut be = Reader::new_big_endian(&data);
    assert_eq!(be.read_u16().unwrap(), 0x0102);
    assert_eq!(be.read_u32().unwrap(), 0x0304_0506);
    assert_eq!(be.get_position(), 6);
    assert!(be.has_more_data());
    assert_eq!(be.read_u16().unwrap(), 0x0708);
    assert_eq!(be.read_i32().unwrap(), -2);
    assert!(!be.has_more_data());
    assert_eq!(be.read_u8(), Err(Error::UnexpectedEof));

    let mut le = Reader::new_little_endian(&data);
    assert_eq!(le.read_u64().unwrap(), 0x0807_0605_0403_0201);
    assert_eq!(le.read_bytes_u16(4).unwrap(), vec![0xffff, 0xfeff]);
    assert_eq!(le.get_length(), 12);
}

#[test]
fn reader_skip_and_bytes() {
    let data = [9u8, 8, 7, 6, 5];
    let mut r = Reader::new_big_endian(&data);
    assert_eq!(r.skip(6), Err(Error::SkipOutOfBounds));
    assert_eq!(r.get_position(), 0);
    assert_eq!(r.skip(2), Ok(()));
    assert_eq!(r.read_bytes_u8(2).unwrap(), vec![7, 6]);
    assert_eq!(r.read_bytes_u16(3).unwrap_err(), Error::UnexpectedEof);
    assert_eq!(r.as_bytes(), &data);
}

#[test]
fn tfdt_versions() {
    let data = [
        full(b"tfdt", 0, 0, &0x1234_5678u32.to_be_bytes()),
        full(b"tfdt", 1, 0, &0x1_0000_0001u64.to_be_bytes()),
    ]
    .concat();
    let (mut boxes, res) = Mp4Parser::new()
        .full_box(TFDT, BoxAction::Emit)
        .parse(&data, false, false);
    assert!(res.is_ok());
    assert_eq!(boxes.len(), 2);
    assert_eq!(TfdtBox::new(&mut boxes[0]).unwrap().base_media_decode_time, 0x1234_5678);
    assert_eq!(TfdtBox::new(&mut boxes[1]).unwrap().base_media_decode_time, 0x1_0000_0001);
}

#[test]
fn parser_walks_children_and_reports_offsets() {
    let tfdt = full(b"tfdt", 0, 0, &7u32.to_be_bytes());
    let traf = bx(b"traf", &tfdt);
    let moof = bx(b"moof", &traf);
    let data = [bx(b"free", &[0; 4]), moof].concat();
    let (boxes, res) = Mp4Parser::new()
        .base_box(MOOF, BoxAction::Children)
        .base_box(TRAF, BoxAction::Children)
        .full_box(TFDT, BoxAction::Emit)
        .parse(&data, false, false);
    assert!(res.is_ok());
    assert_eq!(boxes.len(), 1);
    assert_eq!(boxes[0].box_type, TFDT);
    assert_eq!(boxes[0].start, 12 + 8 + 8);
    assert_eq!(boxes[0].version, Some(0));
    assert_eq!(boxes[0].full_data(), full(b"tfdt", 0, 0, &7u32.to_be_bytes()));
}

#[test]
fn sidx_ranges_are_contiguous() {
    let mut p = Vec::new();
    p.extend_from_slice(&1u32.to_be_bytes()); // reference id
    p.extend_from_slice(&1000u32.to_be_bytes()); // timescale
    p.extend_from_slice(&0u32.to_be_bytes()); // earliest presentation time
    p.extend_from_slice(&100u32.to_be_bytes()); // first offset
    p.extend_from_slice(&0u16.to_be_bytes()); // reserved
    p.extend_from_slice(&2u16.to_be_bytes()); // reference count
    for size in [500u32, 300] {
        p.extend_from_slice(&size.to_be_bytes());
        p.extend_from_slice(&0u32.to_be_bytes());
        p.extend_from_slice(&0u32.to_be_bytes());
    }
    let sidx = full(b"sidx", 0, 0, &p);
    let len = sidx.len() as u64;
    let s = SidxBox::from_init(&sidx, 1000).unwrap().unwrap();
    let first = 1000 + len + 100;
    assert_eq!(
        s.ranges,
        vec![
            SidxRange { start: first, end: first + 499 },
            SidxRange { start: first + 500, end: first + 799 },
        ]
    );
    assert!(SidxBox::from_init(&bx(b"free", &[]), 0).unwrap().is_none());
}

#[test]
fn sidx_zero_timescale_is_refused() {
    let mut p = vec![0u8; 20];
    p[0..4].copy_from_slice(&1u32.to_be_bytes());
    let sidx = full(b"sidx", 0, 0, &p);
    assert_eq!(SidxBox::from_init(&sidx, 0).unwrap_err(), Error::InvalidTimescale);
    let _ = SIDX;
}

#[test]
fn schm_tenc_senc_trun_fields() {
    let schm = full(b"schm", 0, 0, &[b'c', b'b', b'c', b's', 0, 1, 0, 0]);
    let mut tenc_p = vec![0u8, 0x19, 1, 0];
    tenc_p.extend_from_slice(&[0xab; 16]);
    tenc_p.push(8);
    tenc_p.extend_from_slice(&[1, 2, 3, 4, 5, 6, 7, 8]);
    let tenc = full(b"tenc", 1, 0, &tenc_p);
    let mut senc_p = 1u32.to_be_bytes().to_vec();
    senc_p.extend_from_slice(&[9; 8]);
    senc_p.extend_from_slice(&2u16.to_be_bytes());
    senc_p.extend_from_slice(&[0, 5, 0, 0, 0, 16]);
    senc_p.extend_from_slice(&[0, 0, 0, 0, 0, 32]);
    let senc = full(b"senc", 0, 2, &senc_p);
    let mut trun_p = 2u32.to_be_bytes().to_vec();
    trun_p.extend_from_slice(&40u32.to_be_bytes());
    trun_p.extend_from_slice(&10u32.to_be_bytes());
    trun_p.extend_from_slice(&20u32.to_be_bytes());
    let trun = full(b"trun", 0, 0x201, &trun_p);
    let data = [schm, tenc, senc, trun].concat();
    let (mut boxes, res) = Mp4Parser::new()
        .full_box(SCHM, BoxAction::Emit)
        .full_box(TENC, BoxAction::Emit)
        .full_box(SENC, BoxAction::Emit)
        .full_box(TRUN, BoxAction::Emit)
        .parse(&data, false, false);
    assert!(res.is_ok());
    assert_eq!(SchmBox::new(&mut boxes[0]).unwrap().scheme_type, 0x6362_6373);
    let t = TencBox::new(&mut boxes[1]).unwrap();
    assert_eq!((t.crypt_byte_block, t.skip_byte_block), (1, 9));
    assert_eq!((t.is_protected, t.per_sample_iv_size), (1, 0));
    assert_eq!(t.default_kid, [0xab; 16]);
    let mut civ = [0u8; 16];
    civ[..8].copy_from_slice(&[1, 2, 3, 4, 5, 6, 7, 8]);
    assert_eq!(t.constant_iv, Some(civ));
    let s = SencBox::new(&mut boxes[2], 8, None).unwrap();
    assert_eq!(s.samples.len(), 1);
    let mut iv = [0u8; 16];
    iv[..8].copy_from_slice(&[9; 8]);
    assert_eq!(s.samples[0].iv, iv);
    assert_eq!(
        s.samples[0].subsamples,
        vec![
            SencSubsample { bytes_of_clear_data: 5, bytes_of_encrypted_data: 16 },
            SencSubsample { bytes_of_clear_data: 0, bytes_of_encrypted_data: 32 },
        ]
    );
    let r = TrunBox::new(&mut boxes[3]).unwrap();
    assert_eq!(r.data_offset, Some(40));
    assert_eq!(r.sample_data.len(), 2);
    assert_eq!(r.sample_data[0].sample_size, Some(10));
    assert_eq!(r.sample_data[1].sample_size, Some(20));
    assert_eq!(r.sample_data[1].sample_duration, None);
}

#[test]
fn truncated_boxes_report_eof() {
    let senc = full(b"senc", 0, 0, &5u32.to_be_bytes());
    let (mut boxes, _) = Mp4Parser::new()
        .full_box(SENC, BoxAction::Emit)
        .parse(&senc, false, false);
    assert_eq!(SencBox::new(&mut boxes[0], 16, None).unwrap_err(), Error::UnexpectedEof);
    let trun = full(b"trun", 0, 0x100, &3u32.to_be_bytes());
    let (mut boxes, _) = Mp4Parser::new()
        .full_box(TRUN, BoxAction::Emit)
        .parse(&trun, false, false);
    assert_eq!(TrunBox::new(&mut boxes[0]).unwrap_err(), Error::UnexpectedEof);
    let _ = MOOV;
}

#[test]
fn mp4_reader_headers_and_data() {
    let a = bx(b"ftyp", &[1, 2, 3, 4]);
    let h = Mp4Reader::header(&a).unwrap().unwrap();
    assert_eq!(&h.box_type, b"ftyp");
    assert_eq!(h.total_size, 12);
    assert_eq!(h.header_bytes, a[..8].to_vec());
    assert_eq!(h.data(&a[8..]).unwrap(), a);
    assert_eq!(h.data(&a[8..10]).unwrap_err(), Error::UnexpectedEof);

    let mut large = 1u32.to_be_bytes().to_vec();
    large.extend_from_slice(b"mdat");
    large.extend_from_slice(&18u64.to_be_bytes());
    large.extend_from_slice(&[7, 7]);
    let h = Mp4Reader::header(&large).unwrap().unwrap();
    assert_eq!(h.total_size, 18);
    assert_eq!(h.header_bytes.len(), 16);
    assert_eq!(h.data(&large[16..]).unwrap(), large);
    assert_eq!(Mp4Reader::header(&large[..12]).unwrap_err(), Error::UnexpectedEof);
    assert!(Mp4Reader::header(&large[..7]).unwrap().is_none());

    let mut open = 0u32.to_be_bytes().to_vec();
    open.extend_from_slice(b"mdat");
    let h = Mp4Reader::header(&open).unwrap().unwrap();
    assert_eq!(h.data(&[1, 2, 3]).unwrap(), [open.clone(), vec![1, 2, 3]].concat());
}

#[test]
fn boxes_read_from_where_the_reader_stands() {
    let mut payload = vec![0xaa, 0xbb];
    payload.extend_from_slice(&0x0102_0304u32.to_be_bytes());
    let data = full(b"tfdt", 0, 0, &payload);
    let (mut boxes, _) = Mp4Parser::new().full_box(TFDT, BoxAction::Emit).parse(&data, false, false);
    assert_eq!(boxes[0].reader.skip(2), Ok(()));
    assert_eq!(TfdtBox::new(&mut boxes[0]).unwrap().base_media_decode_time, 0x0102_0304);
    assert_eq!(TfdtBox::new(&mut boxes[0]).unwrap_err(), Error::UnexpectedEof);

    let mut p = vec![0xee, 0xee, 0xee];
    p.extend_from_slice(&1u32.to_be_bytes());
    p.extend_from_slice(&1000u32.to_be_bytes());
    p.extend_from_slice(&0u32.to_be_bytes());
    p.extend_from_slice(&10u32.to_be_bytes());
    p.extend_from_slice(&0u16.to_be_bytes());
    p.extend_from_slice(&1u16.to_be_bytes());
    p.extend_from_slice(&64u32.to_be_bytes());
    p.extend_from_slice(&[0; 8]);
    let sidx = full(b"sidx", 0, 0, &p);
    let len = sidx.len() as u64;
    let (mut boxes, _) = Mp4Parser::new().full_box(SIDX, BoxAction::Emit).parse(&sidx, false, false);
    assert_eq!(boxes[0].reader.skip(3), Ok(()));
    let s = SidxBox::new(&mut boxes[0], 0).unwrap();
    assert_eq!(s.ranges, vec![SidxRange { start: len + 10, end: len + 10 + 63 }]);
}

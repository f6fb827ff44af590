use aes::Aes128;
use cipher::{BlockModeEncrypt, KeyIvInit, StreamCipher};
use std::sync::Arc;
use vsd::downloader::enc::{check_unsupported, Decrypter};
use vsd::error::Error as VsdError;
use vsd::mp4::boxes::senc::{SencSample, SencSubsample};
use vsd::mp4::decrypt::cenc::CencDecrypter;
use vsd::mp4::decrypt::cipher::CencProcessor;
use vsd::mp4::decrypt::hls::{HlsAes128Decrypter, HlsSampleAesDecrypter};
use vsd::mp4::decrypt::reader::Mp4Reader;
use vsd::mp4::error::Error;
use vsd::playlist::types::{Key, KeyMethod};

const KEY: [u8; 16] = [
    0x10, 0x32, 0x54, 0x76, 0x98, 0xba, 0xdc, 0xfe, 0x01, 0x23, 0x45, 0x67, 0x89, 0xab, 0xcd, 0xef,
];
const IV: [u8; 16] = [7; 16];

fn ctr_encrypt(key: &[u8; 16], iv: &[u8; 16], data: &mut [u8]) {
    ctr::Ctr128BE::<Aes128>::new(key.into(), iv.into()).apply_keystream(data);
}

fn cbc_encrypt_blocks(key: &[u8; 16], iv: &[u8; 16], data: &[u8]) -> Vec<u8> {
    let mut buf = data.to_vec();
    cbc::Encryptor::<Aes128>::new(key.into(), iv.into())
        .encrypt_padded::<cipher::block_padding::NoPadding>(&mut buf, data.len())
        .unwrap()
        .to_vec()
}

fn cbc_encrypt_pkcs7(key: &[u8; 16], iv: &[u8; 16], data: &[u8]) -> Vec<u8> {
    let mut buf = data.to_vec();
    buf.extend_from_slice(&[0u8; 16]);
    cbc::Encryptor::<Aes128>::new(key.into(), iv.into())
        .encrypt_padded::<cipher::block_padding::Pkcs7>(&mut buf, data.len())
        .unwrap()
        .to_vec()
}

fn bx(typ: &[u8; 4], payload: &[u8]) -> Vec<u8> {
    let mut v = ((8 + payload.len()) as u32).to_be_bytes().to_vec();
    v.extend_from_slice(typ);
    v.extend_from_slice(payload);
    v
}

fn full(typ: &[u8; 4], version: u8, flags: u32, payload: &[u8]) -> Vec<u8> {
    let mut p = vec![version];
    p.extend_from_slice(&flags.to_be_bytes()[1..]);
    p.extend_from_slice(payload);
    bx(typ, &p)
}

fn plain(n: usize) -> Vec<u8> {
    (0..n).map(|i| (i * 7 + 3) as u8).collect()
}

#[test]
fn cenc_sample_whole_and_subsamples() {
    let clear = plain(70);
    let mut enc = clear.clone();
    ctr_encrypt(&KEY, &IV, &mut enc);
    let mut p = CencProcessor::new(&KEY, 0, 0, 0x6365_6e63);
    let sample = SencSample { iv: IV, subsamples: vec![] };
    let mut data = enc.clone();
    p.decrypt_sample_inplace(&mut data, &sample);
    assert_eq!(data, clear);

    // Clear bytes of subsamples stay, one key stream runs over the encrypted parts.
    let mut enc_parts: Vec<u8> = [&clear[5..20], &clear[30..70]].concat();
    ctr_encrypt(&KEY, &IV, &mut enc_parts);
    let mut data = [&clear[..5], &enc_parts[..15], &clear[20..30], &enc_parts[15..]].concat();
    let sample = SencSample {
        iv: IV,
        subsamples: vec![
            SencSubsample { bytes_of_clear_data: 5, bytes_of_encrypted_data: 15 },
            SencSubsample { bytes_of_clear_data: 10, bytes_of_encrypted_data: 40 },
        ],
    };
    p.decrypt_sample_inplace(&mut data, &sample);
    assert_eq!(data, clear);
}

#[test]
fn cenc_unknown_scheme_leaves_data() {
    let mut p = CencProcessor::new(&KEY, 1, 9, 0x1234_5678);
    let mut data = plain(40);
    p.decrypt_sample_inplace(&mut data, &SencSample { iv: IV, subsamples: vec![] });
    assert_eq!(data, plain(40));
}

#[test]
fn cens_pattern_decrypts_every_other_block() {
    // One block encrypted, one clear: the key stream runs over blocks 0 and 2.
    let clear = plain(48);
    let mut enc_parts: Vec<u8> = [&clear[0..16], &clear[32..48]].concat();
    ctr_encrypt(&KEY, &IV, &mut enc_parts);
    let mut data = [&enc_parts[..16], &clear[16..32], &enc_parts[16..]].concat();
    let mut p = CencProcessor::new(&KEY, 1, 1, 0x6365_6e73);
    p.decrypt_sample_inplace(&mut data, &SencSample { iv: IV, subsamples: vec![] });
    assert_eq!(data, clear);
}

#[test]
fn cbc1_and_cbcs_samples() {
    let clear = plain(40);
    let mut data = cbc_encrypt_blocks(&KEY, &IV, &clear[..32]);
    data.extend_from_slice(&clear[32..]);
    let mut p = CencProcessor::new(&KEY, 0, 0, 0x6362_6331);
    p.decrypt_sample_inplace(&mut data, &SencSample { iv: IV, subsamples: vec![] });
    assert_eq!(data, clear);

    // cbcs with a 1:1 pattern: blocks 0 and 2 encrypted, block 2 chained to block 0.
    let clear = plain(48);
    let c0 = cbc_encrypt_blocks(&KEY, &IV, &clear[0..16]);
    let mut next_iv = [0u8; 16];
    next_iv.copy_from_slice(&c0);
    let c2 = cbc_encrypt_blocks(&KEY, &next_iv, &clear[32..48]);
    let mut data = [&c0[..], &clear[16..32], &c2[..]].concat();
    let mut p = CencProcessor::new(&KEY, 1, 1, 0x6362_6373);
    p.decrypt_sample_inplace(&mut data, &SencSample { iv: IV, subsamples: vec![] });
    assert_eq!(data, clear);
}

#[test]
fn cenc_decrypter_keys() {
    assert!(CencDecrypter::new("10325476-98BA-DCFE-0123-456789abcdef").is_ok());
    assert_eq!(
        CencDecrypter::new("zz").err(),
        Some(Error::Other("hex decode error: Invalid character 'z' at position 0".to_string()))
    );
    assert_eq!(
        CencDecrypter::new("abc").err(),
        Some(Error::Other("hex decode error: Odd number of digits".to_string()))
    );
    assert_eq!(CencDecrypter::new("0011").err(), Some(Error::InvalidKeySize(2)));
}

fn init_segment(scheme: &[u8; 4]) -> Vec<u8> {
    let schm = full(b"schm", 0, 0, &[scheme[0], scheme[1], scheme[2], scheme[3], 0, 1, 0, 0]);
    let mut tenc_p = vec![0u8, 0, 1, 16];
    tenc_p.extend_from_slice(&[0xab; 16]);
    let tenc = full(b"tenc", 0, 0, &tenc_p);
    let schi = bx(b"schi", &tenc);
    let frma = bx(b"frma", b"avc1");
    let sinf = bx(b"sinf", &[frma, schm, schi].concat());
    let encv = bx(b"encv", &[vec![0u8; 78], sinf].concat());
    let stsd = full(b"stsd", 0, 0, &[1u32.to_be_bytes().to_vec(), encv].concat());
    let stbl = bx(b"stbl", &stsd);
    let minf = bx(b"minf", &stbl);
    let mdia = bx(b"mdia", &minf);
    let trak = bx(b"trak", &mdia);
    bx(b"moov", &trak)
}

fn fragment(samples: &[Vec<u8>], ivs: &[[u8; 16]]) -> Vec<u8> {
    let mut senc_p = (samples.len() as u32).to_be_bytes().to_vec();
    for iv in ivs {
        senc_p.extend_from_slice(iv);
    }
    let senc = full(b"senc", 0, 0, &senc_p);
    let mut trun_p = (samples.len() as u32).to_be_bytes().to_vec();
    trun_p.extend_from_slice(&0u32.to_be_bytes());
    for s in samples {
        trun_p.extend_from_slice(&(s.len() as u32).to_be_bytes());
    }
    // The data offset is filled in below, once the size of the moof box is known.
    let trun_len = 8 + 4 + trun_p.len();
    let traf_len = 8 + senc.len() + trun_len;
    let moof_len = 8 + traf_len;
    trun_p[4..8].copy_from_slice(&((moof_len + 8) as u32).to_be_bytes());
    let trun = full(b"trun", 0, 0x201, &trun_p);
    let traf = bx(b"traf", &[senc, trun].concat());
    let moof = bx(b"moof", &traf);
    let mdat = bx(b"mdat", &samples.concat());
    [moof, mdat].concat()
}

#[test]
fn cenc_fragment_round_trip() {
    let iv1 = [1u8; 16];
    let iv2 = [2u8; 16];
    let s1 = plain(33);
    let s2 = plain(20);
    let mut e1 = s1.clone();
    ctr_encrypt(&KEY, &iv1, &mut e1);
    let mut e2 = s2.clone();
    ctr_encrypt(&KEY, &iv2, &mut e2);
    let encrypted = fragment(&[e1, e2], &[iv1, iv2]);
    let expected = fragment(&[s1, s2], &[iv1, iv2]);
    let init = init_segment(b"cenc");
    let d = CencDecrypter::with_init("1032547698badcfe0123456789abcdef", &init).unwrap();
    assert_eq!(d.decrypt_fragment(encrypted.clone(), None).unwrap(), expected);
    let d = CencDecrypter::new("1032547698badcfe0123456789abcdef").unwrap();
    assert_eq!(d.decrypt_fragment(encrypted.clone(), Some(&init)).unwrap(), expected);
    // Without parameters the fragment is taken to be unprotected.
    assert_eq!(d.decrypt_fragment(encrypted.clone(), None).unwrap(), encrypted);
    assert_eq!(d.decrypt_fragment(Vec::new(), Some(&init)).unwrap(), Vec::<u8>::new());
}

#[test]
fn hls_aes128_round_trip_and_padding() {
    let msg = plain(37);
    let enc = cbc_encrypt_pkcs7(&KEY, &IV, &msg);
    let d = HlsAes128Decrypter::new(&KEY, &IV);
    assert_eq!(d.decrypt(enc.clone()), msg);
    assert_eq!(d.try_decrypt(enc.clone()), Some(msg.clone()));
    assert_eq!(d.try_decrypt(Vec::new()), None);
    assert_eq!(d.try_decrypt(enc[..20].to_vec()), None);
    // The same bytes without padding do not unpad.
    let raw = cbc_encrypt_blocks(&KEY, &IV, &[0u8; 32]);
    assert_eq!(d.try_decrypt(raw), None);
}

#[test]
fn hls_iv_increments_with_carry() {
    let mut iv = [0u8; 16];
    iv[14] = 0x01;
    iv[15] = 0xff;
    let mut d = HlsAes128Decrypter::new(&KEY, &iv);
    d.increment_iv();
    let mut want = [0u8; 16];
    want[14] = 0x02;
    assert_eq!(d.iv(), want);
    let mut s = HlsSampleAesDecrypter::new(&KEY, &[0u8; 16]);
    s.increment_iv();
    let mut one = [0u8; 16];
    one[15] = 1;
    assert_eq!(s.iv(), one);
}

#[test]
fn decrypter_dispatch() {
    let none = Decrypter::Unencrypted;
    assert!(!none.is_hls());
    assert!(matches!(none.decrypt(vec![1, 2, 3]), Ok(v) if v == vec![1, 2, 3]));
    let msg = plain(16);
    let enc = cbc_encrypt_pkcs7(&KEY, &IV, &msg);
    let mut aes = Decrypter::Aes128(HlsAes128Decrypter::new(&KEY, &IV));
    assert!(aes.is_hls());
    assert!(matches!(aes.try_decrypt(enc.clone()), Some(Ok(v)) if v == msg));
    aes.increment_iv();
    assert!(!matches!(aes.try_decrypt(enc), Some(Ok(v)) if v == msg));
    let cenc = Decrypter::Cenc(Arc::new(CencDecrypter::new("1032547698badcfe0123456789abcdef").unwrap()));
    assert!(!cenc.is_hls());
    assert!(matches!(cenc.decrypt(vec![]), Ok(v) if v.is_empty()));
}

#[test]
fn unsupported_key_methods() {
    let key = Key {
        default_kid: None,
        iv: None,
        method: KeyMethod::Other("SAMPLE-AES-CTR".to_owned()),
        uri: None,
    };
    assert!(matches!(check_unsupported(Some(&key)), Err(VsdError::UnsupportedEncryption(m)) if m == "SAMPLE-AES-CTR"));
    let key = Key { method: KeyMethod::Aes128, ..key };
    assert!(check_unsupported(Some(&key)).is_ok());
    assert!(check_unsupported(None).is_ok());
}

fn encrypted_and_clear_fragments() -> (Vec<u8>, Vec<u8>) {
    let iv1 = [1u8; 16];
    let s1 = plain(33);
    let mut e1 = s1.clone();
    ctr_encrypt(&KEY, &iv1, &mut e1);
    (fragment(&[e1], &[iv1]), fragment(&[s1], &[iv1]))
}

#[test]
fn stream_decryption_keeps_init_and_decrypts_fragments() {
    let init = init_segment(b"cenc");
    let ftyp = bx(b"ftyp", b"isom");
    let (enc, clear) = encrypted_and_clear_fragments();
    let styp = bx(b"styp", b"msdh");
    let stream = [ftyp.clone(), init.clone(), enc.clone(), styp.clone(), enc.clone()].concat();
    let expected = [ftyp, init.clone(), clear.clone(), styp, clear.clone()].concat();
    let mut d = CencDecrypter::new("1032547698badcfe0123456789abcdef").unwrap();
    assert_eq!(d.decrypt_stream(&stream, None).unwrap(), expected);
    // The decrypter keeps the track parameters it found.
    assert_eq!(d.decrypt_fragment(enc.clone(), None).unwrap(), clear);

    // With the initialization data given apart, the stream is all fragments.
    let mut d = CencDecrypter::new("1032547698badcfe0123456789abcdef").unwrap();
    let frags = [enc.clone(), enc.clone()].concat();
    assert_eq!(
        d.decrypt_stream(&frags, Some(&init)).unwrap(),
        [clear.clone(), clear].concat()
    );
}

#[test]
fn stream_without_fragments_is_kept() {
    let ftyp = bx(b"ftyp", b"isom");
    let moov = bx(b"moov", &[1, 2, 3]);
    let stream = [ftyp.clone(), moov.clone(), vec![9, 9]].concat();
    let mut d = CencDecrypter::new("1032547698badcfe0123456789abcdef").unwrap();
    // Trailing bytes too few for a box header are not part of any box.
    assert_eq!(d.decrypt_stream(&stream, None).unwrap(), [ftyp, moov].concat());
}

#[test]
fn stream_errors() {
    let mut d = CencDecrypter::new("1032547698badcfe0123456789abcdef").unwrap();
    let mut cut = bx(b"ftyp", b"isom");
    cut.truncate(10);
    assert_eq!(d.decrypt_stream(&cut, None).unwrap_err(), Error::UnexpectedEof);
    // A box whose size is below its header length is refused by try_decrypt_stream.
    let bad = [0u8, 0, 0, 4, b'f', b't', b'y', b'p'];
    assert!(d.try_decrypt_stream(&bad, None).is_none());
}

#[test]
fn mp4_reader_init_stops_at_first_fragment() {
    let ftyp = bx(b"ftyp", b"isom");
    let moov = bx(b"moov", &[1, 2, 3]);
    let (enc, _) = encrypted_and_clear_fragments();
    let stream = [ftyp.clone(), moov.clone(), enc].concat();
    let (init, moof) = Mp4Reader::init(&stream).unwrap();
    assert_eq!(init, [ftyp.clone(), moov.clone()].concat());
    assert_eq!(moof, Some(ftyp.len() + moov.len()));
    let (init, moof) = Mp4Reader::init(&ftyp).unwrap();
    assert_eq!((init, moof), (ftyp, None));
}

#[test]
fn sample_aes_is_left_to_the_caller() {
    let s = HlsSampleAesDecrypter::new(&KEY, &IV);
    assert_eq!(s.key_bytes(), KEY);
    assert_eq!(s.iv(), IV);
    assert!(Decrypter::SampleAes(s.clone()).try_decrypt(Vec::new()).is_none());
    assert!(Decrypter::SampleAes(s).try_decrypt(vec![0x47; 188]).is_none());
}

#[test]
fn incremented_iv_decrypts_as_the_next_iv() {
    let mut iv = [0u8; 16];
    iv[15] = 0xff;
    let mut d = HlsAes128Decrypter::new(&KEY, &iv);
    d.increment_iv();
    let mut next = [0u8; 16];
    next[14] = 0x01;
    assert_eq!(d.iv(), next);
    let msg = plain(40);
    let enc = cbc_encrypt_pkcs7(&KEY, &next, &msg);
    assert_eq!(d.decrypt(enc.clone()), HlsAes128Decrypter::new(&KEY, &next).decrypt(enc));
}

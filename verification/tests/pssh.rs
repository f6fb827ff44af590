use base64::Engine;
use vsd::downloader::drm::{pssh_report, DrmLine};
use vsd::mp4::error::Error;
use vsd::mp4::pssh::parser::{PsshBox, PsshData, SystemId};
use vsd::mp4::pssh::playready::wrm_header_texts;
use vsd::mp4::pssh::widevine::parse_key_ids;
use vsd::mp4::pssh::wrm_header::{Data, KeyID, KeyIDs, ProtectInfo, WrmHeader};

const WIDEVINE: [u8; 16] = [
    0xed, 0xef, 0x8b, 0xa9, 0x79, 0xd6, 0x4a, 0xce, 0xa3, 0xc8, 0x27, 0xdc, 0xd5, 0x1d, 0x21, 0xed,
];
const PLAYREADY: [u8; 16] = [
    0x9a, 0x04, 0xf0, 0x79, 0x98, 0x40, 0x42, 0x86, 0xab, 0x92, 0xe6, 0x5b, 0xe0, 0x88, 0x5f, 0x95,
];
const COMMON: [u8; 16] = [
    0x10, 0x77, 0xef, 0xec, 0xc0, 0xb2, 0x4d, 0x02, 0xac, 0xe3, 0x3c, 0x1e, 0x52, 0xe2, 0xfb, 0x4b,
];

fn pssh(version: u8, system: &[u8; 16], kids: &[[u8; 16]], payload: &[u8]) -> Vec<u8> {
    let mut p = vec![version, 0, 0, 0];
    p.extend_from_slice(system);
    if version == 1 {
        p.extend_from_slice(&(kids.len() as u32).to_be_bytes());
        for k in kids {
            p.extend_from_slice(k);
        }
    }
    p.extend_from_slice(&(payload.len() as u32).to_be_bytes());
    p.extend_from_slice(payload);
    let mut v = ((8 + p.len()) as u32).to_be_bytes().to_vec();
    v.extend_from_slice(b"pssh");
    v.extend_from_slice(&p);
    v
}

fn no_playready(_: &[u8]) -> Result<Vec<String>, Error> {
    Ok(vec!["unexpected".to_owned()])
}

fn widevine_payload() -> Vec<u8> {
    // algorithm = 1 (varint), key_id = [0x11; 16], provider = "x", key_id = [0x22; 16]
    let mut p = vec![0x08, 0x01, 0x12, 16];
    p.extend_from_slice(&[0x11; 16]);
    p.extend_from_slice(&[0x1a, 1, b'x', 0x12, 16]);
    p.extend_from_slice(&[0x22; 16]);
    p
}

#[test]
fn widevine_key_ids_from_protobuf() {
    assert_eq!(
        parse_key_ids(&widevine_payload()).unwrap(),
        vec!["11".repeat(16), "22".repeat(16)]
    );
    assert_eq!(parse_key_ids(&[]).unwrap(), Vec::<String>::new());
    assert_eq!(parse_key_ids(&[0x12, 5, 1]).unwrap_err(), Error::MalformedPsshData);
    assert_eq!(parse_key_ids(&[0x10, 1]).unwrap_err(), Error::MalformedPsshData);
    assert_eq!(parse_key_ids(&[0x08]).unwrap_err(), Error::MalformedPsshData);
}

#[test]
fn pssh_boxes_of_an_init_segment() {
    let wv = pssh(0, &WIDEVINE, &[], &widevine_payload());
    let v1 = pssh(1, &COMMON, &[[0xaa; 16]], &[]);
    let moov = {
        let inner = [wv.clone(), v1.clone()].concat();
        let mut v = ((8 + inner.len()) as u32).to_be_bytes().to_vec();
        v.extend_from_slice(b"moov");
        v.extend_from_slice(&inner);
        v
    };
    let b = PsshBox::from_init(&moov, &no_playready).unwrap();
    assert_eq!(b.boxes.len(), 3);
    assert_eq!(b.boxes[0].system_id, SystemId::WideVine);
    assert_eq!(b.boxes[0].key_ids, vec!["11".repeat(16), "22".repeat(16)]);
    assert_eq!(b.boxes[0].data, wv);
    assert_eq!(b.boxes[1].system_id, SystemId::Common);
    assert_eq!(b.boxes[1].key_ids, vec!["aa".repeat(16)]);
    assert_eq!(
        b.boxes[2].system_id,
        SystemId::Other("1077efecc0b24d02ace33c1e52e2fb4b".to_owned())
    );
    assert!(b.boxes[2].key_ids.is_empty());
    assert_eq!(
        b.boxes[0].as_base64(),
        base64::engine::general_purpose::STANDARD.encode(&wv)
    );
    assert_eq!(b.boxes[1].system_id.to_string(), "cen");
    assert_eq!(SystemId::PlayReady.to_string(), "prd");
    assert_eq!(SystemId::WideVine.to_string(), "wvd");
}

#[test]
fn pssh_errors() {
    let v2 = pssh(2, &WIDEVINE, &[], &[]);
    assert_eq!(PsshBox::from_init(&v2, &no_playready).unwrap_err(), Error::UnsupportedPsshVersion);
    let mut cut = pssh(0, &COMMON, &[], &[1, 2, 3]);
    cut[3] -= 2;
    cut.truncate(cut.len() - 2);
    assert_eq!(PsshBox::from_init(&cut, &no_playready).unwrap_err(), Error::UnexpectedEof);
    assert!(PsshBox::from_init(&[], &no_playready).unwrap().boxes.is_empty());
}

#[test]
fn playready_payload_goes_to_the_handler() {
    let pr = pssh(0, &PLAYREADY, &[], &[9, 9]);
    let b = PsshBox::from_init(&pr, &|p: &[u8]| {
        assert_eq!(p, &[9, 9]);
        Ok(vec!["k".to_owned()])
    })
    .unwrap();
    assert_eq!(b.boxes.len(), 1);
    assert_eq!(b.boxes[0].system_id, SystemId::PlayReady);
    assert_eq!(b.boxes[0].key_ids, vec!["k".to_owned()]);
    assert_eq!(
        PsshBox::from_init(&pr, &|_: &[u8]| Err(Error::MalformedPsshData)).unwrap_err(),
        Error::MalformedPsshData
    );
}

#[test]
fn playready_object_records() {
    let xml = "<WRMHEADER version=\"4.0.0.0\"/>";
    let units: Vec<u8> = xml.encode_utf16().flat_map(|u| u.to_le_bytes()).collect();
    let mut p = Vec::new();
    p.extend_from_slice(&0u32.to_le_bytes());
    p.extend_from_slice(&2u16.to_le_bytes());
    p.extend_from_slice(&3u16.to_le_bytes());
    p.extend_from_slice(&2u16.to_le_bytes());
    p.extend_from_slice(&[0, 0]);
    p.extend_from_slice(&1u16.to_le_bytes());
    p.extend_from_slice(&(units.len() as u16).to_le_bytes());
    p.extend_from_slice(&units);
    assert_eq!(wrm_header_texts(&p).unwrap(), vec![xml.to_owned()]);
    assert_eq!(wrm_header_texts(&p[..5]).unwrap_err(), Error::UnexpectedEof);
    // An unpaired surrogate is not text.
    let mut bad = Vec::new();
    bad.extend_from_slice(&0u32.to_le_bytes());
    bad.extend_from_slice(&1u16.to_le_bytes());
    bad.extend_from_slice(&1u16.to_le_bytes());
    bad.extend_from_slice(&2u16.to_le_bytes());
    bad.extend_from_slice(&0xd800u16.to_le_bytes());
    assert_eq!(wrm_header_texts(&bad).unwrap_err(), Error::MalformedPsshData);
}

fn kid(v: &str) -> KeyID {
    KeyID { value: v.to_owned() }
}

#[test]
fn wrm_header_key_ids_by_version() {
    let b64 = base64::engine::general_purpose::STANDARD.encode([0x01u8; 16]);
    let b64b = base64::engine::general_purpose::STANDARD.encode([0x02u8; 16]);
    let h = WrmHeader {
        version: "4.0.0.0".to_owned(),
        data: Some(Data { kid: Some(b64.clone()), protect_info: None }),
    };
    assert_eq!(h.key_ids().unwrap(), vec!["01".repeat(16)]);
    let h = WrmHeader {
        version: "4.3.0.0".to_owned(),
        data: Some(Data {
            kid: None,
            protect_info: Some(ProtectInfo {
                kid: Some(kid(&b64)),
                kids: Some(KeyIDs { kids: vec![kid(&b64b)] }),
            }),
        }),
    };
    assert_eq!(h.key_ids().unwrap(), vec!["01".repeat(16), "02".repeat(16)]);
    let h = WrmHeader { version: "5.0.0.0".to_owned(), data: None };
    assert_eq!(h.key_ids().unwrap_err(), Error::UnsupportedWrmHeaderVersion);
    let h = WrmHeader {
        version: "4.1.0.0".to_owned(),
        data: Some(Data { kid: None, protect_info: Some(ProtectInfo { kid: Some(kid("!!")), kids: None }) }),
    };
    assert!(h.try_key_ids().is_none());
}

#[test]
fn pssh_data_equal_by_bytes() {
    let a = PsshData { data: vec![1, 2, 3], key_ids: vec!["x".to_owned()], system_id: SystemId::WideVine };
    let b = PsshData { data: vec![1, 2, 3], key_ids: vec![], system_id: SystemId::PlayReady };
    let c = PsshData { data: vec![1, 2], key_ids: vec![], system_id: SystemId::WideVine };
    assert!(a == b);
    assert!(a != c);
}

#[test]
fn drm_report_lists_boxes_and_kids_once() {
    let a = PsshData {
        data: vec![1, 2, 3],
        key_ids: vec!["k1".to_owned(), "k2".to_owned(), "k1".to_owned()],
        system_id: SystemId::WideVine,
    };
    let b = PsshData { data: vec![1, 2, 3], key_ids: vec!["k9".to_owned()], system_id: SystemId::WideVine };
    let c = PsshData {
        data: vec![4],
        key_ids: vec!["k2".to_owned(), "k3".to_owned()],
        system_id: SystemId::PlayReady,
    };
    let lines = pssh_report(&vec![a, b, c], &vec!["k3".to_owned()]);
    let text: Vec<String> = lines
        .iter()
        .map(|l| match l {
            DrmLine::Pssh { system, data } => format!("psh {} {}", system.to_string(), data),
            DrmLine::Kid { system, kid, required } => format!("kid {} {} {}", system.to_string(), kid, required),
        })
        .collect();
    assert_eq!(
        text,
        vec![
            "psh wvd AQID",
            "kid wvd k1 false",
            "kid wvd k2 false",
            "psh prd BA==",
            "kid prd k3 true",
        ]
    );
}

#[test]
fn playready_text_with_surrogate_pair() {
    let text = "a\u{1F600}b";
    let units: Vec<u8> = text.encode_utf16().flat_map(|u| u.to_le_bytes()).collect();
    let mut p = Vec::new();
    p.extend_from_slice(&0u32.to_le_bytes());
    p.extend_from_slice(&1u16.to_le_bytes());
    p.extend_from_slice(&1u16.to_le_bytes());
    p.extend_from_slice(&(units.len() as u16).to_le_bytes());
    p.extend_from_slice(&units);
    assert_eq!(wrm_header_texts(&p).unwrap(), vec![text.to_owned()]);
}

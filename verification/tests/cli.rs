use vsd::cli::license::system_id;
use vsd::cli::merge::concat_list;
use vsd::cli::save::{format_row, parse_keys, split_header};
use vsd::playlist::types::MediaType;
use vsd::error::Error;
use vsd::mp4::pssh::parser::SystemId;

const KID: &str = "eb676abbcb345e96bbcf616630f1a3da";
const KEY: &str = "100b6c20940f779a4589152b57d2dacb";

fn other(e: Error) -> String {
    match e {
        Error::Other(m) => m,
        e => panic!("unexpected error {e:?}"),
    }
}

#[test]
fn keys_are_lowered_and_undashed() {
    let keys = parse_keys("EB676ABB-CB34-5E96-BBCF-616630F1A3DA:100b6c20940f779a4589152b57d2dacb").unwrap();
    assert_eq!(keys, vec![(KID.to_owned(), KEY.to_owned())]);
}

#[test]
fn key_lists_keep_their_order() {
    let s = format!("{KID}:{KEY};{KEY}:{KID}");
    let keys = parse_keys(&s).unwrap();
    assert_eq!(
        keys,
        vec![(KID.to_owned(), KEY.to_owned()), (KEY.to_owned(), KID.to_owned())]
    );
}

#[test]
fn empty_key_list_and_pieces_without_colon() {
    assert!(parse_keys("").unwrap().is_empty());
    let s = format!("junk;{KID}:{KEY};");
    assert_eq!(parse_keys(&s).unwrap(), vec![(KID.to_owned(), KEY.to_owned())]);
}

#[test]
fn bad_keys_fail_the_whole_list() {
    let s = format!("{KID}:{KEY};abc:def");
    assert_eq!(
        other(parse_keys(&s).unwrap_err()),
        format!("Expected 'KID:KEY;…' but found '{s}'.")
    );
    // 31 digits, and a non-hexadecimal digit.
    assert!(parse_keys(&format!("{}:{KEY}", &KID[..31])).is_err());
    assert!(parse_keys(&format!("{}g:{KEY}", &KID[..31])).is_err());
    // A second colon lands in the key.
    assert!(parse_keys(&format!("{KID}:{KEY}:")).is_err());
}

#[test]
fn headers_split_at_first_colon() {
    assert_eq!(
        split_header(" Referer :  https://a.example/x:y ").unwrap(),
        ("Referer".to_owned(), "https://a.example/x:y".to_owned())
    );
    assert_eq!(
        other(split_header("no colon").unwrap_err()),
        "Expected 'KEY:VALUE' but found 'no colon'."
    );
}

fn pssh(system: &[u8; 16]) -> Vec<u8> {
    let mut b = vec![0, 0, 0, 32];
    b.extend_from_slice(b"pssh");
    b.extend_from_slice(&[0, 0, 0, 0]);
    b.extend_from_slice(system);
    b.extend_from_slice(&[0, 0, 0, 0]);
    b
}

#[test]
fn license_system_ids() {
    let prd = hex::decode("9a04f07998404286ab92e65be0885f95").unwrap();
    let wvd = hex::decode("edef8ba979d64acea3c827dcd51d21ed").unwrap();
    assert_eq!(system_id(&pssh(prd.as_slice().try_into().unwrap())).unwrap(), SystemId::PlayReady);
    assert_eq!(system_id(&pssh(wvd.as_slice().try_into().unwrap())).unwrap(), SystemId::WideVine);
    assert_eq!(
        other(system_id(&pssh(&[1; 16])).unwrap_err()),
        "'01010101010101010101010101010101' system id not supported."
    );
}

#[test]
fn license_rejects_short_or_foreign_boxes() {
    assert_eq!(
        other(system_id(&[0; 27]).unwrap_err()),
        "Data too short to be a valid pssh box."
    );
    let mut b = pssh(&[1; 16]);
    b[4..8].copy_from_slice(b"moov");
    assert_eq!(
        other(system_id(&b).unwrap_err()),
        "Expected 'pssh' box type but found 'moov'."
    );
}

#[test]
fn concat_list_quotes_paths() {
    let paths = vec!["a.ts".to_owned(), "it's.ts".to_owned()];
    assert_eq!(concat_list(&paths), "file 'a.ts'\nfile 'it'\\''s.ts'");
    assert_eq!(concat_list(&vec![]), "");
    assert_eq!(concat_list(&vec!["x".to_owned()]), "file 'x'");
}

#[test]
fn format_rows_cut_long_texts() {
    assert_eq!(
        format_row(0, MediaType::Video, Some((1920, 1080)), &None, Some(4_500_000), &Some("avc1.640028,mp4a.40.2".to_string())),
        vec!["1", "1920x1080", "4500k", "avc1.640028…"]
    );
    assert_eq!(
        format_row(4, MediaType::Audio, None, &Some("English (US)".to_string()), Some(999), &Some("mp4a.40.2".to_string())),
        vec!["5", "English …", "", "mp4a.40.2"]
    );
    assert_eq!(
        format_row(1, MediaType::Subtitles, None, &Some("en-US".to_string()), None, &None),
        vec!["2", "en-US", "", ""]
    );
}

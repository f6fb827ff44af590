//! Checking the PSSH box given to the `license` command.
use crate::downloader::fetch::same_text;
use crate::error::Error;
use crate::format::parser::message;
use crate::mp4::hex::{encode_hex, hex_text};
use crate::mp4::pssh::parser::SystemId;
use vstd::prelude::*;

verus! {

/// What `String::from_utf8_lossy` makes of bytes.
pub uninterp spec fn utf8_lossy(b: Seq<u8>) -> Seq<char>;

/// Reads bytes as UTF-8 text with `String::from_utf8_lossy`, invalid sequences replaced.
///
/// Claims that the text is a function of the bytes and, as the documentation says, that
/// valid UTF-8 is taken as it is; how invalid sequences are replaced is left to the name.
#[verifier::external_body]
fn lossy_text(b: &[u8]) -> (s: String)
    ensures
        s@ == utf8_lossy(b@),
        vstd::utf8::valid_utf8(b@) ==> vstd::utf8::encode_utf8(s@) == b@,
{
    String::from_utf8_lossy(b).into_owned()
}

/// The bytes of `pssh`.
pub open spec fn pssh_tag() -> Seq<u8> {
    seq![0x70u8, 0x73u8, 0x73u8, 0x68u8]
}

/// The system a PSSH box is for, checked as the `license` command checks it: at least
/// 28 bytes, of box type `pssh`, and for PlayReady or Widevine.
pub open spec fn system_id_spec(b: Seq<u8>) -> Result<SystemId, Seq<char>> {
    if b.len() < 28 {
        Err("Data too short to be a valid pssh box."@)
    } else if b.subrange(4, 8) != pssh_tag() {
        Err("Expected 'pssh' box type but found '"@ + utf8_lossy(b.subrange(4, 8)) + "'."@)
    } else {
        let id = hex_text(b.subrange(12, 28));
        if id == "9a04f07998404286ab92e65be0885f95"@ {
            Ok(SystemId::PlayReady)
        } else if id == "edef8ba979d64acea3c827dcd51d21ed"@ {
            Ok(SystemId::WideVine)
        } else {
            Err("'"@ + id + "' system id not supported."@)
        }
    }
}

/// The DRM system of the PSSH box `bytes`; fails, with the message the spec names,
/// where it is too short, not a `pssh` box, or for another system.
pub fn system_id(bytes: &[u8]) -> (r: Result<SystemId, Error>)
    ensures
        match system_id_spec(bytes@) {
            Ok(s) => r == Ok::<SystemId, Error>(s),
            Err(m) => r matches Err(Error::Other(x)) && x@ == m,
        },
{
    if bytes.len() < 28 {
        return Err(Error::Other("Data too short to be a valid pssh box.".to_owned()));
    }
    let box_type = vstd::slice::slice_subrange(bytes, 4, 8);
    if !(box_type[0] == 0x70 && box_type[1] == 0x73 && box_type[2] == 0x73 && box_type[3]
        == 0x68) {
        proof {
            if box_type@ == pssh_tag() {
                assert(box_type@[0] == 0x70u8);
            }
        }
        let found = lossy_text(box_type);
        return Err(Error::Other(message("Expected 'pssh' box type but found '", found.as_str(), "'.")));
    }
    proof {
        assert(box_type@ =~= pssh_tag());
    }
    let id = encode_hex(vstd::slice::slice_subrange(bytes, 12, 28));
    if same_text(id.as_str(), "9a04f07998404286ab92e65be0885f95") {
        Ok(SystemId::PlayReady)
    } else if same_text(id.as_str(), "edef8ba979d64acea3c827dcd51d21ed") {
        Ok(SystemId::WideVine)
    } else {
        Err(Error::Other(message("'", id.as_str(), "' system id not supported.")))
    }
}

} // verus!

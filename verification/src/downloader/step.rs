//! The per-segment decisions of a stream download, as a step from state and segment to
//! the next state and what to do: which decrypter to set up, whether to count the HLS IV
//! on, and whether the segment still has to be fetched. Fetching keys and segments, and
//! building the decrypters, is left to the caller.
use crate::playlist::types::{Key, KeyMethod};
use vstd::prelude::*;

verus! {

/// The kind of decrypter in use.
#[derive(Clone, Copy, Debug, PartialEq, Eq, Structural)]
pub enum DecrypterKind {
    Unencrypted,
    Aes128,
    SampleAes,
    Cenc,
}

/// What a download carries from one segment to the next.
#[derive(Clone, Copy, Debug, PartialEq, Eq, Structural)]
pub struct DownloadState {
    /// The decrypter in use.
    pub decrypter: DecrypterKind,
    /// Whether the HLS IV counts on by one per segment (the key gave no IV).
    pub auto_increment_iv: bool,
}

/// A decrypter to set up from the segment's key.
#[derive(Clone, Copy, Debug, PartialEq, Eq, Structural)]
pub enum DecrypterSetup {
    /// AES-128 with the key fetched from the key's URI.
    Aes128,
    /// SAMPLE-AES with the key fetched from the key's URI.
    SampleAes,
    /// CENC with the content key of the stream's default KID.
    Cenc,
}

/// What to do for one segment.
#[derive(Clone, Copy, Debug, PartialEq, Eq, Structural)]
pub struct SegmentAction {
    /// Count the HLS decrypter's IV on by one before this segment.
    pub increment_iv: bool,
    /// Set up a new decrypter from this segment's key.
    pub setup: Option<DecrypterSetup>,
    /// Fetch the segment; `false` where its file is already there from an earlier run.
    pub download: bool,
}

/// The state at the start of a download: no decrypter, no IV counting.
pub open spec fn initial_state() -> DownloadState {
    DownloadState { decrypter: DecrypterKind::Unencrypted, auto_increment_iv: false }
}

/// One step: with decryption on, an HLS decrypter whose key gave no IV counts its IV on
/// for a segment without a key of its own (in a stream of more than one segment); a
/// segment's AES-128 or SAMPLE-AES key sets up a new decrypter that counts on where the
/// key has no IV; a CENC key sets up a CENC decrypter once. A segment whose file exists
/// is not fetched.
pub open spec fn step_spec(
    s: DownloadState,
    decrypt: bool,
    key: Option<Key>,
    n_segments: nat,
    out_exists: bool,
) -> (DownloadState, SegmentAction) {
    let hls = s.decrypter == DecrypterKind::Aes128 || s.decrypter == DecrypterKind::SampleAes;
    let inc = decrypt && hls && key is None && s.auto_increment_iv && n_segments > 1;
    let (next, setup) = if decrypt && key is Some {
        let k = key->0;
        match k.method {
            KeyMethod::Aes128 => (
                DownloadState { decrypter: DecrypterKind::Aes128, auto_increment_iv: k.iv is None },
                Some(DecrypterSetup::Aes128),
            ),
            KeyMethod::SampleAes => (
                DownloadState {
                    decrypter: DecrypterKind::SampleAes,
                    auto_increment_iv: k.iv is None,
                },
                Some(DecrypterSetup::SampleAes),
            ),
            KeyMethod::Cenc => if s.decrypter == DecrypterKind::Cenc {
                (s, None)
            } else {
                (
                    DownloadState { decrypter: DecrypterKind::Cenc, ..s },
                    Some(DecrypterSetup::Cenc),
                )
            },
            _ => (s, None),
        }
    } else {
        (s, None)
    };
    (next, SegmentAction { increment_iv: inc, setup, download: !out_exists })
}

/// A CENC decrypter, once set up, stays as it is through later CENC keys.
pub proof fn cenc_set_up_once(s: DownloadState, k: Key, n_segments: nat, out_exists: bool)
    requires
        s.decrypter == DecrypterKind::Cenc,
        k.method is Cenc,
    ensures
        step_spec(s, true, Some(k), n_segments, out_exists).0 == s,
        step_spec(s, true, Some(k), n_segments, out_exists).1.setup is None,
{
}

/// The state at the start of a download.
pub fn initial() -> (s: DownloadState)
    ensures
        s == initial_state(),
{
    DownloadState { decrypter: DecrypterKind::Unencrypted, auto_increment_iv: false }
}

/// Decides what to do for a segment, and the state for the next one.
pub fn segment_step(
    s: DownloadState,
    decrypt: bool,
    key: Option<&Key>,
    n_segments: usize,
    out_exists: bool,
) -> (r: (DownloadState, SegmentAction))
    ensures
        r == step_spec(
            s,
            decrypt,
            match key {
                Some(k) => Some(*k),
                None => None,
            },
            n_segments as nat,
            out_exists,
        ),
{
    let hls = s.decrypter == DecrypterKind::Aes128 || s.decrypter == DecrypterKind::SampleAes;
    let inc = decrypt && hls && key.is_none() && s.auto_increment_iv && n_segments > 1;
    let (next, setup) = if decrypt {
        match key {
            Some(k) => match &k.method {
                KeyMethod::Aes128 => (
                    DownloadState {
                        decrypter: DecrypterKind::Aes128,
                        auto_increment_iv: k.iv.is_none(),
                    },
                    Some(DecrypterSetup::Aes128),
                ),
                KeyMethod::SampleAes => (
                    DownloadState {
                        decrypter: DecrypterKind::SampleAes,
                        auto_increment_iv: k.iv.is_none(),
                    },
                    Some(DecrypterSetup::SampleAes),
                ),
                KeyMethod::Cenc => if s.decrypter == DecrypterKind::Cenc {
                    (s, None)
                } else {
                    (
                        DownloadState {
                            decrypter: DecrypterKind::Cenc,
                            auto_increment_iv: s.auto_increment_iv,
                        },
                        Some(DecrypterSetup::Cenc),
                    )
                },
                _ => (s, None),
            },
            None => (s, None),
        }
    } else {
        (s, None)
    };
    (next, SegmentAction { increment_iv: inc, setup, download: !out_exists })
}

} // verus!

# vsd

Stream selection and segment decryption for HLS and DASH downloads, verified with
Verus.

- `src/` is the verified library:
  - `format/`: format expressions (`bv[height<=720]+ba / b`): parsing, evaluation
    against a table of filter verdicts, the text filters (languages, codecs,
    resolutions), and the stream selection list and prompt.
  - `mp4/`: MP4 box reading and parsing (`sidx`, `tfdt`, `tenc`, `senc`, `trun`,
    `schm`, `pssh`), Common Encryption (`cenc`, `cens`, `cbc1`, `cbcs`) of samples,
    fragments and whole streams, HLS AES-128 segments and the key and IV state of
    SAMPLE-AES ones, Widevine and PlayReady key IDs.
  - `playlist/`, `dash/`: stream types, listing order, DASH media types, the choice of
    a DASH addressing mode, `SegmentTimeline` expansion, `SegmentTemplate` URLs and the
    key that `ContentProtection` gives.
  - `downloader/`: playlist type detection, query strings, CENC key lookup, chunked
    ranges, subtitle format detection, the decrypter a key method calls for, and the
    per-segment download step (decrypter set-up, IV counting, skipping done segments).
  - `cli/`: key lists, request headers, the columns of the list of formats, PSSH
    system checks, ffmpeg concat lists.
  - `progress.rs`, `error.rs`, `utils.rs`: progress counters, error texts, stream ids.
- `app/` is the command line around it (file I/O, prompts, float arithmetic, and the
  SAMPLE-AES sample decryption with `iori_ssa`, which can panic on malformed media).
- `tests/` exercise the library on concrete values.

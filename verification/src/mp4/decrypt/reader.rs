//! Box-by-box reading of MP4 data: box headers and whole boxes, from the bytes at the
//! current position of a stream.
use crate::mp4::error::Error;
use crate::mp4::parser::be_at;
use vstd::prelude::*;
use vstd::slice::{slice_subrange, slice_to_vec};

verus! {

/// The header of a box: its type, the bytes of the header, and the size of the whole
/// box (0 when the box runs to the end of the stream).
#[derive(Debug, Clone)]
pub struct Mp4Reader {
    pub box_type: [u8; 4],
    pub header_bytes: Vec<u8>,
    pub total_size: u64,
}

/// The header at the start of `input`: `None` when fewer than 8 bytes are left (the end
/// of the stream); a 32-bit size of 1 says that a 64-bit size follows the type.
pub open spec fn header_spec(input: Seq<u8>) -> Result<Option<(Seq<u8>, Seq<u8>, int)>, Error> {
    if input.len() < 8 {
        Ok(None)
    } else if be_at(input, 0, 4) == 1 {
        if input.len() < 16 {
            Err(Error::UnexpectedEof)
        } else {
            Ok(Some((input.subrange(4, 8), input.take(16), be_at(input, 8, 8) as int)))
        }
    } else {
        Ok(Some((input.subrange(4, 8), input.take(8), be_at(input, 0, 4) as int)))
    }
}

impl Mp4Reader {
    pub open spec fn header_view(&self) -> (Seq<u8>, Seq<u8>, int) {
        (self.box_type@, self.header_bytes@, self.total_size as int)
    }

    /// Reads the header of the box at the start of `input`.
    ///
    /// Gives `None` when fewer than 8 bytes are left, and fails with `UnexpectedEof` when
    /// a 64-bit size is cut short.
    pub fn header(input: &[u8]) -> (r: Result<Option<Self>, Error>)
        ensures
            match header_spec(input@) {
                Ok(Some(h)) => r matches Ok(Some(m)) && m.header_view() == h,
                Ok(None) => r matches Ok(None),
                Err(e) => r == Err::<Option<Self>, Error>(e),
            },
    {
        if input.len() < 8 {
            return Ok(None);
        }
        let size = read_be(input, 0, 4);
        let box_type = [input[4], input[5], input[6], input[7]];
        proof {
            assert(box_type@ =~= input@.subrange(4, 8));
        }
        if size == 1 {
            if input.len() < 16 {
                return Err(Error::UnexpectedEof);
            }
            let total_size = read_be(input, 8, 8);
            let header_bytes = slice_to_vec(slice_subrange(input, 0, 16));
            proof {
                assert(input@.subrange(0, 16) =~= input@.take(16));
            }
            Ok(Some(Mp4Reader { box_type, header_bytes, total_size }))
        } else {
            let header_bytes = slice_to_vec(slice_subrange(input, 0, 8));
            proof {
                assert(input@.subrange(0, 8) =~= input@.take(8));
            }
            Ok(Some(Mp4Reader { box_type, header_bytes, total_size: size }))
        }
    }

    /// The whole box: its header and then, from `rest` (the bytes after the header),
    /// its body; a box of size 0 takes all of `rest`.
    ///
    /// Fails with `UnexpectedEof` when `rest` is shorter than the body.
    pub fn data(&self, rest: &[u8]) -> (r: Result<Vec<u8>, Error>)
        requires
            self.total_size == 0 || self.total_size >= self.header_bytes@.len(),
        ensures
            self.total_size == 0 ==> (r matches Ok(v) && v@ == self.header_bytes@ + rest@),
            self.total_size > 0 ==> ({
                let body = self.total_size - self.header_bytes@.len();
                if rest@.len() < body {
                    r == Err::<Vec<u8>, Error>(Error::UnexpectedEof)
                } else {
                    r matches Ok(v) && v@ == self.header_bytes@ + rest@.take(body)
                }
            }),
    {
        let mut data = slice_to_vec(self.header_bytes.as_slice());
        if self.total_size == 0 {
            let mut tail = slice_to_vec(rest);
            data.append(&mut tail);
            return Ok(data);
        }
        let body = self.total_size - self.header_bytes.len() as u64;
        if (rest.len() as u64) < body {
            return Err(Error::UnexpectedEof);
        }
        let mut tail = slice_to_vec(slice_subrange(rest, 0, body as usize));
        proof {
            assert(rest@.subrange(0, body as int) =~= rest@.take(body as int));
        }
        data.append(&mut tail);
        Ok(data)
    }
}

proof fn lemma_pow256_small(n: nat)
    requires
        n < 8,
    ensures
        crate::mp4::reader::pow256(n) <= 0x100_0000_0000_0000,
        crate::mp4::reader::pow256(n + 1) == 256 * crate::mp4::reader::pow256(n),
{
    reveal_with_fuel(crate::mp4::reader::pow256, 9);
    if n == 0 {
    } else if n == 1 {
    } else if n == 2 {
    } else if n == 3 {
    } else if n == 4 {
    } else if n == 5 {
    } else if n == 6 {
    } else {
    }
}

/// The big-endian value of `input[at..at + n]`.
fn read_be(input: &[u8], at: usize, n: usize) -> (v: u64)
    requires
        at + n <= input@.len(),
        n <= 8,
    ensures
        v == be_at(input@, at as int, n as int),
{
    let len = input.len();
    let mut v: u64 = 0;
    let mut i: usize = 0;
    while i < n
        invariant
            at + n <= input@.len(),
            len == input@.len(),
            n <= 8,
            i <= n,
            v == be_at(input@, at as int, i as int),
            v < crate::mp4::reader::pow256(i as nat),
        decreases n - i,
    {
        proof {
            let s = input@.subrange(at as int, at + i + 1);
            assert(s.drop_last() =~= input@.subrange(at as int, at + i));
            lemma_pow256_small(i as nat);
            assert(v * 256 + 255 < crate::mp4::reader::pow256((i + 1) as nat)) by (nonlinear_arith)
                requires
                    v < crate::mp4::reader::pow256(i as nat),
                    crate::mp4::reader::pow256((i + 1) as nat) == 256 * crate::mp4::reader::pow256(
                        i as nat,
                    ),
            ;
        }
        v = v * 256 + input[at + i] as u64;
        i = i + 1;
    }
    v
}

/// The type of a `moof` box.
pub open spec fn moof_type() -> Seq<u8> {
    seq![0x6du8, 0x6fu8, 0x6fu8, 0x66u8]
}

/// The type of an `mdat` box.
pub open spec fn mdat_type() -> Seq<u8> {
    seq![0x6du8, 0x64u8, 0x61u8, 0x74u8]
}

/// The box at `pos` of a stream: its type and the position where it ends; `Ok(None)`
/// at the end of the stream, an error where the box is cut short, and `None` where its
/// size is smaller than its header (which reading it panics on).
#[verifier::opaque]
pub open spec fn box_span(input: Seq<u8>, pos: int) -> Option<Result<Option<(Seq<u8>, int)>, Error>> {
    match header_spec(input.skip(pos)) {
        Err(e) => Some(Err(e)),
        Ok(None) => Some(Ok(None)),
        Ok(Some((t, hb, size))) => if size == 0 {
            Some(Ok(Some((t, input.len() as int))))
        } else if size < hb.len() {
            None
        } else if size > input.len() - pos {
            Some(Err(Error::UnexpectedEof))
        } else {
            Some(Ok(Some((t, pos + size))))
        },
    }
}

/// The boxes before the first `moof` box of a stream, as bytes, and the position of that
/// box where there is one; `None` where reading a box panics.
pub open spec fn init_walk(input: Seq<u8>, pos: int) -> Option<Result<(Seq<u8>, Option<int>), Error>>
    decreases input.len() - pos,
{
    if pos < 0 || pos > input.len() {
        Some(Ok((seq![], None)))
    } else {
        match box_span(input, pos) {
            None => None,
            Some(Err(e)) => Some(Err(e)),
            Some(Ok(None)) => Some(Ok((seq![], None))),
            Some(Ok(Some((t, end)))) => if t == moof_type() {
                Some(Ok((seq![], Some(pos))))
            } else if end <= pos || end > input.len() {
                None
            } else {
                match init_walk(input, end) {
                    None => None,
                    Some(Err(e)) => Some(Err(e)),
                    Some(Ok((rest, m))) => Some(Ok((input.subrange(pos, end) + rest, m))),
                }
            },
        }
    }
}

/// Reads the box at `pos` of a stream.
pub fn next_box(input: &[u8], pos: usize) -> (r: Option<Result<Option<([u8; 4], usize)>, Error>>)
    requires
        pos <= input@.len(),
    ensures
        match (r, box_span(input@, pos as int)) {
            (None, None) => true,
            (Some(Err(a)), Some(Err(b))) => a == b,
            (Some(Ok(None)), Some(Ok(None))) => true,
            (Some(Ok(Some((t, e)))), Some(Ok(Some((u, f))))) => t@ == u && e == f && pos < e
                <= input@.len(),
            _ => false,
        },
{
    let rest = slice_subrange(input, pos, input.len());
    proof {
        reveal(box_span);
        assert(rest@ =~= input@.skip(pos as int));
    }
    match Mp4Reader::header(rest) {
        Err(e) => Some(Err(e)),
        Ok(None) => Some(Ok(None)),
        Ok(Some(h)) => {
            let hl = h.header_bytes.len();
            proof {
                assert(rest@.len() >= 8);
                assert(hl == 8 || hl == 16);
            }
            if h.total_size == 0 {
                Some(Ok(Some((h.box_type, input.len()))))
            } else if h.total_size < hl as u64 {
                None
            } else if h.total_size > (input.len() - pos) as u64 {
                Some(Err(Error::UnexpectedEof))
            } else {
                Some(Ok(Some((h.box_type, pos + h.total_size as usize))))
            }
        },
    }
}

impl Mp4Reader {
    /// The initialization part of a stream: the bytes of its boxes before the first
    /// `moof` box, and the position of that box (`None` where there is none).
    ///
    /// Fails where a box is cut short.
    pub fn init(input: &[u8]) -> (r: Result<(Vec<u8>, Option<usize>), Error>)
        requires
            init_walk(input@, 0) is Some,
        ensures
            match init_walk(input@, 0) {
                Some(Ok((b, m))) => r matches Ok((v, n)) && v@ == b && match (n, m) {
                    (Some(x), Some(y)) => x == y,
                    (None, None) => true,
                    _ => false,
                },
                Some(Err(e)) => r == Err::<(Vec<u8>, Option<usize>), Error>(e),
                None => false,
            },
    {
        match Self::try_init(input) {
            Some(r) => r,
            None => vstd::pervasive::unreached(),
        }
    }

    /// The initialization part of a stream, or `None` where a box's size is smaller than
    /// its header (where `init` would panic).
    pub fn try_init(input: &[u8]) -> (r: Option<Result<(Vec<u8>, Option<usize>), Error>>)
        ensures
            match (r, init_walk(input@, 0)) {
                (None, None) => true,
                (Some(Ok((v, n))), Some(Ok((b, m)))) => v@ == b && match (n, m) {
                    (Some(x), Some(y)) => x == y,
                    (None, None) => true,
                    _ => false,
                },
                (Some(Err(a)), Some(Err(b))) => a == b,
                _ => false,
            },
    {
        let mut out: Vec<u8> = Vec::new();
        let mut pos: usize = 0;
        while pos <= input.len()
            invariant
                pos <= input@.len(),
                init_walk(input@, 0) == match init_walk(input@, pos as int) {
                    Some(Ok((rest, m))) => Some(Ok((out@ + rest, m))),
                    other => other,
                },
            decreases input@.len() - pos,
        {
            match next_box(input, pos) {
                None => {
                    return None;
                },
                Some(Err(e)) => {
                    return Some(Err(e));
                },
                Some(Ok(None)) => {
                    proof {
                        assert(out@ + seq![] =~= out@);
                    }
                    return Some(Ok((out, None)));
                },
                Some(Ok(Some((t, end)))) => {
                    if t[0] == 0x6d && t[1] == 0x6f && t[2] == 0x6f && t[3] == 0x66 {
                        proof {
                            assert(t@ =~= moof_type());
                            assert(out@ + seq![] =~= out@);
                        }
                        return Some(Ok((out, Some(pos))));
                    }
                    proof {
                        if t@ == moof_type() {
                            assert(t@[0] == 0x6du8);
                        }
                    }
                    let mut b = slice_to_vec(slice_subrange(input, pos, end));
                    let ghost before = out@;
                    out.append(&mut b);
                    proof {
                        match init_walk(input@, end as int) {
                            Some(Ok((rest, m))) => {
                                assert(before + (input@.subrange(pos as int, end as int) + rest)
                                    =~= out@ + rest);
                            },
                            _ => {},
                        }
                    }
                    pos = end;
                },
            }
        }
        None
    }
}

} // verus!

//! The compressor object the library offers: LZO1X compression of a buffer
//! into a new one, and decompression that grows its output buffer until the
//! data fits.
use vstd::prelude::*;
use crate::lzo;
use crate::lzo::compressor::{compressed, decode_cap, decoded, is_stream_of, lemma_compressed_roundtrip, lemma_no_overflow};
use crate::lzo::dict::Dict;
use crate::lzo::format::spec_decompress;
use crate::lzo::laws::{lemma_decompress_capacity, lemma_decompress_exact_capacity, lemma_decompress_fits, lemma_decompress_len};

verus! {

/// Kind of a failed compression or decompression.
#[derive(Debug, Clone, Copy, PartialEq, Eq, Structural)]
pub enum EResult {
    LookbehindOverrun,
    OutputOverrun,
    InputOverrun,
    Error,
    InputNotConsumed,
}

/// The kind of an error of the LZO codec.
pub open spec fn kind_of(err: lzo::EResult) -> EResult {
    match err {
        lzo::EResult::LookbehindOverrun => EResult::LookbehindOverrun,
        lzo::EResult::OutputOverrun => EResult::OutputOverrun,
        lzo::EResult::InputOverrun => EResult::InputOverrun,
        lzo::EResult::InputNotConsumed(_) => EResult::InputNotConsumed,
        lzo::EResult::Error => EResult::Error,
    }
}

impl<'a> From<&'a lzo::EResult> for EResult {
    fn from(err: &'a lzo::EResult) -> (r: Self) {
        match err {
            lzo::EResult::LookbehindOverrun => EResult::LookbehindOverrun,
            lzo::EResult::OutputOverrun => EResult::OutputOverrun,
            lzo::EResult::InputOverrun => EResult::InputOverrun,
            lzo::EResult::InputNotConsumed(_) => EResult::InputNotConsumed,
            lzo::EResult::Error => EResult::Error,
        }
    }
}

impl<'a> vstd::std_specs::convert::FromSpecImpl<&'a lzo::EResult> for EResult {
    open spec fn obeys_from_spec() -> bool {
        true
    }

    open spec fn from_spec(err: &'a lzo::EResult) -> Self {
        kind_of(*err)
    }
}

/// Why a compression or decompression failed. Decompression that stops
/// before the end of its input still hands out what it decompressed.
#[derive(Debug)]
pub enum LZOError {
    Failed(EResult),
    InputNotConsumed(Vec<u8>),
}

/// Size of the buffer `LZOCompressor::compress` compresses an input of `n`
/// bytes into.
pub open spec fn max_compressed_len(n: int) -> int {
    n + n / 16 + 64 + 3
}

/// LZO1X compressor: it keeps the dictionary that compressions reuse.
pub struct LZOCompressor {
    dict: Dict,
}

impl LZOCompressor {
    /// The dictionary is ready for use.
    pub closed spec fn wf(&self) -> bool {
        self.dict.wf()
    }

    /// No compression has used the dictionary yet.
    pub closed spec fn fresh(&self) -> bool {
        self.dict.fresh()
    }

    pub fn new() -> (r: Self)
        ensures
            r.wf(),
            r.fresh(),
    {
        Self { dict: Dict::new() }
    }

    /// Compresses `data` into a buffer of `max_compressed_len` bytes, which
    /// always holds the result: the stream `compressed(data)`, made of literal
    /// runs of `data` and copies of earlier bytes, which decompresses back to
    /// `data`. It depends on `data` alone, not on earlier calls.
    pub fn compress(&mut self, data: &[u8]) -> (r: Result<Vec<u8>, LZOError>)
        requires
            old(self).wf(),
            max_compressed_len(data@.len() as int) <= usize::MAX,
        ensures
            final(self).wf(),
            r matches Ok(v) && v@ == compressed(data@),
            r matches Ok(v) && is_stream_of(data@, v@) && (data@.len() >= 1 ==> decoded(v@) == (
                Ok::<usize, lzo::EResult>(data@.len() as usize),
                data@,
            )),
    {
        let max_size = data.len() + data.len() / 16 + 64 + 3;
        let mut dst: Vec<u8> = vec![0u8; max_size];
        let res = lzo::compress(data, dst.as_mut_slice(), &mut self.dict);
        match res {
            Ok(compressed_size) => {
                dst.truncate(compressed_size);
                proof {
                    if data@.len() >= 1 {
                        lemma_compressed_roundtrip(data@, dst@, data@.len() as int);
                    }
                }
                Ok(dst)
            },
            Err(e) => {
                proof {
                    lemma_no_overflow(data@, max_size as int);
                }
                Err(LZOError::Failed(EResult::from(&e)))
            },
        }
    }

    /// Decompresses `data` into a buffer of `output_size_hint` bytes (twice
    /// the input size without a hint), doubling the buffer (an empty one
    /// grows to one byte, and growth stops at the largest addressable size)
    /// while it is too small. The result does not depend on the hint: it is
    /// decompression into a buffer that any output fits in (`decoded`): the
    /// decompressed bytes, those bytes when the stream ends before the input,
    /// or the kind of error (`OutputOverrun` only when the output exceeds
    /// what memory can address).
    pub fn decompress(data: &[u8], output_size_hint: Option<usize>) -> (r: Result<Vec<u8>, LZOError>)
        ensures
            match decoded(data@) {
                (Ok(_), o) => r matches Ok(v) && v@ == o,
                (Err(lzo::EResult::InputNotConsumed(_)), o) => r matches Err(LZOError::InputNotConsumed(v)) && v@ == o,
                (Err(e), _) => r matches Err(LZOError::Failed(k)) && k == kind_of(e),
            },
    {
        let ghost big = 255 * data@.len() as int;
        let size = match output_size_hint {
            Some(hint) => hint,
            None => if data.len() <= usize::MAX / 2 { 2 * data.len() } else { usize::MAX },
        };
        let mut dst: Vec<u8> = vec![0u8; size];
        let ghost c0 = dst@.len() as int;
        let mut result = lzo::decompress(data, dst.as_mut_slice());
        proof {
            lemma_decompress_len(data@, c0);
            assert(dst@.len() == c0);
        }
        let mut overrun = matches!(result, Err(lzo::EResult::OutputOverrun));
        while overrun && dst.len() < usize::MAX
            invariant
                result == spec_decompress(data@, dst@.len() as int).0,
                dst@ == spec_decompress(data@, dst@.len() as int).1 + dst@.skip(
                    spec_decompress(data@, dst@.len() as int).1.len() as int,
                ),
                overrun == (result == Err::<usize, lzo::EResult>(lzo::EResult::OutputOverrun)),
            decreases usize::MAX - dst@.len(),
        {
            let len = dst.len();
            let new_size = if len == 0 {
                1
            } else if len <= usize::MAX / 2 {
                2 * len
            } else {
                usize::MAX
            };
            dst.resize(new_size, 0);
            let ghost c1 = dst@.len() as int;
            result = lzo::decompress(data, dst.as_mut_slice());
            proof {
                lemma_decompress_len(data@, c1);
                assert(dst@.len() == c1);
            }
            overrun = matches!(result, Err(lzo::EResult::OutputOverrun));
        }
        let dlen = dst.len();
        let ghost cap = dlen as int;
        proof {
            assert(decode_cap(data@) == if big <= usize::MAX { big } else { usize::MAX as int });
            lemma_decompress_fits(data@, big);
            lemma_decompress_len(data@, cap);
            if overrun {
                // The largest buffer does not suffice: the output does not fit in memory.
                if big <= usize::MAX {
                    lemma_decompress_capacity(data@, big, cap);
                }
            } else {
                if cap <= big {
                    lemma_decompress_capacity(data@, cap, big);
                    lemma_decompress_len(data@, big);
                } else {
                    lemma_decompress_capacity(data@, big, cap);
                }
                if big > usize::MAX {
                    lemma_decompress_exact_capacity(data@, cap, usize::MAX as int);
                }
            }
        }
        match result {
            Ok(n) => {
                dst.truncate(n);
                Ok(dst)
            },
            Err(lzo::EResult::InputNotConsumed(n)) => {
                dst.truncate(n);
                Err(LZOError::InputNotConsumed(dst))
            },
            Err(e) => Err(LZOError::Failed(EResult::from(&e))),
        }
    }
}

impl Default for LZOCompressor {
    fn default() -> (r: Self)
        ensures
            r.wf(),
            r.fresh(),
    {
        Self::new()
    }
}

} // verus!

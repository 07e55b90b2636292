//! The decoder.
use vstd::prelude::*;
use crate::format::{
    be32_value, decode_blocks, decode_tokens, decompressed, prepend, ESCAPE_FLAG, RUN_FLAG,
};

verus! {

/// Why a buffer could not be decompressed.
#[derive(Debug, Clone, Copy, PartialEq, Eq)]
pub enum DecompressError {
    /// A block count, a payload length or a token reads past the end of the
    /// bytes it belongs to.
    MalformedInput,
}

/// Putting `b` and then `a` in front is putting `a + b` in front.
proof fn lemma_prepend_prepend(a: Seq<u8>, b: Seq<u8>, o: Option<Seq<u8>>)
    ensures
        prepend(a, prepend(b, o)) == prepend(a + b, o),
{
    if let Some(x) = o {
        assert(a + (b + x) =~= (a + b) + x);
    }
}

/// Reads the big-endian number in `s[at..at + 4]`.
fn read_be32(s: &[u8], at: usize) -> (r: u32)
    requires
        at + 4 <= s@.len(),
    ensures
        r as nat == be32_value(s@.skip(at as int)),
{
    (s[at] as u32) * 16777216 + (s[at + 1] as u32) * 65536 + (s[at + 2] as u32) * 256
        + (s[at + 3] as u32)
}

/// Decodes the token stream `s[start..end]`, appending its bytes to `out`.
/// On `Err`, `out` holds what was decoded before the token that did not fit.
fn decode_block(s: &[u8], start: usize, end: usize, out: &mut Vec<u8>) -> (r: Result<
    (),
    DecompressError,
>)
    requires
        start <= end <= s@.len(),
    ensures
        match decode_tokens(s@.subrange(start as int, end as int)) {
            Some(b) => r is Ok && final(out)@ == old(out)@ + b,
            None => r is Err,
        },
{
    let ghost out0 = old(out)@;
    let mut idx: usize = start;
    while idx < end
        invariant
            start <= idx <= end <= s@.len(),
            prepend(out@, decode_tokens(s@.subrange(idx as int, end as int)))
                == prepend(out0, decode_tokens(s@.subrange(start as int, end as int))),
        decreases end - idx,
    {
        let ghost p = s@.subrange(idx as int, end as int);
        let ghost before = out@;
        let flag = s[idx];
        if flag == ESCAPE_FLAG {
            if end - idx < 2 {
                return Err(DecompressError::MalformedInput);
            }
            out.push(s[idx + 1]);
            assert(p.skip(2) =~= s@.subrange(idx + 2, end as int));
            proof {
                lemma_prepend_prepend(before, seq![p[1]], decode_tokens(p.skip(2)));
            }
            assert(out@ =~= before + seq![p[1]]);
            idx += 2;
        } else if flag == RUN_FLAG {
            if end - idx < 3 {
                return Err(DecompressError::MalformedInput);
            }
            let run_len = s[idx + 1];
            let byte = s[idx + 2];
            let mut j: u8 = 0;
            while j < run_len
                invariant
                    j <= run_len,
                    out@ == before + Seq::new(j as nat, |k: int| byte),
                decreases run_len - j,
            {
                out.push(byte);
                j += 1;
                assert(out@ =~= before + Seq::new(j as nat, |k: int| byte));
            }
            assert(p.skip(3) =~= s@.subrange(idx + 3, end as int));
            proof {
                lemma_prepend_prepend(before, Seq::new(p[1] as nat, |k: int| p[2]), decode_tokens(p.skip(3)));
            }
            assert(out@ =~= before + Seq::new(p[1] as nat, |k: int| p[2]));
            idx += 3;
        } else {
            out.push(flag);
            assert(p.drop_first() =~= s@.subrange(idx + 1, end as int));
            proof {
                lemma_prepend_prepend(before, seq![p[0]], decode_tokens(p.drop_first()));
            }
            assert(out@ =~= before + seq![p[0]]);
            idx += 1;
        }
    }
    assert(s@.subrange(end as int, end as int) =~= Seq::<u8>::empty());
    assert(out@ + Seq::<u8>::empty() =~= out@);
    Ok(())
}

/// Decompresses a buffer made by `compress`. Fails with `MalformedInput`
/// exactly where the block count, a payload length or a token reads past the
/// end of its bytes; bytes after the last block are ignored.
pub fn decompress(compressed: &[u8]) -> (r: Result<Vec<u8>, DecompressError>)
    ensures
        match decompressed(compressed@) {
            Some(b) => r is Ok && r->Ok_0@ == b,
            None => r == Err::<Vec<u8>, DecompressError>(DecompressError::MalformedInput),
        },
{
    let ghost s = compressed@;
    let len = compressed.len();
    let mut output: Vec<u8> = Vec::new();
    if len < 4 {
        return Err(DecompressError::MalformedInput);
    }
    let block_count = read_be32(compressed, 0);
    assert(s.skip(0) =~= s);
    let mut idx: usize = 4;
    let mut done: u32 = 0;
    assert(output@ + Seq::<u8>::empty() =~= output@);
    while done < block_count
        invariant
            4 <= idx <= len == s.len(),
            s == compressed@,
            done <= block_count,
            block_count == be32_value(s),
            prepend(output@, decode_blocks(s.skip(idx as int), (block_count - done) as nat))
                == decompressed(s),
        decreases block_count - done,
    {
        let ghost rest = s.skip(idx as int);
        let ghost before = output@;
        if len - idx < 4 {
            return Err(DecompressError::MalformedInput);
        }
        let comp_len = read_be32(compressed, idx) as usize;
        assert(rest.skip(0) =~= s.skip(idx as int));
        if len - idx - 4 < comp_len {
            return Err(DecompressError::MalformedInput);
        }
        let start = idx + 4;
        let end = start + comp_len;
        assert(rest.subrange(4, 4 + comp_len) =~= s.subrange(start as int, end as int));
        assert(rest.skip(4 + comp_len) =~= s.skip(end as int));
        let res = decode_block(compressed, start, end, &mut output);
        if res.is_err() {
            return Err(DecompressError::MalformedInput);
        }
        proof {
            let b = decode_tokens(s.subrange(start as int, end as int))->Some_0;
            lemma_prepend_prepend(before, b, decode_blocks(s.skip(end as int), (block_count - done - 1) as nat));
        }
        idx = end;
        done += 1;
    }
    assert(output@ + Seq::<u8>::empty() =~= output@);
    Ok(output)
}

} // verus!

//! The compressed format as mathematics: what the encoder produces and what
//! the decoder accepts, over sequences of bytes.
use vstd::prelude::*;

verus! {

/// Largest number of raw bytes in one block.
pub const BLOCK_SIZE: usize = 262144;

/// Flag byte that starts a run token: flag, length, value.
pub const RUN_FLAG: u8 = 254;

/// Flag byte that starts an escaped literal: flag, value.
pub const ESCAPE_FLAG: u8 = 255;

/// Runs shorter than this are written as literals.
pub const MIN_RUN: usize = 3;

/// Longest run that one run token can hold.
pub const MAX_RUN: usize = 255;

/// The four bytes of `n` in big-endian order.
pub open spec fn be32(n: nat) -> Seq<u8> {
    seq![
        ((n / 16777216) % 256) as u8,
        ((n / 65536) % 256) as u8,
        ((n / 256) % 256) as u8,
        (n % 256) as u8,
    ]
}

/// The number held by the first four bytes of `s`, read big-endian.
pub open spec fn be32_value(s: Seq<u8>) -> nat
    recommends
        s.len() >= 4,
{
    (s[0] * 16777216 + s[1] * 65536 + s[2] * 256 + s[3]) as nat
}

/// Reading back the four bytes of a number that fits them gives the number.
pub proof fn lemma_be32_value(n: nat, rest: Seq<u8>)
    requires
        n < 0x1_0000_0000,
    ensures
        be32_value(be32(n) + rest) == n,
        (be32(n) + rest).len() == 4 + rest.len(),
{
    let s = be32(n) + rest;
    assert(s[0] == n / 16777216);
    assert(s[1] == (n / 65536) % 256);
    assert(s[2] == (n / 256) % 256);
    assert(s[3] == n % 256);
    assert((n / 16777216) * 16777216 + ((n / 65536) % 256) * 65536 + ((n / 256) % 256) * 256 + n % 256 == n) by (nonlinear_arith)
        requires n < 0x1_0000_0000;
}

/// Length of the longest prefix of `s` whose bytes all equal `s[0]`.
pub open spec fn head_run(s: Seq<u8>) -> nat
    decreases s.len(),
{
    if s.len() == 0 {
        0
    } else if s.len() == 1 || s[1] != s[0] {
        1
    } else {
        1 + head_run(s.drop_first())
    }
}

/// The run the encoder takes at the start of `s`: the maximal run, cut at
/// the largest length that one run token can hold.
pub open spec fn run_length(s: Seq<u8>) -> nat {
    if head_run(s) > MAX_RUN {
        MAX_RUN as nat
    } else {
        head_run(s)
    }
}

/// The token that stands for the single byte `b`.
pub open spec fn literal_token(b: u8) -> Seq<u8> {
    if b == RUN_FLAG || b == ESCAPE_FLAG {
        seq![ESCAPE_FLAG, b]
    } else {
        seq![b]
    }
}

/// The token that stands for `len` copies of `b`.
pub open spec fn run_token(len: nat, b: u8) -> Seq<u8> {
    seq![RUN_FLAG, len as u8, b]
}

/// The encoded payload of one block: runs of at least `MIN_RUN` bytes become
/// run tokens, every other byte a literal token.
pub open spec fn encode_tokens(s: Seq<u8>) -> Seq<u8>
    decreases s.len(),
{
    if s.len() == 0 {
        Seq::empty()
    } else {
        proof {
            lemma_head_run_bounds(s);
        }
        let r = run_length(s);
        if r >= MIN_RUN {
            run_token(r, s[0]) + encode_tokens(s.skip(r as int))
        } else {
            literal_token(s[0]) + encode_tokens(s.drop_first())
        }
    }
}

/// The maximal run is non-empty on non-empty input, fits in `s`, holds only
/// copies of `s[0]`, and is followed by a different byte or the end.
pub proof fn lemma_head_run_bounds(s: Seq<u8>)
    ensures
        s.len() > 0 ==> 1 <= head_run(s),
        head_run(s) <= s.len(),
        forall|k: int| 0 <= k < head_run(s) ==> #[trigger] s[k] == s[0],
        head_run(s) < s.len() ==> s[head_run(s) as int] != s[0],
    decreases s.len(),
{
    if s.len() > 1 && s[1] == s[0] {
        let t = s.drop_first();
        lemma_head_run_bounds(t);
        assert forall|k: int| 0 <= k < head_run(s) implies #[trigger] s[k] == s[0] by {
            if k > 0 {
                assert(s[k] == t[k - 1]);
            }
        }
    }
}

/// A prefix of `r` equal bytes that ends at the end of `s`, at a different
/// byte, or at the longest run a token holds, is the run the encoder takes.
pub proof fn lemma_run_length_is(s: Seq<u8>, r: nat)
    requires
        1 <= r <= MAX_RUN,
        r <= s.len(),
        forall|k: int| 0 <= k < r ==> #[trigger] s[k] == s[0],
        r == MAX_RUN || r == s.len() || s[r as int] != s[0],
    ensures
        run_length(s) == r,
{
    lemma_head_run_bounds(s);
    lemma_head_run_at_least(s, r);
}

proof fn lemma_head_run_at_least(s: Seq<u8>, r: nat)
    requires
        1 <= r <= s.len(),
        forall|k: int| 0 <= k < r ==> #[trigger] s[k] == s[0],
    ensures
        head_run(s) >= r,
    decreases r,
{
    if r > 1 {
        let t = s.drop_first();
        assert(s[1] == s[0]);
        assert forall|k: int| 0 <= k < r - 1 implies #[trigger] t[k] == t[0] by {
            assert(t[k] == s[k + 1]);
        }
        lemma_head_run_at_least(t, (r - 1) as nat);
    }
}

/// Number of blocks that `n` raw bytes are cut into.
pub open spec fn block_count(n: nat) -> nat {
    ((n + BLOCK_SIZE - 1) / (BLOCK_SIZE as int)) as nat
}

/// Length of the first block of `n` remaining raw bytes.
pub open spec fn first_block_len(n: nat) -> nat {
    if n <= BLOCK_SIZE {
        n
    } else {
        BLOCK_SIZE as nat
    }
}

/// One block as it stands in the frame: payload length, then payload.
pub open spec fn framed_block(b: Seq<u8>) -> Seq<u8> {
    be32(encode_tokens(b).len()) + encode_tokens(b)
}

/// The framed blocks of `data`, cut at every `BLOCK_SIZE` bytes.
pub open spec fn encode_blocks(data: Seq<u8>) -> Seq<u8>
    decreases data.len(),
{
    if data.len() == 0 {
        Seq::empty()
    } else {
        let n = first_block_len(data.len());
        framed_block(data.take(n as int)) + encode_blocks(data.skip(n as int))
    }
}

/// The compressed form of `data`: block count, then each framed block.
pub open spec fn compressed(data: Seq<u8>) -> Seq<u8> {
    be32(block_count(data.len())) + encode_blocks(data)
}

/// Largest input whose block count fits the four-byte count field.
pub const MAX_INPUT_LEN: u64 = 0xFFFF_FFFF * 262144;

/// `MAX_INPUT_LEN` as a number.
pub open spec fn max_input_len() -> nat {
    MAX_INPUT_LEN as nat
}

/// `o` with `a` put in front of its bytes, or `None` where `o` is `None`.
pub open spec fn prepend(a: Seq<u8>, o: Option<Seq<u8>>) -> Option<Seq<u8>> {
    match o {
        Some(x) => Some(a + x),
        None => None,
    }
}

/// The bytes that a token stream stands for, or `None` where it ends
/// inside a token.
pub open spec fn decode_tokens(p: Seq<u8>) -> Option<Seq<u8>>
    decreases p.len(),
{
    if p.len() == 0 {
        Some(Seq::empty())
    } else if p[0] == ESCAPE_FLAG {
        if p.len() < 2 {
            None
        } else {
            prepend(seq![p[1]], decode_tokens(p.skip(2)))
        }
    } else if p[0] == RUN_FLAG {
        if p.len() < 3 {
            None
        } else {
            prepend(Seq::new(p[1] as nat, |i: int| p[2]), decode_tokens(p.skip(3)))
        }
    } else {
        prepend(seq![p[0]], decode_tokens(p.drop_first()))
    }
}

/// The bytes of `count` framed blocks at the start of `s`, or `None` where
/// a length field or a payload runs past the end of `s`.
pub open spec fn decode_blocks(s: Seq<u8>, count: nat) -> Option<Seq<u8>>
    decreases count,
{
    if count == 0 {
        Some(Seq::empty())
    } else if s.len() < 4 {
        None
    } else {
        let len = be32_value(s) as int;
        if s.len() - 4 < len {
            None
        } else {
            match decode_tokens(s.subrange(4, 4 + len)) {
                Some(b) => prepend(b, decode_blocks(s.skip(4 + len), (count - 1) as nat)),
                None => None,
            }
        }
    }
}

/// The bytes that a compressed buffer stands for, or `None` where it is
/// malformed. Bytes after the last block are not read.
pub open spec fn decompressed(s: Seq<u8>) -> Option<Seq<u8>> {
    if s.len() < 4 {
        None
    } else {
        decode_blocks(s.skip(4), be32_value(s))
    }
}

} // verus!

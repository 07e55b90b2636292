//! Properties of the format, proved over the spec functions that `compress`
//! and `decompress` are verified against.
use vstd::prelude::*;
use crate::format::{
    be32, block_count, compressed, decode_blocks, decode_tokens, decompressed, encode_blocks,
    encode_tokens, first_block_len, framed_block, head_run, lemma_be32_value,
    lemma_head_run_bounds, lemma_run_length_is, literal_token, max_input_len, run_length,
    run_token, ESCAPE_FLAG, MIN_RUN, RUN_FLAG,
};

verus! {

/// A block's payload is at most twice as long as the block.
pub proof fn lemma_encode_tokens_len(s: Seq<u8>)
    ensures
        encode_tokens(s).len() <= 2 * s.len(),
    decreases s.len(),
{
    if s.len() > 0 {
        lemma_head_run_bounds(s);
        let r = run_length(s);
        if r >= MIN_RUN {
            lemma_encode_tokens_len(s.skip(r as int));
        } else {
            lemma_encode_tokens_len(s.drop_first());
        }
    }
}

/// Decoding a block's payload gives the block back.
pub proof fn lemma_decode_encode_tokens(s: Seq<u8>)
    ensures
        decode_tokens(encode_tokens(s)) == Some(s),
    decreases s.len(),
{
    if s.len() == 0 {
        assert(encode_tokens(s) =~= Seq::<u8>::empty());
        assert(s =~= Seq::<u8>::empty());
    } else {
        lemma_head_run_bounds(s);
        let r = run_length(s);
        let e = encode_tokens(s);
        if r >= MIN_RUN {
            let tail = encode_tokens(s.skip(r as int));
            assert(e == run_token(r, s[0]) + tail);
            assert(e[0] == RUN_FLAG);
            assert(e[1] == r as u8);
            assert(e[2] == s[0]);
            assert(e.skip(3) =~= tail);
            lemma_decode_encode_tokens(s.skip(r as int));
            assert(Seq::new(e[1] as nat, |i: int| e[2]) + s.skip(r as int) =~= s);
        } else {
            let tail = encode_tokens(s.drop_first());
            lemma_decode_encode_tokens(s.drop_first());
            assert(e == literal_token(s[0]) + tail);
            if s[0] == RUN_FLAG || s[0] == ESCAPE_FLAG {
                assert(e[0] == ESCAPE_FLAG);
                assert(e.skip(2) =~= tail);
            } else {
                assert(e.drop_first() =~= tail);
            }
            assert(seq![s[0]] + s.drop_first() =~= s);
        }
    }
}

proof fn lemma_decode_encode_blocks(data: Seq<u8>)
    ensures
        decode_blocks(encode_blocks(data), block_count(data.len())) == Some(data),
    decreases data.len(),
{
    if data.len() == 0 {
        assert(data =~= Seq::<u8>::empty());
    } else {
        let n = first_block_len(data.len());
        let b = data.take(n as int);
        let p = encode_tokens(b);
        let rest = encode_blocks(data.skip(n as int));
        let e = encode_blocks(data);
        lemma_encode_tokens_len(b);
        lemma_decode_encode_tokens(b);
        lemma_decode_encode_blocks(data.skip(n as int));
        assert(e =~= be32(p.len()) + (p + rest));
        lemma_be32_value(p.len(), p + rest);
        assert(e.subrange(4, 4 + p.len() as int) =~= p);
        assert(e.skip(4 + p.len() as int) =~= rest);
        assert(block_count(data.len()) - 1 == block_count(data.skip(n as int).len()));
        assert(b + data.skip(n as int) =~= data);
    }
}

/// Decompressing what `compress` made gives the input back, for every input
/// whose block count fits the count field.
pub proof fn lemma_round_trip(data: Seq<u8>)
    requires
        data.len() <= max_input_len(),
    ensures
        decompressed(compressed(data)) == Some(data),
{
    let e = encode_blocks(data);
    lemma_be32_value(block_count(data.len()), e);
    assert(compressed(data).skip(4) =~= e);
    lemma_decode_encode_blocks(data);
}

/// `n` copies of the byte `v`.
pub open spec fn uniform(n: nat, v: u8) -> Seq<u8> {
    Seq::new(n, |i: int| v)
}

/// A run of exactly the longest length a token holds is one run token; one
/// byte more is that run token followed by a literal token for the last byte.
pub proof fn lemma_run_boundary(v: u8)
    ensures
        encode_tokens(uniform(255, v)) == run_token(255, v),
        encode_tokens(uniform(256, v)) == run_token(255, v) + literal_token(v),
{
    let a = uniform(255, v);
    lemma_run_length_is(a, 255);
    assert(a.skip(255) =~= Seq::<u8>::empty());
    assert(encode_tokens(Seq::<u8>::empty()) == Seq::<u8>::empty());
    assert(run_token(255, v) + Seq::<u8>::empty() =~= run_token(255, v));
    assert(encode_tokens(a) =~= run_token(255, v));
    let b = uniform(256, v);
    lemma_run_length_is(b, 255);
    let t = b.skip(255);
    assert(t =~= seq![v]);
    assert(run_length(t) == 1);
    assert(t.drop_first() =~= Seq::<u8>::empty());
    assert(encode_tokens(t) =~= literal_token(v));
    assert(encode_tokens(b) =~= run_token(255, v) + literal_token(v));
}

/// Two equal bytes are two literal tokens, never a run token.
pub proof fn lemma_pair_is_literals(v: u8)
    ensures
        encode_tokens(seq![v, v]) == literal_token(v) + literal_token(v),
{
    let s = seq![v, v];
    let t = s.drop_first();
    assert(t =~= seq![v]);
    assert(head_run(t) == 1);
    assert(head_run(s) == 2);
    assert(t.drop_first() =~= Seq::<u8>::empty());
    assert(encode_tokens(Seq::<u8>::empty()) == Seq::<u8>::empty());
    assert(literal_token(v) + Seq::<u8>::empty() =~= literal_token(v));
    assert(encode_tokens(t) =~= literal_token(v));
    assert(encode_tokens(s) =~= literal_token(v) + literal_token(v));
}

/// One byte past a block's size makes two blocks, cut at `BLOCK_SIZE`, even
/// inside a run.
pub proof fn lemma_block_split(v: u8)
    ensures
        compressed(uniform(262145, v)) == be32(2) + framed_block(uniform(262144, v)) + framed_block(
            uniform(1, v),
        ),
{
    let d = uniform(262145, v);
    assert(block_count(262145) == 2);
    let t = d.skip(262144);
    assert(d.take(262144) =~= uniform(262144, v));
    assert(t =~= uniform(1, v));
    assert(t.take(1) =~= t);
    assert(t.skip(1) =~= Seq::<u8>::empty());
    assert(encode_blocks(Seq::<u8>::empty()) == Seq::<u8>::empty());
    assert(framed_block(t) + Seq::<u8>::empty() =~= framed_block(t));
    assert(encode_blocks(t) =~= framed_block(uniform(1, v)));
    assert(compressed(d) =~= be32(2) + framed_block(uniform(262144, v)) + framed_block(uniform(1, v)));
}

proof fn lemma_encode_blocks_len(data: Seq<u8>)
    ensures
        encode_blocks(data).len() <= 2 * data.len() + 4 * block_count(data.len()),
    decreases data.len(),
{
    if data.len() > 0 {
        let n = first_block_len(data.len());
        lemma_encode_tokens_len(data.take(n as int));
        lemma_encode_blocks_len(data.skip(n as int));
        assert(block_count(data.len()) == 1 + block_count(data.skip(n as int).len()));
    }
}

/// No input grows by more than twice its length plus the framing: four bytes
/// of block count and four of length for each block.
pub proof fn lemma_compressed_len_bound(data: Seq<u8>)
    ensures
        compressed(data).len() <= 2 * data.len() + 4 * block_count(data.len()) + 4,
{
    lemma_encode_blocks_len(data);
}

proof fn lemma_uniform_tokens_len(n: nat, v: u8)
    ensures
        encode_tokens(uniform(n, v)).len() <= 3 * (n / 255) + 4,
    decreases n,
{
    let s = uniform(n, v);
    if n > 0 {
        lemma_head_run_bounds(s);
        if n >= 255 {
            lemma_run_length_is(s, 255);
            assert(s.skip(255) =~= uniform((n - 255) as nat, v));
            lemma_uniform_tokens_len((n - 255) as nat, v);
            assert((n - 255) as nat / 255 + 1 == n / 255);
        } else if n >= 3 {
            lemma_run_length_is(s, n);
            assert(s.skip(n as int) =~= Seq::<u8>::empty());
            assert(encode_tokens(Seq::<u8>::empty()) == Seq::<u8>::empty());
        } else {
            lemma_run_length_is(s, n);
            assert(s.drop_first() =~= uniform((n - 1) as nat, v));
            lemma_uniform_tokens_len((n - 1) as nat, v);
            if n == 2 {
                lemma_pair_is_literals(v);
                assert(s =~= seq![v, v]);
            } else {
                assert(s.drop_first() =~= Seq::<u8>::empty());
                assert(encode_tokens(Seq::<u8>::empty()) == Seq::<u8>::empty());
            }
        }
    }
}

proof fn lemma_uniform_blocks_len(n: nat, v: u8)
    ensures
        255 * encode_blocks(uniform(n, v)).len() <= 3 * n + 2040 * block_count(n),
    decreases n,
{
    let d = uniform(n, v);
    if n > 0 {
        let b = first_block_len(n);
        assert(d.take(b as int) =~= uniform(b, v));
        assert(d.skip(b as int) =~= uniform((n - b) as nat, v));
        lemma_uniform_tokens_len(b, v);
        lemma_uniform_blocks_len((n - b) as nat, v);
        assert(block_count(n) == 1 + block_count((n - b) as nat));
        assert(255 * (b / 255) <= b);
    }
}

/// Input that repeats one byte, of at least 300000 bytes, compresses to at
/// most a fiftieth of its length.
pub proof fn lemma_uniform_shrinks(n: nat, v: u8)
    requires
        300000 <= n,
    ensures
        50 * compressed(uniform(n, v)).len() <= n,
{
    lemma_uniform_blocks_len(n, v);
    let e = encode_blocks(uniform(n, v)).len();
    let c = block_count(n);
    assert(262144 * c <= n + 262143);
    assert(50 * (4 + e) <= n) by (nonlinear_arith)
        requires
            255 * e <= 3 * n + 2040 * c,
            262144 * c <= n + 262143,
            300000 <= n,
    ;
}

} // verus!

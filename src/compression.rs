//! The encoder.
use vstd::prelude::*;
use crate::format::{
    be32, block_count, compressed, encode_blocks, encode_tokens, lemma_run_length_is,
    literal_token, max_input_len, run_token, BLOCK_SIZE, ESCAPE_FLAG, MAX_RUN, MIN_RUN, RUN_FLAG,
};

verus! {

/// Appends the four big-endian bytes of `n`.
pub fn push_be32(out: &mut Vec<u8>, n: u32)
    ensures
        final(out)@ == old(out)@ + be32(n as nat),
{
    out.push((n / 16777216) as u8);
    out.push(((n / 65536) % 256) as u8);
    out.push(((n / 256) % 256) as u8);
    out.push((n % 256) as u8);
    assert(final(out)@ =~= old(out)@ + be32(n as nat));
}

/// Encodes the block `data[start..end]` as a token stream.
pub fn encode_block(data: &[u8], start: usize, end: usize) -> (r: Vec<u8>)
    requires
        start <= end <= data@.len(),
    ensures
        r@ == encode_tokens(data@.subrange(start as int, end as int)),
        r@.len() <= 2 * (end - start),
{
    let ghost whole = data@.subrange(start as int, end as int);
    let mut encoded: Vec<u8> = Vec::new();
    let mut i: usize = start;
    while i < end
        invariant
            start <= i <= end <= data@.len(),
            whole == data@.subrange(start as int, end as int),
            encoded@ + encode_tokens(data@.subrange(i as int, end as int)) == encode_tokens(whole),
            encoded@.len() <= 2 * (i - start),
        decreases end - i,
    {
        let ghost rest = data@.subrange(i as int, end as int);
        let byte = data[i];
        let mut run_len: usize = 1;
        while i + run_len < end && data[i + run_len] == byte && run_len < MAX_RUN
            invariant
                start <= i < end <= data@.len(),
                rest == data@.subrange(i as int, end as int),
                byte == rest[0],
                1 <= run_len <= MAX_RUN,
                i + run_len <= end,
                forall|k: int| 0 <= k < run_len ==> #[trigger] rest[k] == byte,
            decreases end - i - run_len,
        {
            run_len += 1;
        }
        proof {
            lemma_run_length_is(rest, run_len as nat);
        }
        let ghost before = encoded@;
        if run_len >= MIN_RUN {
            encoded.push(RUN_FLAG);
            encoded.push(run_len as u8);
            encoded.push(byte);
            assert(rest.skip(run_len as int) =~= data@.subrange((i + run_len) as int, end as int));
            assert(encoded@ =~= before + run_token(run_len as nat, byte));
            i += run_len;
        } else {
            if byte == RUN_FLAG || byte == ESCAPE_FLAG {
                encoded.push(ESCAPE_FLAG);
                encoded.push(byte);
            } else {
                encoded.push(byte);
            }
            assert(rest.drop_first() =~= data@.subrange((i + 1) as int, end as int));
            assert(encoded@ =~= before + literal_token(byte));
            i += 1;
        }
        assert(encoded@ + encode_tokens(data@.subrange(i as int, end as int)) =~= before + encode_tokens(rest));
    }
    encoded
}

/// Compresses `data`: cuts it into blocks of `BLOCK_SIZE` bytes, encodes each
/// as a token stream, and frames the result with the block count and each
/// payload's length.
pub fn compress(data: &[u8]) -> (r: Vec<u8>)
    requires
        data@.len() <= max_input_len(),
    ensures
        r@ == compressed(data@),
{
    let len = data.len();
    let count: usize = len / BLOCK_SIZE + if len % BLOCK_SIZE != 0 { 1 } else { 0 };
    assert(count == block_count(len as nat));
    let mut output: Vec<u8> = Vec::new();
    push_be32(&mut output, count as u32);
    let mut start: usize = 0;
    assert(data@.skip(0) =~= data@);
    while start < len
        invariant
            start <= len == data@.len(),
            output@ + encode_blocks(data@.skip(start as int)) == compressed(data@),
        decreases len - start,
    {
        let ghost rest = data@.skip(start as int);
        let end: usize = if len - start <= BLOCK_SIZE { len } else { start + BLOCK_SIZE };
        let mut encoded = encode_block(data, start, end);
        let ghost before = output@;
        push_be32(&mut output, encoded.len() as u32);
        output.append(&mut encoded);
        assert(rest.take((end - start) as int) =~= data@.subrange(start as int, end as int));
        assert(rest.skip((end - start) as int) =~= data@.skip(end as int));
        assert(output@ + encode_blocks(data@.skip(end as int)) =~= before + encode_blocks(rest));
        start = end;
    }
    assert(data@.skip(len as int) =~= Seq::<u8>::empty());
    assert(output@ =~= compressed(data@));
    output
}

} // verus!

use ada_compression::{compress, decompress, DecompressError, BLOCK_SIZE};

fn frame(count: u32, blocks: &[&[u8]]) -> Vec<u8> {
    let mut out = count.to_be_bytes().to_vec();
    for b in blocks {
        out.extend_from_slice(&(b.len() as u32).to_be_bytes());
        out.extend_from_slice(b);
    }
    out
}

fn pseudo_random(n: usize, seed: u64) -> Vec<u8> {
    let mut x = seed;
    let mut out = Vec::with_capacity(n);
    for _ in 0..n {
        x = x.wrapping_mul(6364136223846793005).wrapping_add(1442695040888963407);
        out.push((x >> 56) as u8);
    }
    out
}

fn round_trip(data: &[u8]) {
    let c = compress(data);
    assert_eq!(decompress(&c), Ok(data.to_vec()));
}

#[test]
fn round_trip_empty() {
    round_trip(&[]);
}

#[test]
fn round_trip_block_size_edges() {
    for n in [BLOCK_SIZE - 1, BLOCK_SIZE, BLOCK_SIZE + 1] {
        round_trip(&pseudo_random(n, n as u64));
        round_trip(&vec![254u8; n]);
    }
}

#[test]
fn round_trip_mixed_runs_and_noise() {
    let mut data = Vec::new();
    let noise = pseudo_random(20000, 7);
    for (k, chunk) in noise.chunks(37).enumerate() {
        data.extend(std::iter::repeat(chunk[0]).take(k % 300));
        data.extend_from_slice(chunk);
    }
    round_trip(&data);
}

#[test]
fn round_trip_every_byte_value() {
    let all: Vec<u8> = (0..=255u8).collect();
    round_trip(&all);
    let pairs: Vec<u8> = (0..=255u8).flat_map(|b| [b, b]).collect();
    round_trip(&pairs);
}

#[test]
fn empty_input_is_count_only() {
    let c = compress(&[]);
    assert_eq!(c, vec![0, 0, 0, 0]);
    assert_eq!(decompress(&c), Ok(vec![]));
}

#[test]
fn run_of_255_is_one_token() {
    for v in [0u8, 7, 254, 255] {
        assert_eq!(compress(&vec![v; 255]), frame(1, &[&[254, 255, v]]));
    }
}

#[test]
fn run_of_256_is_run_then_literal() {
    assert_eq!(compress(&vec![9u8; 256]), frame(1, &[&[254, 255, 9, 9]]));
    assert_eq!(compress(&vec![255u8; 256]), frame(1, &[&[254, 255, 255, 255, 255]]));
}

#[test]
fn pair_is_two_literals() {
    assert_eq!(compress(&[7, 7]), frame(1, &[&[7, 7]]));
    assert_eq!(compress(&[254, 254]), frame(1, &[&[255, 254, 255, 254]]));
}

#[test]
fn flag_bytes_are_escaped() {
    assert_eq!(compress(&[254]), frame(1, &[&[255, 254]]));
    assert_eq!(compress(&[255]), frame(1, &[&[255, 255]]));
    assert_eq!(compress(&[254, 254, 254]), frame(1, &[&[254, 3, 254]]));
}

#[test]
fn literal_and_run_mix() {
    assert_eq!(
        compress(&[1, 2, 2, 3, 3, 3, 3, 255, 4]),
        frame(1, &[&[1, 2, 2, 254, 4, 3, 255, 255, 4]])
    );
}

#[test]
fn block_split_at_block_size() {
    let data = vec![5u8; BLOCK_SIZE + 1];
    let c = compress(&data);
    assert_eq!(&c[0..4], &[0, 0, 0, 2]);
    // A block of 262144 equal bytes: 1028 runs of 255, then one of 4.
    let mut first = Vec::new();
    for _ in 0..1028 {
        first.extend_from_slice(&[254, 255, 5]);
    }
    first.extend_from_slice(&[254, 4, 5]);
    assert_eq!(c, frame(2, &[&first, &[5]]));
    assert_eq!(decompress(&c), Ok(data));
}

#[test]
fn repetitive_input_shrinks() {
    let n = 300000;
    let c = compress(&vec![42u8; n]);
    assert!(50 * c.len() <= n);
}

#[test]
fn flag_heavy_input_at_most_doubles() {
    let data: Vec<u8> = (0..1000).map(|i| if i % 2 == 0 { 254 } else { 255 }).collect();
    let c = compress(&data);
    assert_eq!(c.len(), 2 * data.len() + 8);
    round_trip(&data);
}

#[test]
fn random_input_overhead_is_bounded() {
    let data = pseudo_random(BLOCK_SIZE * 2 + 10, 99);
    let c = compress(&data);
    assert!(c.len() <= 2 * data.len() + 4 * 3 + 4);
    round_trip(&data);
}

#[test]
fn zero_blocks_decode_to_empty() {
    assert_eq!(decompress(&[0, 0, 0, 0, 1, 2, 3]), Ok(vec![]));
}

#[test]
fn trailing_bytes_are_ignored() {
    let mut c = compress(&[1, 2, 3]);
    c.extend_from_slice(&[9, 9, 9]);
    assert_eq!(decompress(&c), Ok(vec![1, 2, 3]));
}

#[test]
fn run_token_of_any_length_decodes() {
    assert_eq!(decompress(&frame(1, &[&[254, 0, 8, 254, 1, 8, 6]])), Ok(vec![8, 6]));
}

#[test]
fn short_buffer_is_malformed() {
    assert_eq!(decompress(&[]), Err(DecompressError::MalformedInput));
    assert_eq!(decompress(&[0, 0, 1]), Err(DecompressError::MalformedInput));
}

#[test]
fn missing_block_is_malformed() {
    assert_eq!(decompress(&[0, 0, 0, 1]), Err(DecompressError::MalformedInput));
    assert_eq!(decompress(&[0, 0, 0, 1, 0, 0]), Err(DecompressError::MalformedInput));
    assert_eq!(
        decompress(&[0, 0, 0, 2, 0, 0, 0, 1, 7]),
        Err(DecompressError::MalformedInput)
    );
}

#[test]
fn payload_past_end_is_malformed() {
    assert_eq!(
        decompress(&[0, 0, 0, 1, 0, 0, 0, 5, 1, 2]),
        Err(DecompressError::MalformedInput)
    );
}

#[test]
fn token_cut_by_block_end_is_malformed() {
    assert_eq!(decompress(&frame(1, &[&[1, 255]])), Err(DecompressError::MalformedInput));
    assert_eq!(decompress(&frame(1, &[&[254, 5]])), Err(DecompressError::MalformedInput));
    // The run's operands lie in the next block's bytes, not in its own.
    assert_eq!(
        decompress(&frame(2, &[&[254], &[3, 4]])),
        Err(DecompressError::MalformedInput)
    );
}

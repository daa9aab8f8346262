use mkfile::generate::{
    chunk_size, fill_chunk, rand_bytes, zero_bytes, ChunkPlan, Generator, CHUNK_SIZE,
    RAND_CHUNK_SIZE,
};

fn lengths(total: u64, chunk: u64, random: bool) -> Vec<usize> {
    let mut g = Generator::new(total, chunk, random);
    let expected = g.progress_total();
    let mut out = Vec::new();
    while let Some(buf) = g.next_buffer() {
        if !random {
            assert!(buf.iter().all(|b| *b == 0));
        }
        out.push(buf.len());
    }
    assert_eq!(out.len() as u64, expected);
    assert!(g.next_buffer().is_none());
    out
}

#[test]
fn ten_thousand_bytes_in_pages() {
    assert_eq!(lengths(10000, 4096, false), vec![4096, 4096, 1808]);
}

#[test]
fn chunks_cover_the_total() {
    for total in [0u64, 1, 4095, 4096, 4097, 8192, 10000, 123457] {
        for chunk in [1u64, 7, 4096] {
            for random in [false, true] {
                let lens = lengths(total, chunk, random);
                assert_eq!(lens.iter().sum::<usize>() as u64, total);
                assert!(lens.iter().all(|l| *l > 0 && *l as u64 <= chunk));
                assert_eq!(lens.len() as u64, (total + chunk - 1) / chunk);
            }
        }
    }
}

#[test]
fn empty_total_has_no_chunks() {
    assert_eq!(lengths(0, 4096, false), Vec::<usize>::new());
    assert_eq!(ChunkPlan::new(0, 4096).chunk_count(), 0);
}

#[test]
fn exact_multiple_has_no_remainder_chunk() {
    let p = ChunkPlan::new(8192, 4096);
    assert_eq!((p.full_chunks, p.remainder), (2, 0));
    assert_eq!(p.chunk_count(), 2);
    assert_eq!(p.chunk_len(1), 4096);
}

#[test]
fn plan_counts() {
    let p = ChunkPlan::new(10000, 4096);
    assert_eq!(p.full_chunks, 2);
    assert_eq!(p.remainder, 1808);
    assert_eq!(p.chunk_count(), 3);
    assert_eq!(p.chunk_len(0), 4096);
    assert_eq!(p.chunk_len(2), 1808);
}

#[test]
fn chunk_sizes_by_mode() {
    assert_eq!(CHUNK_SIZE, 4096);
    assert_eq!(RAND_CHUNK_SIZE, 4096 * 256);
    assert_eq!(chunk_size(false, true), CHUNK_SIZE);
    assert_eq!(chunk_size(true, true), RAND_CHUNK_SIZE);
    assert_eq!(chunk_size(true, false), CHUNK_SIZE);
    assert_eq!(chunk_size(false, false), CHUNK_SIZE);
}

#[test]
fn zero_content_is_zero() {
    let z = zero_bytes(5000);
    assert_eq!(z.len(), 5000);
    assert!(z.iter().all(|b| *b == 0));
    let f = fill_chunk(17, false);
    assert_eq!(f, vec![0u8; 17]);
}

#[test]
fn random_content_is_not_all_zero() {
    let r = rand_bytes(4096);
    assert_eq!(r.len(), 4096);
    assert!(r.iter().any(|b| *b != 0));
    assert_eq!(fill_chunk(33, true).len(), 33);
}

#[test]
fn random_bytes_are_roughly_uniform() {
    let n: usize = 256 * 4096;
    let r = rand_bytes(n as u64);
    let mut counts = [0usize; 256];
    for b in r.iter() {
        counts[*b as usize] += 1;
    }
    for c in counts.iter() {
        assert!(*c > 4096 - 800 && *c < 4096 + 800, "{}", c);
    }
}

#[test]
fn shared_blank_chunk_covers_every_zero_chunk() {
    let mut g = Generator::new(10000, 4096, false);
    let blank = g.blank_chunk();
    assert_eq!(blank.len(), 4096);
    assert!(blank.iter().all(|b| *b == 0));
    let mut lens = Vec::new();
    while let Some(len) = g.next_len() {
        lens.push(blank[..len as usize].len());
    }
    assert_eq!(lens, vec![4096, 4096, 1808]);
    assert_eq!(g.next_len(), None);
}

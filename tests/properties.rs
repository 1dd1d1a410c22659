use wavelet_matrix::{Symbol, WaveletMatrix};

const SAMPLE: [u8; 12] = [4, 7, 6, 5, 3, 2, 1, 0, 1, 4, 1, 7];

/// A small deterministic generator, enough to spread test inputs.
struct Lcg(u64);

impl Lcg {
    fn next(&mut self) -> u64 {
        self.0 = self
            .0
            .wrapping_mul(6364136223846793005)
            .wrapping_add(1442695040888963407);
        self.0 ^ (self.0 >> 29)
    }
}

fn cut(v: u64, size: u64) -> u64 {
    if size >= 64 {
        v
    } else {
        v & ((1u64 << size) - 1)
    }
}

fn brute_rank(vals: &[u64], size: u64, c: u64, k: u64) -> u64 {
    let end = (k as usize).min(vals.len());
    vals[..end]
        .iter()
        .filter(|&&v| cut(v, size) == cut(c, size))
        .count() as u64
}

fn brute_select(vals: &[u64], size: u64, c: u64, k: u64) -> u64 {
    vals.iter()
        .enumerate()
        .filter(|(_, &v)| cut(v, size) == cut(c, size))
        .nth(k as usize)
        .map(|(i, _)| i as u64)
        .unwrap_or(vals.len() as u64)
}

fn compare_all<T: Symbol + Copy + Into<u64> + PartialEq + std::fmt::Debug>(
    text: &[T],
    size: u64,
    probes: &[T],
) {
    let vals: Vec<u64> = text.iter().map(|&x| x.into()).collect();
    let wm = WaveletMatrix::new_with_size(text, size);
    assert_eq!(wm.len(), vals.len() as u64);
    assert_eq!(wm.width(), size);
    for (i, &v) in vals.iter().enumerate() {
        let got: u64 = wm.access(i as u64).into();
        assert_eq!(got, cut(v, size), "access({})", i);
    }
    for &c in text.iter().chain(probes.iter()) {
        let cv: u64 = c.into();
        for k in 0..=(vals.len() as u64 + 2) {
            assert_eq!(wm.rank(c, k), brute_rank(&vals, size, cv, k), "rank({}, {})", cv, k);
            assert_eq!(wm.select(c, k), brute_select(&vals, size, cv, k), "select({}, {})", cv, k);
        }
    }
}

#[test]
fn scenario_sample_sequence() {
    let wm = WaveletMatrix::new_with_size(&SAMPLE, 3);
    assert_eq!(wm.access(0), 4);
    assert_eq!(wm.access(9), 4);
    assert_eq!(wm.rank(1u8, 8), 1);
    assert_eq!(wm.select(1u8, 0), 6);
    assert_eq!(wm.select(1u8, 1), 8);
    assert_eq!(wm.select(1u8, 2), 10);
}

#[test]
fn rank_clamps_past_the_end() {
    let wm = WaveletMatrix::new_with_size(&SAMPLE, 3);
    assert_eq!(wm.rank(7u8, 12), 2);
    assert_eq!(wm.rank(7u8, 1000), 2);
    assert_eq!(wm.rank(7u8, u64::MAX), 2);
    assert_eq!(wm.rank(2u8, 0), 0);
}

#[test]
fn rank_is_non_decreasing() {
    let wm = WaveletMatrix::new_with_size(&SAMPLE, 3);
    for c in 0u8..8 {
        let mut prev = 0;
        for k in 0..20u64 {
            let r = wm.rank(c, k);
            assert!(r >= prev);
            prev = r;
        }
    }
}

#[test]
fn select_inverts_rank() {
    let wm = WaveletMatrix::new_with_size(&SAMPLE, 3);
    for c in 0u8..8 {
        let total = wm.rank(c, wm.len());
        let mut last = None;
        for k in 0..total {
            let p = wm.select(c, k);
            assert_eq!(wm.access(p), c);
            assert_eq!(wm.rank(c, p), k);
            if let Some(q) = last {
                assert!(p > q);
            }
            last = Some(p);
        }
    }
}

#[test]
fn select_past_last_occurrence_gives_length() {
    let wm = WaveletMatrix::new_with_size(&SAMPLE, 3);
    assert_eq!(wm.select(1u8, 3), 12);
    assert_eq!(wm.select(0u8, 1), 12);
    assert_eq!(wm.select(0u8, u64::MAX), 12);
    let empty: Vec<u16> = vec![];
    let e = WaveletMatrix::new(&empty);
    assert_eq!(e.select(5u16, 0), 0);
}

#[test]
fn empty_sequence_with_explicit_width() {
    let empty: Vec<u32> = vec![];
    let wm = WaveletMatrix::new_with_size(&empty, 5);
    assert_eq!(wm.len(), 0);
    assert_eq!(wm.rank(3u32, 0), 0);
    assert_eq!(wm.rank(3u32, 1_000_000), 0);
    assert_eq!(wm.row(0), Vec::<bool>::new());
}

#[test]
fn zero_width_reduces_every_symbol() {
    let text = [9u8, 200, 0, 17, 255];
    let wm = WaveletMatrix::new_with_size(&text, 0);
    for i in 0..5u64 {
        assert_eq!(wm.access(i), 0);
    }
    assert_eq!(wm.rank(0u8, 5), 5);
    assert_eq!(wm.rank(123u8, 5), 5);
    assert_eq!(wm.select(0u8, 3), 3);
}

#[test]
fn high_bits_are_truncated() {
    let text = [0xFFu8, 3, 0x13, 2];
    let wm = WaveletMatrix::new_with_size(&text, 2);
    assert_eq!(wm.access(0), 3);
    assert_eq!(wm.access(2), 3);
    assert_eq!(wm.rank(7u8, 4), 3);
    assert_eq!(wm.rank(3u8, 2), 2);
    assert_eq!(wm.select(0x43u8, 2), 2);
    assert_eq!(wm.select(2u8, 0), 3);
}

#[test]
fn default_width_is_the_type_width() {
    let text = [u64::MAX, 0, 1 << 63, u64::MAX];
    let wm = WaveletMatrix::new(&text);
    assert_eq!(wm.width(), 64);
    assert_eq!(wm.access(0), u64::MAX);
    assert_eq!(wm.access(2), 1 << 63);
    assert_eq!(wm.rank(u64::MAX, 4), 2);
    assert_eq!(wm.select(u64::MAX, 1), 3);
    let small = WaveletMatrix::new(&[300u16, 2]);
    assert_eq!(small.width(), 16);
    assert_eq!(small.access(0), 300);
}

#[test]
fn rows_hold_the_partitioned_bits() {
    let wm = WaveletMatrix::new_with_size(&SAMPLE, 3);
    let top: Vec<bool> = SAMPLE.iter().map(|&v| v & 4 != 0).collect();
    assert_eq!(wm.row(0), top);
    // Second row: zeros of the top bit first (3,2,1,0,1,1), then ones (4,7,6,5,4,7).
    let second: Vec<bool> = [3u8, 2, 1, 0, 1, 1, 4, 7, 6, 5, 4, 7]
        .iter()
        .map(|&v| v & 2 != 0)
        .collect();
    assert_eq!(wm.row(1), second);
}

#[test]
fn random_sequences_match_brute_force() {
    let mut g = Lcg(0x2545F4914F6CDD1D);
    for round in 0..40 {
        let n = (g.next() % 60) as usize;
        let size = g.next() % 9;
        let text: Vec<u8> = (0..n).map(|_| (g.next() % 256) as u8).collect();
        let probes: Vec<u8> = (0..4).map(|_| (g.next() % 256) as u8).collect();
        compare_all(&text, size, &probes);
        if round % 4 == 0 {
            let wide: Vec<u32> = (0..n).map(|_| (g.next() % 50) as u32 * 977).collect();
            let size = 10 + g.next() % 23;
            let probes: Vec<u32> = vec![0, 977, 3 * 977];
            compare_all(&wide, size, &probes);
        }
    }
}

#[test]
fn random_wide_symbols_match_brute_force() {
    let mut g = Lcg(7);
    for _ in 0..10 {
        let n = (g.next() % 40) as usize;
        let alphabet: Vec<u64> = (0..5).map(|_| g.next()).collect();
        let text: Vec<u64> = (0..n).map(|_| alphabet[(g.next() % 5) as usize]).collect();
        let size = 40 + g.next() % 25;
        compare_all(&text, size, &alphabet);
    }
}

use wavelet_matrix::WaveletMatrix;

#[test]
fn rank_small() {
    let numbers = &[4u8, 7, 6, 5, 3, 2, 1, 0, 1, 4, 1, 7];
    let size = 3;
    let wm = WaveletMatrix::new_with_size(numbers, size);
    assert_eq!(wm.len(), numbers.len() as u64);
    for i in 0..(1 << size) {
        let mut r = 0;
        for (k, &n) in numbers.iter().enumerate() {
            assert!(
                wm.rank(i as u8, k as u64) == r,
                "wm.rank({}, {}) == {}",
                i,
                k,
                r
            );
            if n == i {
                r = r + 1;
            }
        }
    }
}

#[test]
fn access_small() {
    let numbers = &[4u8, 7, 6, 5, 3, 2, 1, 0, 1, 4, 1, 7];
    let size = 3;
    let wm = WaveletMatrix::new_with_size(numbers, size);
    assert_eq!(wm.len(), numbers.len() as u64);
    for (i, &n) in numbers.iter().enumerate() {
        assert!(wm.access(i as u64) == n, "wm.access({}) == {}", i, n);
    }
}

#[test]
fn select_small() {
    let numbers = &[4u8, 7, 6, 5, 3, 2, 1, 0, 1, 4, 1, 7];
    let size = 3;
    let wm = WaveletMatrix::new_with_size(numbers, size);

    let mut ans: Vec<Vec<u64>> = vec![vec![]; 1 << size];
    for (i, &n) in numbers.iter().enumerate() {
        ans[n as usize].push(i as u64);
    }

    for (c, a) in ans.iter().enumerate() {
        for (k, &i) in a.iter().enumerate() {
            assert!(
                wm.select(c as u8, k as u64) == i,
                "wm.select({}, {}) == {}",
                c,
                k,
                i
            );
        }
    }
}

#[test]
fn empty() {
    let empty_vec: Vec<u8> = vec![];
    let wm = WaveletMatrix::new(&empty_vec);
    assert_eq!(wm.len(), 0);
    assert_eq!(wm.rank(0u8, 0), 0);
    assert_eq!(wm.rank(0u8, 10), 0);
    assert_eq!(wm.rank(1u8, 0), 0);
    assert_eq!(wm.rank(1u8, 10), 0);
}

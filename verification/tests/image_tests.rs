use toymc::image::Image;

/// Order-preserving embedding of finite floats into `i64`: comparisons of
/// keys agree with comparisons of the floats, so binning keys bins floats.
fn key(x: f64) -> i64 {
    let b = x.to_bits();
    if x >= 0.0 {
        b as i64
    } else {
        -((b & 0x7FFF_FFFF_FFFF_FFFF) as i64)
    }
}

fn keys(edges: &[f64]) -> Vec<i64> {
    edges.iter().map(|e| key(*e)).collect()
}

#[test]
fn simple() {
    let bins = vec![-7.0, -6.5, -0.5, 0.0, 0.5, 6.5, 7.0];
    let mut hist = Image::try_new(keys(&bins)).unwrap();
    hist.fill(key(-6.0), key(-5.5)); // bin 0
    hist.fill(key(5.5), key(-5.0)); // bin 1
    hist.fill(key(4.0), key(-4.5));
    hist.fill(key(-3.5), key(3.5)); // bin 2
    hist.fill(key(-3.0), key(2.5));
    hist.fill(key(-2.5), key(2.0));
    hist.fill(key(6.0), key(1.0)); // bin 3
    hist.fill(key(1.0), key(1.5));
    hist.fill(key(0.5), key(0.5));
    hist.fill(key(2.0), key(1.5));
    let m = hist.finalize();

    assert_eq!((m.len(), m[0].len()), (2, 2));
    assert_eq!(m[0][0], 1);
    assert_eq!(m[0][1], 2);
    assert_eq!(m[1][0], 3);
    assert_eq!(m[1][1], 4);
}

#[test]
fn hist_order() {
    let bins = vec![-0.5, 0.0, 0.5];
    let mut hist = Image::try_new(keys(&bins)).unwrap();
    for _ in 0..1 {
        hist.fill(key(-0.1), key(-0.1)); // bin 0
    }
    for _ in 0..2 {
        hist.fill(key(0.1), key(-0.1)); // bin 1
    }
    for _ in 0..3 {
        hist.fill(key(-0.1), key(0.1)); // bin 2
    }
    for _ in 0..4 {
        hist.fill(key(0.1), key(0.1)); // bin 3
    }
    let m = hist.data();
    let expected = vec![1, 2, 3, 4];
    m.iter().zip(expected.iter()).for_each(|(got, exp)| {
        assert_eq!(got, exp);
    });
}

#[test]
fn out_of_range_fills_are_dropped() {
    let mut hist = Image::try_new(vec![0, 10, 20]).unwrap();
    hist.fill(-1, 5);
    hist.fill(5, 20);
    hist.fill(20, 5);
    hist.fill(25, 25);
    assert_eq!(hist.data(), vec![0, 0, 0, 0]);
    hist.fill(5, 5);
    assert_eq!(hist.data(), vec![1, 0, 0, 0]);
}

#[test]
fn find_bin_half_open_edges() {
    let edges = vec![0i64, 10, 20];
    assert_eq!(Image::find_bin(&edges, 0), Some(0));
    assert_eq!(Image::find_bin(&edges, 9), Some(0));
    assert_eq!(Image::find_bin(&edges, 10), Some(1));
    assert_eq!(Image::find_bin(&edges, 19), Some(1));
    assert_eq!(Image::find_bin(&edges, 20), None);
    assert_eq!(Image::find_bin(&edges, -1), None);
}

#[test]
fn try_new_rejects_bad_edges() {
    assert!(Image::try_new(vec![]).is_none());
    assert!(Image::try_new(vec![3]).is_none());
    assert!(Image::try_new(vec![1, 1]).is_none());
    assert!(Image::try_new(vec![2, 1]).is_none());
    assert!(Image::try_new(vec![1, 2]).is_some());
}

#[test]
fn finalize_keeps_middle_bin_not_sum() {
    // One sensor triplet plus boundary bins on each side: nine fine bins.
    let edges: Vec<i64> = (0..=9).map(|k| 10 * k as i64).collect();
    let mut hist = Image::try_new(edges).unwrap();
    // Gap bins around the kept cell get counts that must not leak in.
    hist.fill(5, 15); // fine cell (0, 1): dropped row
    hist.fill(15, 15); // fine cell (1, 1): kept at (0, 0)
    hist.fill(15, 15);
    hist.fill(25, 15); // fine cell (2, 1): dropped column
    let m = hist.finalize();
    assert_eq!(m.len(), 3);
    assert_eq!(m[0].len(), 3);
    assert_eq!(m[0][0], 2);
    for i in 0..3 {
        for j in 0..3 {
            if !(i == 0 && j == 0) {
                assert_eq!(m[i][j], 0);
            }
        }
    }
}

use mping::rolling::{LatencyWindow, Ratio};

/// Naive reference calculation for the sum of squared differences from
/// the mean, divided by N (population) or N-1 (sample).
fn sum_of_squares(data: &[u32], is_sample: bool) -> f64 {
    let len: f64 = data.len() as f64;
    let divisor: f64 = if is_sample { len - 1.0 } else { len };
    let mean: f64 = data.iter().sum::<u32>() as f64 / len;
    data.iter().map(|&x| (x as f64 - mean).powf(2.0)).sum::<f64>() / divisor
}

fn as_f64(r: Ratio) -> f64 {
    r.num as f64 / r.den as f64
}

#[test]
fn test_basic() {
    let mut lw: LatencyWindow = LatencyWindow::new(1);

    assert!(lw.is_empty());
    assert_eq!(lw.len(), 0);
    assert_eq!(lw.maxlen(), 3);
    assert!(lw.last().is_err());
    assert!(lw.variance().is_err());
    assert!(lw.stdev().is_err());
    assert!(lw.mean_min_max().is_err());

    lw.push(10);
    assert!(!lw.is_empty());
    assert_eq!(lw.len(), 1);
    assert_eq!(lw.last().unwrap(), 10);
    let (mean, min, max) = lw.mean_min_max().unwrap();
    assert_eq!((as_f64(mean), min, max), (10.0, 10, 10));
    assert_eq!(as_f64(lw.variance().unwrap()), 0.0);
    assert_eq!(lw.stdev().unwrap(), 0);
}

#[test]
fn test_stdev_floor() {
    // The integer stdev is the floor of the true standard deviation.
    let mut lw: LatencyWindow = LatencyWindow::new(4);
    lw.push(10);
    lw.push(20);
    // population variance 25 -> stdev exactly 5
    assert_eq!(lw.stdev().unwrap(), 5);
    // sample variance 50 -> stdev 7.07..., floored to 7
    assert_eq!(lw.stdev_n(2).unwrap(), 7);
    lw.push(30);
    // population variance 200/3 -> stdev 8.16..., floored to 8
    assert_eq!(lw.stdev().unwrap(), 8);
    assert_eq!(lw.stdev_n(1).unwrap(), 0);
    assert!(lw.stdev_n(0).is_err());
    assert!(lw.stdev_n(4).is_err());
}

#[test]
fn test_push() {
    let mut lw: LatencyWindow = LatencyWindow::new(4);
    let data = [10, 20, 30, 40];

    lw.push(10);
    lw.push(20);
    assert_eq!(lw.last().unwrap(), 20, "Wrong last() after 2 pushes");
    let (mean, min, max) = lw.mean_min_max().unwrap();
    assert_eq!(
        (as_f64(mean), min, max),
        (15.0, 10, 20),
        "Wrong mean/min/max after 2 pushes"
    );

    let exp_var: f64 = sum_of_squares(&data[..=1], false);
    assert_eq!(
        as_f64(lw.variance().unwrap()),
        exp_var,
        "Wrong population variance after 2 pushes"
    );
    assert_eq!(
        as_f64(lw.variance().unwrap()).sqrt(),
        5.0,
        "Wrong population stdev after 2 pushes"
    );

    let exp_var: f64 = sum_of_squares(&data[..=1], true);
    assert_eq!(
        as_f64(lw.variance_n(2).unwrap()).sqrt(),
        exp_var.sqrt(),
        "Wrong sample stdev(2) after 2 pushes"
    );

    lw.push(30);
    assert_eq!(lw.last().unwrap(), 30, "Wrong last() after 3 pushes");
    let (mean, min, max) = lw.mean_min_max().unwrap();
    assert_eq!(
        (as_f64(mean), min, max),
        (20.0, 10, 30),
        "Wrong mean/min/max after 3 pushes"
    );

    let exp_var: f64 = sum_of_squares(&data[..=2], false);
    assert_eq!(
        as_f64(lw.variance().unwrap()),
        exp_var,
        "Wrong population variance after 3 pushes"
    );
    assert_eq!(
        as_f64(lw.variance().unwrap()).sqrt(),
        exp_var.sqrt(),
        "Wrong population stdev after 3 pushes"
    );

    let exp_var: f64 = sum_of_squares(&data[1..=2], true);
    assert_eq!(
        as_f64(lw.variance_n(2).unwrap()).sqrt(),
        exp_var.sqrt(),
        "Wrong sample stdev(2) after 3 pushes"
    );
    let exp_var: f64 = sum_of_squares(&data[..=2], true);
    assert_eq!(
        as_f64(lw.variance_n(3).unwrap()).sqrt(),
        exp_var.sqrt(),
        "Wrong sample stdev(3) after 3 pushes"
    );

    lw.push(40);
    assert_eq!(lw.last().unwrap(), 40, "Wrong last() after 4 pushes");
    let (mean, min, max) = lw.mean_min_max().unwrap();
    assert_eq!(
        (as_f64(mean), min, max),
        (25.0, 10, 40),
        "Wrong mean/min/max after 4 pushes"
    );

    let exp_var: f64 = sum_of_squares(&data, false);
    assert_eq!(
        as_f64(lw.variance().unwrap()),
        exp_var,
        "Wrong population variance after 4 pushes"
    );
    assert_eq!(
        as_f64(lw.variance().unwrap()).sqrt(),
        exp_var.sqrt(),
        "Wrong population stdev after 4 pushes"
    );

    let exp_var: f64 = sum_of_squares(&data[2..=3], true);
    assert_eq!(
        as_f64(lw.variance_n(2).unwrap()).sqrt(),
        exp_var.sqrt(),
        "Wrong sample stdev(2) after 4 pushes"
    );
    let exp_var: f64 = sum_of_squares(&data[1..=3], true);
    assert_eq!(
        as_f64(lw.variance_n(3).unwrap()).sqrt(),
        exp_var.sqrt(),
        "Wrong sample stdev(3) after 4 pushes"
    );
    let exp_var: f64 = sum_of_squares(&data, true);
    assert_eq!(
        as_f64(lw.variance_n(4).unwrap()).sqrt(),
        exp_var.sqrt(),
        "Wrong sample stdev(4) after 4 pushes"
    );
}

#[test]
fn test_eviction() {
    let mut lw: LatencyWindow = LatencyWindow::new(3);
    let data = [20, 30, 40];

    lw.push(10);
    assert_eq!(lw.len(), 1, "Wrong len() after 1 push, should be 1");
    lw.push(20);
    assert_eq!(lw.len(), 2, "Wrong len() after 2 pushes, should be 2");
    lw.push(30);
    assert_eq!(lw.len(), 3, "Wrong len() after 3 pushes, should be 3");
    lw.push(40);
    assert_eq!(lw.len(), 3, "Wrong len() after 4 pushes, should be 3");
    assert_eq!(lw.last().unwrap(), 40, "Wrong last() after 4 pushes");
    let (mean, min, max) = lw.mean_min_max().unwrap();
    assert_eq!(
        (as_f64(mean), min, max),
        (30.0, 20, 40),
        "Wrong mean/min/max, should have evicted 10"
    );

    let exp_var: f64 = sum_of_squares(&data, false);
    assert_eq!(
        as_f64(lw.variance().unwrap()),
        exp_var,
        "Wrong population variance after eviction"
    );
    assert_eq!(
        as_f64(lw.variance().unwrap()).sqrt(),
        exp_var.sqrt(),
        "Wrong population stdev after eviction"
    );

    let exp_var: f64 = sum_of_squares(&data[1..=2], true);
    assert_eq!(
        as_f64(lw.variance_n(2).unwrap()).sqrt(),
        exp_var.sqrt(),
        "Wrong sample stdev(2) after eviction"
    );
    let exp_var: f64 = sum_of_squares(&data, true);
    assert_eq!(
        as_f64(lw.variance_n(3).unwrap()).sqrt(),
        exp_var.sqrt(),
        "Wrong sample stdev(3) after eviction"
    );
}

#[test]
fn test_clear() {
    let mut lw: LatencyWindow = LatencyWindow::new(3);

    lw.push(100);
    lw.push(200);
    lw.push(300);
    lw.push(400);
    lw.push(500);
    lw.clear();

    assert!(lw.is_empty());
    assert_eq!(lw.len(), 0);
    assert_eq!(lw.maxlen(), 3);
    assert!(lw.last().is_err());
    assert!(lw.variance().is_err());
    assert!(lw.mean_min_max().is_err());
}

#[test]
fn test_mean_min_max_naive_agreement() {
    // Long push sequences with eviction: mean/min/max always equal the
    // naive aggregate over the at-most-last-cap values.
    let mut lw: LatencyWindow = LatencyWindow::new(5);
    let mut seed: u64 = 42;
    let mut pushed: Vec<u32> = Vec::new();
    for _ in 0..200 {
        seed = seed.wrapping_mul(6364136223846793005).wrapping_add(1442695040888963407);
        let v: u32 = (seed >> 33) as u32 % 10_000;
        lw.push(v);
        pushed.push(v);
        let live: &[u32] = if pushed.len() > 5 {
            &pushed[pushed.len() - 5..]
        } else {
            &pushed[..]
        };
        let (mean, min, max) = lw.mean_min_max().unwrap();
        let naive_mean: f64 = live.iter().map(|&x| x as u64).sum::<u64>() as f64 / live.len() as f64;
        assert_eq!(as_f64(mean), naive_mean);
        assert_eq!(min, *live.iter().min().unwrap());
        assert_eq!(max, *live.iter().max().unwrap());
        // The window never reports an evicted value as min or max.
        assert!(live.contains(&min));
        assert!(live.contains(&max));
    }
}

#[test]
fn test_variance_precision() {
    // The exact rational variance agrees with the naive population
    // variance to within 1e-9 relative, and the sample variance over the
    // last n likewise.
    let data = [1500u32, 2100, 1800, 2600, 1900, 2300, 1700];
    let mut lw: LatencyWindow = LatencyWindow::new(16);
    for &v in data.iter() {
        lw.push(v);
    }
    let naive: f64 = sum_of_squares(&data, false);
    let got: f64 = as_f64(lw.variance().unwrap());
    assert!(((got - naive) / naive).abs() < 1e-9);

    let naive_s: f64 = sum_of_squares(&data[data.len() - 4..], true);
    let got_s: f64 = as_f64(lw.variance_n(4).unwrap());
    assert!(((got_s - naive_s) / naive_s).abs() < 1e-9);

    assert_eq!(as_f64(lw.variance_n(1).unwrap()), 0.0);
    assert!(lw.variance_n(0).is_err());
    assert!(lw.variance_n(data.len() + 1).is_err());
}

#[test]
fn test_capacity_clamp() {
    assert_eq!(LatencyWindow::new(0).maxlen(), 3);
    assert_eq!(LatencyWindow::new(1).maxlen(), 3);
    assert_eq!(LatencyWindow::new(2).maxlen(), 3);
    assert_eq!(LatencyWindow::new(3).maxlen(), 3);
    assert_eq!(LatencyWindow::new(100).maxlen(), 100);
}

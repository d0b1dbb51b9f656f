use swath::order::{greater64, is_less64, lesser64, sort_order, total_order_key};
use swath::signal::{fill_gaps, first_at_least, median_filter, rank_of, ranked, steady_prior};

fn bits(v: &[f32]) -> Vec<u32> {
    v.iter().map(|x| x.to_bits()).collect()
}

fn values(v: &Vec<u32>) -> Vec<f32> {
    v.iter().map(|b| f32::from_bits(*b)).collect()
}

#[test]
fn a_sort_is_stable() {
    assert_eq!(sort_order(&vec![3, 1, 2, 1, 3]), vec![1, 3, 2, 0, 4]);
    assert_eq!(sort_order(&Vec::new()), Vec::<usize>::new());
}

#[test]
fn numbers_are_compared_by_their_bits() {
    let b = |x: f64| x.to_bits();
    assert!(is_less64(b(-2.0), b(-1.0)));
    assert!(is_less64(b(-1.0), b(0.0)));
    assert!(!is_less64(b(-0.0), b(0.0)));
    assert!(!is_less64(b(f64::NAN), b(1.0)));
    assert_eq!(lesser64(b(3.0), b(-4.0)), b(-4.0));
    assert_eq!(greater64(b(f64::NAN), b(-4.0)), b(-4.0));
    let mut v = vec![3.5f64, -1.0, f64::INFINITY, -0.0, 0.0, -7.25];
    v.sort_by(f64::total_cmp);
    let k: Vec<i64> = v.iter().map(|x| total_order_key(x.to_bits())).collect();
    assert!(k.windows(2).all(|w| w[0] < w[1]));
}

#[test]
fn samples_are_ranked_as_numbers_are() {
    let mut v = vec![3.5f32, -1.0, -0.0, 0.0, -7.25, 1e-30];
    v.sort_by(f32::total_cmp);
    let k: Vec<i64> = v.iter().map(|x| rank_of(x.to_bits())).collect();
    assert!(k.windows(2).all(|w| w[0] < w[1]));
    let r = ranked(&bits(&[2.0, f32::NAN, -1.0, f32::INFINITY, 0.5]));
    assert_eq!(values(&r), vec![-1.0, 0.5, 2.0]);
}

#[test]
fn the_median_filter_takes_the_middle() {
    let v = bits(&[1.0, 9.0, 2.0, 3.0, 100.0, 4.0]);
    assert_eq!(values(&median_filter(&v, 3)), vec![1.0, 2.0, 3.0, 3.0, 4.0, 4.0]);
    assert_eq!(median_filter(&v, 2), median_filter(&v, 3));
    assert_eq!(median_filter(&v, 1), v);
    assert_eq!(median_filter(&v, 0), v);
    assert_eq!(median_filter(&bits(&[5.0]), 7), bits(&[5.0]));
    assert_eq!(values(&median_filter(&bits(&[1.0, 2.0]), 9)), vec![1.0, 2.0]);
}

#[test]
fn the_bottom_is_the_first_strong_sample() {
    let t = bits(&[5.0, 0.0, 1.0, f32::NAN, 3.0, 4.0]);
    assert_eq!(first_at_least(&t, 1, 3.0f32.to_bits()), Some(4));
    assert_eq!(first_at_least(&t, 0, 3.0f32.to_bits()), Some(0));
    assert_eq!(first_at_least(&t, 5, 9.0f32.to_bits()), None);
    assert_eq!(first_at_least(&t, 99, 0), None);
    assert_eq!(first_at_least(&t, 0, f32::NAN.to_bits()), None);
}

#[test]
fn holes_in_the_heights_stay_holes() {
    let v = bits(&[0.0, 10.0, 0.0, 90.0, 11.0, 12.0]);
    let r = values(&steady_prior(&v, 3));
    assert_eq!(r, vec![0.0, 10.0, 0.0, 11.0, 12.0, 12.0]);
    let none = bits(&[0.0, -1.0]);
    assert_eq!(steady_prior(&none, 3), none);
    assert_eq!(values(&steady_prior(&bits(&[f32::NAN, 0.0]), 3)), vec![0.0, 0.0]);
}

#[test]
fn gaps_in_a_profile_are_filled() {
    let n = f32::NAN;
    let r = values(&fill_gaps(&bits(&[n, 0.0, 2.0, n, -1.0, 5.0, f32::INFINITY])));
    assert_eq!(r, vec![2.0, 2.0, 2.0, 2.0, 2.0, 5.0, 5.0]);
    let e = values(&fill_gaps(&bits(&[0.0, n])));
    assert!(e.iter().all(|x| x.is_nan()));
}

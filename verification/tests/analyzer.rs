use audioleaf::audio::process;
use audioleaf::fft::{fft, Cpx, AMP_ONE};

fn sine_samples(freq: f64, rate: f64, n: usize) -> Vec<i32> {
    let mut out = Vec::new();
    for i in 0..n {
        let x = (2.0 * std::f64::consts::PI * freq * (i as f64) / rate).sin();
        out.push((x * (AMP_ONE as f64)) as i32);
    }
    out
}

#[test]
fn spectrum_length_is_half_padded_length() {
    let s = vec![100i32; 3];
    assert_eq!(process(&s, 100).len(), 2);
    let s = vec![100i32; 8];
    assert_eq!(process(&s, 100).len(), 4);
    let s = vec![100i32; 9];
    assert_eq!(process(&s, 100).len(), 8);
}

#[test]
fn single_sample_window_degenerates() {
    let s = vec![5000i32];
    assert_eq!(process(&s, 100).len(), 0);
}

#[test]
fn zero_input_gives_zero_spectrum() {
    let s = vec![0i32; 64];
    let spec = process(&s, 250);
    assert_eq!(spec.len(), 32);
    for v in spec {
        assert_eq!(v, 0);
    }
}

#[test]
fn sine_peaks_within_one_bin_of_expected() {
    let rate = 25600.0;
    let freq = 3200.0;
    let n = 256usize;
    let s = sine_samples(freq, rate, n);
    let spec = process(&s, 100);
    assert_eq!(spec.len(), 128);
    let mut best = 0usize;
    for (i, v) in spec.iter().enumerate() {
        if *v > spec[best] {
            best = i;
        }
    }
    let expected = (freq * (n as f64) / rate).round() as usize;
    assert!(best + 1 >= expected && best <= expected + 1);
}

#[test]
fn larger_gain_never_lowers_a_bin() {
    let s = sine_samples(1000.0, 8000.0, 100);
    let low = process(&s, 50);
    let high = process(&s, 200);
    assert_eq!(low.len(), high.len());
    for i in 0..low.len() {
        assert!(low[i] <= high[i]);
    }
}

#[test]
fn spectrum_values_stay_below_unit() {
    let s = vec![AMP_ONE; 128];
    let spec = process(&s, u32::MAX);
    for v in spec {
        assert!(v < audioleaf::color::UNIT);
    }
}

#[test]
fn impulse_transforms_to_flat_spectrum() {
    let mut s = vec![Cpx { re: 0, im: 0 }; 4];
    s[0] = Cpx { re: AMP_ONE as i64, im: 0 };
    let out = fft(&s);
    assert_eq!(out.len(), 4);
    for c in out {
        assert_eq!(c.re, AMP_ONE as i64);
        assert_eq!(c.im, 0);
    }
}

#[test]
fn zero_buffer_transforms_to_zero() {
    let s = vec![Cpx { re: 0, im: 0 }; 8];
    let out = fft(&s);
    assert_eq!(out.len(), 8);
    for c in out {
        assert_eq!(c.re, 0);
        assert_eq!(c.im, 0);
    }
}

use audioleaf::audio::{compute_cutoffs, step_whiteness, update_colors};
use audioleaf::color::{Hwb, UNIT};

#[test]
fn cutoffs_of_a_power_ratio_are_exact() {
    let cuts = compute_cutoffs(100, 1600, 4);
    assert_eq!(cuts, vec![200, 400, 800, 1600]);
}

#[test]
fn cutoffs_of_an_odd_band_count_follow_the_formula() {
    // 100 * 8^(i/3): exactly 200, 400, 800.
    let cuts = compute_cutoffs(100, 800, 3);
    assert_eq!(cuts, vec![200, 400, 800]);
}

#[test]
fn cutoffs_are_strictly_increasing_and_end_at_max() {
    let cuts = compute_cutoffs(20, 6000, 9);
    // 20 * 300^(i/9), rounded to nearest.
    assert_eq!(cuts, vec![38, 71, 134, 252, 476, 896, 1689, 3184, 6000]);
    for i in 0..cuts.len() {
        assert!(cuts[i] > 20);
        assert!(cuts[i] <= 6000);
        if i > 0 {
            assert!(cuts[i - 1] < cuts[i]);
        }
    }
}

#[test]
fn tight_range_still_gives_distinct_cutoffs() {
    let cuts = compute_cutoffs(10, 15, 5);
    // 10 * 1.5^(i/5) rounds to 11, 12, 13, 14, 15: distinct as it happens.
    assert_eq!(cuts, vec![11, 12, 13, 14, 15]);
}

#[test]
fn whiteness_step_exact_values() {
    // Already fully white and silent: stays at full white.
    assert_eq!(step_whiteness(UNIT, 0), UNIT);
    // Silent band below full white: climbs half the distance.
    assert_eq!(step_whiteness(1000, 0), 1012);
    // One step from full white: still reaches it.
    assert_eq!(step_whiteness(UNIT - 1, 0), UNIT);
    // Loud band: drops three quarters of the overshoot.
    assert_eq!(step_whiteness(500, 1023), 126);
}

#[test]
fn silent_spectrum_raises_whiteness_until_full() {
    let mut colors = vec![Hwb { hue: 120, whiteness: 100, blackness: 0 }];
    let spectrum = vec![0u16; 16];
    let mut last = 100u16;
    for _ in 0..30 {
        update_colors(&mut colors, &spectrum, 20, 2000, 100);
        let w = colors[0].whiteness;
        assert!(w >= last);
        assert!(w <= UNIT);
        last = w;
    }
    assert_eq!(last, UNIT);
    update_colors(&mut colors, &spectrum, 20, 2000, 100);
    assert_eq!(colors[0].whiteness, UNIT);
}

#[test]
fn update_commits_every_band_and_keeps_hues() {
    let mut colors = vec![
        Hwb { hue: 0, whiteness: 600, blackness: 0 },
        Hwb { hue: 120, whiteness: 600, blackness: 0 },
        Hwb { hue: 240, whiteness: 600, blackness: 0 },
    ];
    let spectrum = vec![0u16; 32];
    update_colors(&mut colors, &spectrum, 20, 2000, 50);
    // Silence: every band was committed, so every whiteness moved.
    for (i, hue) in [0u16, 120, 240].iter().enumerate() {
        assert_eq!(colors[i].hue, *hue);
        assert_eq!(colors[i].blackness, 0);
        assert!(colors[i].whiteness > 600);
    }
}

#[test]
fn loud_band_darkens_only_its_color() {
    let mut colors = vec![
        Hwb { hue: 0, whiteness: 1000, blackness: 0 },
        Hwb { hue: 180, whiteness: 1000, blackness: 0 },
    ];
    // Bands for min 100, max 10000, 2 bands: cutoffs [1000, 10000].
    // Bin frequency i*500 + 250; bin 4 (2250 Hz) is in the second band.
    let mut spectrum = vec![0u16; 8];
    spectrum[4] = 1000;
    update_colors(&mut colors, &spectrum, 100, 10000, 500);
    // First band silent: whiteness rose.
    assert!(colors[0].whiteness > 1000);
    // Second band loud: whiteness fell toward UNIT - 1000 == 24.
    assert!(colors[1].whiteness < 1000);
}

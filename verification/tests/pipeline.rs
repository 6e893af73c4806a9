use audioleaf::audio::{gain_down, gain_up};
use audioleaf::capture::{mono_reduce, Aggregator, ChannelMsg, FeedResult};
use audioleaf::config::{
    check_audio_params, ensure_defaults, normalize_hues, validate_active_panels, Axis, Config,
    NlConfig, Sort,
};
use audioleaf::CoreError;

#[test]
fn mono_reduce_takes_channel_peaks() {
    let data = vec![1, 5, 2, 3, 7, 0];
    assert_eq!(mono_reduce(&data, 2), vec![5, 3, 7]);
    // A trailing partial frame is dropped.
    let data = vec![4, 4, 9];
    assert_eq!(mono_reduce(&data, 2), vec![4]);
    // One channel passes through.
    let data = vec![-3, 8, 1];
    assert_eq!(mono_reduce(&data, 1), vec![-3, 8, 1]);
    // Negative peaks keep the largest sample, as with one loud channel.
    let data = vec![-10, -2];
    assert_eq!(mono_reduce(&data, 2), vec![-2]);
}

#[test]
fn aggregator_emits_after_target_deliveries() {
    let mut agg = Aggregator::new(2);
    match agg.feed(ChannelMsg::Data(vec![1, 2])) {
        FeedResult::Pending => {}
        _ => panic!("first delivery must be pending"),
    }
    match agg.feed(ChannelMsg::Data(vec![3])) {
        FeedResult::Window(w) => assert_eq!(w, vec![1, 2, 3]),
        _ => panic!("second delivery must complete the window"),
    }
    // The next window starts fresh.
    match agg.feed(ChannelMsg::Data(vec![4])) {
        FeedResult::Pending => {}
        _ => panic!("aggregator must reset after a window"),
    }
    match agg.feed(ChannelMsg::Data(vec![5])) {
        FeedResult::Window(w) => assert_eq!(w, vec![4, 5]),
        _ => panic!("second window must complete"),
    }
}

#[test]
fn stop_mid_window_discards_the_partial_window() {
    let mut agg = Aggregator::new(3);
    match agg.feed(ChannelMsg::Data(vec![1, 2])) {
        FeedResult::Pending => {}
        _ => panic!("first delivery must be pending"),
    }
    match agg.feed(ChannelMsg::Stop) {
        FeedResult::Halted => {}
        _ => panic!("the sentinel must halt, never emit"),
    }
}

#[test]
fn stop_on_empty_aggregator_halts() {
    let mut agg = Aggregator::new(1);
    match agg.feed(ChannelMsg::Stop) {
        FeedResult::Halted => {}
        _ => panic!("the sentinel must halt"),
    }
}

#[test]
fn gain_steps_and_clamps() {
    assert_eq!(gain_up(50), 55);
    assert_eq!(gain_down(55), 50);
    assert_eq!(gain_down(3), 0);
    assert_eq!(gain_down(0), 0);
    assert_eq!(gain_up(u32::MAX - 1), u32::MAX);
}

fn sample_config() -> Config {
    Config {
        nl_config: NlConfig {
            primary_axis: Axis::Y,
            sort_primary: Sort::Asc,
            sort_secondary: Sort::Asc,
            active_panels: vec![1, 2],
            token_file_path: String::from("/tmp/nltoken"),
            ip: String::from("192.168.0.10"),
            port: 6789,
        },
        audio_device: String::from("default"),
        min_freq: 20,
        max_freq: 6000,
        default_gain: 50,
        transition_time: 2,
        hues: vec![240, 300],
    }
}

#[test]
fn empty_hues_and_panels_get_defaults() {
    let mut config = sample_config();
    config.hues = vec![];
    config.nl_config.active_panels = vec![];
    ensure_defaults(&mut config);
    assert_eq!(config.hues, vec![0]);
    assert_eq!(config.nl_config.active_panels, vec![1]);
    // Present values are untouched.
    let mut config = sample_config();
    ensure_defaults(&mut config);
    assert_eq!(config.hues, vec![240, 300]);
    assert_eq!(config.nl_config.active_panels, vec![1, 2]);
}

#[test]
fn hues_pad_by_repeating_the_last_and_truncate() {
    let mut hues = vec![10, 20];
    normalize_hues(&mut hues, 4);
    assert_eq!(hues, vec![10, 20, 20, 20]);
    let mut hues = vec![10, 20, 30];
    normalize_hues(&mut hues, 1);
    assert_eq!(hues, vec![10]);
}

#[test]
fn active_panel_indices_are_validated() {
    assert_eq!(validate_active_panels(&vec![1usize, 2, 3], 3), Ok(()));
    assert_eq!(validate_active_panels(&vec![0usize], 3), Err(CoreError::Configuration));
    assert_eq!(validate_active_panels(&vec![1usize, 4], 3), Err(CoreError::Configuration));
}

#[test]
fn audio_params_are_validated() {
    assert_eq!(check_audio_params(20, 6000, 9, 44100, 2), Ok(()));
    // Zero minimum frequency.
    assert_eq!(check_audio_params(0, 6000, 9, 44100, 2), Err(CoreError::Configuration));
    // No room for nine distinct cutoffs.
    assert_eq!(check_audio_params(20, 25, 9, 44100, 2), Err(CoreError::Configuration));
    // Above the Nyquist limit.
    assert_eq!(check_audio_params(20, 30000, 9, 44100, 2), Err(CoreError::Configuration));
    // Zero transition time.
    assert_eq!(check_audio_params(20, 6000, 9, 44100, 0), Err(CoreError::Configuration));
}

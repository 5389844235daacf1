use audio_monitor::bands::{BandConfig, ConfigError, WrongBlockLength};

const TWELVE_BANDS: [u32; 12] = [30, 40, 50, 70, 90, 110, 250, 400, 700, 1200, 2500, 20000];

fn twelve_bands() -> BandConfig {
    BandConfig::new(1024, 48000, TWELVE_BANDS.to_vec()).unwrap()
}

/// One bin per hertz: a block of 1000 samples at 1000 Hz.
fn unit_bins(bounds: &[u32]) -> BandConfig {
    BandConfig::new(1000, 1000, bounds.to_vec()).unwrap()
}

#[test]
fn config_reports_what_it_was_made_with() {
    let config = twelve_bands();
    assert_eq!(config.block_length(), 1024);
    assert_eq!(config.sample_rate(), 48000);
    assert_eq!(config.band_count(), 12);
    assert_eq!(config.bin_count(), 512);
    assert_eq!(config.upper_bound(0), Some(30));
    assert_eq!(config.upper_bound(11), Some(20000));
    assert_eq!(config.upper_bound(12), None);
}

#[test]
fn config_without_bands_is_refused() {
    assert_eq!(BandConfig::new(1024, 48000, vec![]).unwrap_err(), ConfigError::NoBands);
}

#[test]
fn config_with_equal_bounds_is_refused() {
    assert_eq!(
        BandConfig::new(1024, 48000, vec![100, 200, 200]).unwrap_err(),
        ConfigError::NotAscending
    );
}

#[test]
fn config_with_descending_bounds_is_refused() {
    assert_eq!(
        BandConfig::new(1024, 48000, vec![100, 50, 200]).unwrap_err(),
        ConfigError::NotAscending
    );
}

#[test]
fn config_with_one_band_is_accepted() {
    let config = BandConfig::new(8, 8, vec![0]).unwrap();
    assert_eq!(config.band_count(), 1);
    assert_eq!(config.band_of_bin(0), Some(0));
    assert_eq!(config.band_of_bin(1), None);
}

#[test]
fn block_of_configured_length_is_accepted() {
    assert_eq!(twelve_bands().check_block(1024), Ok(()));
}

#[test]
fn block_of_other_length_is_rejected() {
    let config = twelve_bands();
    assert_eq!(config.check_block(1023), Err(WrongBlockLength { expected: 1024, actual: 1023 }));
    assert_eq!(config.check_block(2048), Err(WrongBlockLength { expected: 1024, actual: 2048 }));
    assert_eq!(config.check_block(0), Err(WrongBlockLength { expected: 1024, actual: 0 }));
}

#[test]
fn first_bins_of_the_twelve_band_layout() {
    // Bins are 46.875 Hz apart.
    let config = twelve_bands();
    assert_eq!(config.band_of_bin(0), Some(0)); // 0 Hz
    assert_eq!(config.band_of_bin(1), Some(2)); // 46.875 Hz: above 40, within 50
    assert_eq!(config.band_of_bin(2), Some(5)); // 93.75 Hz: above 90, within 110
    assert_eq!(config.band_of_bin(3), Some(6)); // 140.625 Hz
    assert_eq!(config.band_of_bin(5), Some(6)); // 234.375 Hz
    assert_eq!(config.band_of_bin(6), Some(7)); // 281.25 Hz
    assert_eq!(config.band_of_bin(21), Some(9)); // 984.375 Hz
    assert_eq!(config.band_of_bin(53), Some(10)); // 2484.375 Hz
    assert_eq!(config.band_of_bin(54), Some(11)); // 2531.25 Hz
    assert_eq!(config.band_of_bin(426), Some(11)); // 19968.75 Hz
    assert_eq!(config.band_of_bin(427), None); // 20015.625 Hz
    assert_eq!(config.band_of_bin(511), None);
}

#[test]
fn counts_of_the_twelve_band_layout() {
    let config = twelve_bands();
    assert_eq!(config.band_counts(), vec![1, 0, 1, 0, 0, 1, 3, 3, 6, 11, 28, 373]);
    assert_eq!(config.dropped_bins(), 85);
    assert!(!config.covers_nyquist());
}

#[test]
fn counts_and_dropped_bins_add_up_to_all_bins() {
    let layouts: [&[u32]; 4] = [&TWELVE_BANDS, &[60, 250, 2000, 6000, 24000], &[1], &[5000, 5001]];
    for bounds in layouts {
        for (block_length, sample_rate) in [(1024, 48000), (1024, 44100), (7, 3), (0, 48000), (512, 0)] {
            let config = BandConfig::new(block_length, sample_rate, bounds.to_vec()).unwrap();
            let assigned: usize = config.band_counts().iter().sum();
            assert_eq!(assigned + config.dropped_bins(), config.bin_count());
        }
    }
}

#[test]
fn counts_agree_with_the_band_of_each_bin() {
    let config = BandConfig::new(1024, 44100, vec![60, 250, 2000, 6000, 20000]).unwrap();
    let mut counts = vec![0usize; config.band_count()];
    let mut dropped = 0usize;
    for bin in 0..config.bin_count() {
        match config.band_of_bin(bin) {
            Some(band) => counts[band] += 1,
            None => dropped += 1,
        }
    }
    assert_eq!(config.band_counts(), counts);
    assert_eq!(config.dropped_bins(), dropped);
}

#[test]
fn bin_on_a_bound_belongs_to_the_lower_band() {
    let config = unit_bins(&[10, 20]);
    assert_eq!(config.band_of_bin(9), Some(0));
    assert_eq!(config.band_of_bin(10), Some(0));
    assert_eq!(config.band_of_bin(11), Some(1));
    assert_eq!(config.band_of_bin(20), Some(1));
    assert_eq!(config.band_of_bin(21), None);
}

#[test]
fn bin_above_every_bound_is_dropped() {
    let config = unit_bins(&[10, 20]);
    assert_eq!(config.band_counts(), vec![11, 10]);
    assert_eq!(config.dropped_bins(), 500 - 21);
}

#[test]
fn bands_follow_the_bins_upward() {
    let config = twelve_bands();
    let mut last = Some(0usize);
    for bin in 0..config.bin_count() {
        let band = config.band_of_bin(bin);
        match (last, band) {
            (Some(a), Some(b)) => assert!(a <= b),
            (None, Some(_)) => panic!("a bin above a dropped bin has a band"),
            _ => {}
        }
        last = band;
    }
}

#[test]
fn layout_that_reaches_nyquist_drops_nothing() {
    let config = BandConfig::new(1024, 48000, vec![60, 250, 2000, 6000, 24000]).unwrap();
    assert!(config.covers_nyquist());
    assert_eq!(config.dropped_bins(), 0);
    assert_eq!(config.band_counts().iter().sum::<usize>(), 512);
    assert_eq!(config.band_of_bin(511), Some(4));
}

#[test]
fn layout_just_short_of_nyquist_is_not_covering() {
    let config = BandConfig::new(1024, 48000, vec![23999]).unwrap();
    assert!(!config.covers_nyquist());
    let config = BandConfig::new(1024, 47999, vec![24000]).unwrap();
    assert!(config.covers_nyquist());
}

#[test]
fn empty_block_has_no_bins() {
    let config = BandConfig::new(0, 48000, vec![100, 200]).unwrap();
    assert_eq!(config.bin_count(), 0);
    assert_eq!(config.band_counts(), vec![0, 0]);
    assert_eq!(config.dropped_bins(), 0);
}

#[test]
fn block_of_odd_length_keeps_the_lower_half() {
    let config = BandConfig::new(7, 7, vec![1, 2]).unwrap();
    assert_eq!(config.bin_count(), 3);
    assert_eq!(config.band_counts(), vec![2, 1]);
}

#[test]
fn zero_sample_rate_puts_every_bin_in_the_first_band() {
    let config = BandConfig::new(16, 0, vec![0, 5]).unwrap();
    assert_eq!(config.band_counts(), vec![8, 0]);
    assert_eq!(config.dropped_bins(), 0);
}

#[test]
fn largest_arguments_do_not_overflow() {
    let config = BandConfig::new(usize::MAX, usize::MAX, vec![0, u32::MAX]).unwrap();
    assert_eq!(config.band_of_bin(0), Some(0));
    assert_eq!(config.band_of_bin(1), Some(1));
    assert_eq!(config.band_of_bin(u32::MAX as usize), Some(1));
    assert_eq!(config.band_of_bin(u32::MAX as usize + 1), None);
    assert_eq!(config.band_of_bin(usize::MAX), None);
}

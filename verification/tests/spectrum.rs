use music_visualiser_tauri::{
    band_layout, band_thresholds, FrequencyPlan, MusicAnalizer, MusicAnalizerError,
    FFT_BUFFER_SIZE, SPECTRUM_BINS,
};
use rustfft::num_complex::Complex;
use rustfft::{Fft, FftPlanner};
use std::sync::Arc;

fn boundary(n_freq: usize, k: usize) -> f32 {
    let start: f32 = (20.0f32).log(3.0);
    let end: f32 = (20000.0f32).log(3.0);
    let delta = (end - start) / n_freq as f32;
    (3.0f32).powf((k as f32 + 1.0) * delta + start)
}

fn sine_window(bin: usize, amplitude: f32) -> MusicAnalizer {
    let mut analizer = MusicAnalizer::new();
    let samples: Vec<i16> = (0..FFT_BUFFER_SIZE)
        .map(|x| {
            let phase = x as f32 / FFT_BUFFER_SIZE as f32 * 2.0 * std::f32::consts::PI * bin as f32;
            (phase.sin() * amplitude) as i16
        })
        .collect();
    for chunk in samples.chunks(512) {
        analizer.push_chunk(chunk);
    }
    analizer
}

fn frequencies(fft: &Arc<dyn Fft<f32>>, samples: &[i16], plan: &FrequencyPlan) -> Vec<f32> {
    let min = plan.min as f32;
    let max = plan.max as f32;
    let mut buffer: Vec<Complex<f32>> =
        samples.iter().map(|x| Complex::new(*x as f32 / (max - min), 0.0)).collect();
    fft.process(&mut buffer);
    let magnitudes: Vec<f32> = buffer.iter().map(|x| x.norm()).collect();
    let bands: Vec<f32> = plan
        .bands
        .iter()
        .map(|band| {
            let count = band.bins() as f32;
            let sum: f32 = magnitudes[band.start..band.end].iter().sum();
            sum / count / count.log(3.0)
        })
        .collect();
    let highest = bands.iter().copied().reduce(|p, x| if x > p { x } else { p }).unwrap_or(1.0);
    let scaling = highest / (max / i16::MAX as f32);
    bands.into_iter().map(|x| x / scaling).collect()
}

fn analyse(analizer: &MusicAnalizer, n_freq: usize, fft: &Arc<dyn Fft<f32>>) -> Vec<f32> {
    let plan = analizer.get_frequencies(n_freq).unwrap();
    let samples: Vec<i16> = analizer.get_fft_buffer().into_iter().collect();
    frequencies(fft, &samples, &plan)
}

#[test]
fn boundaries_rise_with_the_band_index() {
    for n_freq in [1usize, 16, 64] {
        for k in 0..n_freq + 4 {
            assert!(boundary(n_freq, k + 1) > boundary(n_freq, k));
        }
    }
}

#[test]
fn thresholds_agree_with_the_boundaries_in_floating_point() {
    for n_freq in [1usize, 16, 64] {
        let found = band_thresholds(n_freq);
        assert_eq!(found.len(), n_freq);
        for k in 0..n_freq {
            let b = boundary(n_freq, k);
            let tolerance = b * 1e-4;
            assert!(found[k] as f32 >= b - tolerance);
            assert!((found[k] as f32) < b + 1.0 + tolerance);
        }
        let last = boundary(n_freq, n_freq - 1);
        assert!((last - 20000.0).abs() < 20.0);
    }
}

#[test]
fn plan_ends_each_band_at_its_threshold() {
    let analizer = sine_window(440, 10000.0);
    for n_freq in [1usize, 16, 64] {
        let wanted = band_thresholds(n_freq);
        let plan = analizer.get_frequencies(n_freq).unwrap();
        assert_eq!(plan.bands.len(), n_freq);
        for (k, band) in plan.bands.iter().enumerate() {
            assert_eq!(band.end, wanted[k]);
            assert!(band.start < band.end);
            assert!(band.end < SPECTRUM_BINS);
        }
        for pair in plan.bands.windows(2) {
            assert_eq!(pair[0].end, pair[1].start);
        }
    }
}

#[test]
fn analysis_returns_exactly_as_many_values_as_asked_for() {
    let analizer = sine_window(440, 10000.0);
    let fft = FftPlanner::<f32>::new().plan_fft_forward(FFT_BUFFER_SIZE);
    for n_freq in [1usize, 16, 64] {
        assert_eq!(analyse(&analizer, n_freq, &fft).len(), n_freq);
    }
}

#[test]
fn pure_sine_gives_one_positive_band() {
    let analizer = sine_window(440, 10000.0);
    let fft = FftPlanner::<f32>::new().plan_fft_forward(FFT_BUFFER_SIZE);
    let bands = analyse(&analizer, 1, &fft);
    assert_eq!(bands.len(), 1);
    assert!(bands[0] > 0.0);
    assert!(bands[0].is_finite());
}

#[test]
fn silence_gives_no_band_at_all() {
    let analizer = MusicAnalizer::new();
    let planned = analizer.get_frequencies(1);
    assert_eq!(planned.err(), Some(MusicAnalizerError::MaxMinZeroError));
}

#[test]
fn sine_lands_in_the_band_that_holds_its_bin() {
    let analizer = sine_window(3600, 12000.0);
    let fft = FftPlanner::<f32>::new().plan_fft_forward(FFT_BUFFER_SIZE);
    let plan = analizer.get_frequencies(16).unwrap();
    let home = plan.bands.iter().position(|b| b.start <= 3600 && 3600 < b.end).unwrap();
    let bands = analyse(&analizer, 16, &fft);
    let loudest = (0..bands.len())
        .reduce(|p, x| if bands[x] > bands[p] { x } else { p })
        .unwrap();
    assert_eq!(loudest, home);
}

#[test]
fn loudest_band_is_scaled_to_the_peak_of_the_signal() {
    let analizer = sine_window(440, 10000.0);
    let fft = FftPlanner::<f32>::new().plan_fft_forward(FFT_BUFFER_SIZE);
    let plan = analizer.get_frequencies(16).unwrap();
    let bands = analyse(&analizer, 16, &fft);
    let highest = bands.iter().copied().fold(f32::MIN, f32::max);
    let expected = plan.max as f32 / 32767.0;
    assert!((highest - expected).abs() < 1e-4);
}

#[test]
fn reused_transform_agrees_with_a_fresh_one() {
    let analizer = sine_window(1000, 8000.0);
    let kept = FftPlanner::<f32>::new().plan_fft_forward(FFT_BUFFER_SIZE);
    let first = analyse(&analizer, 16, &kept);
    for _ in 0..3 {
        let fresh = FftPlanner::<f32>::new().plan_fft_forward(FFT_BUFFER_SIZE);
        let again = analyse(&analizer, 16, &kept);
        let rebuilt = analyse(&analizer, 16, &fresh);
        assert_eq!(again.len(), rebuilt.len());
        for k in 0..again.len() {
            assert!((again[k] - rebuilt[k]).abs() <= 1e-5 * again[k].abs().max(1.0));
            assert!((again[k] - first[k]).abs() <= 1e-5 * first[k].abs().max(1.0));
        }
    }
}

#[test]
fn fft_test() {
    let mut fft_planner: FftPlanner<f32> = FftPlanner::new();
    let fft = fft_planner.plan_fft_forward(FFT_BUFFER_SIZE);

    let n = FFT_BUFFER_SIZE;
    let pi = std::f32::consts::PI;
    let mut buffer: Vec<Complex<f32>> = (0..n)
        .map(|x| {
            Complex::new(
                (((x as f32) / (n as f32) * 2. * pi * 20.).sin()
                    + ((x as f32) / (n as f32) * 2. * pi * 3600.).sin()
                    + ((x as f32) / (n as f32) * 2. * pi * 16000.).sin())
                    / 3.,
                0.,
            )
        })
        .collect();

    fft.process(&mut buffer);
    let amplitudes: Vec<f32> = buffer.iter().map(|x| x.norm()).collect();

    let bands = band_layout(&band_thresholds(16), 24000);
    assert_eq!(bands.len(), 16);
    let means: Vec<f32> = bands
        .iter()
        .map(|band| amplitudes[band.start..band.end].iter().sum::<f32>() / band.bins() as f32)
        .collect();

    let mut loudest: Vec<usize> = (0..16).collect();
    loudest.sort_by(|a, b| means[*b].partial_cmp(&means[*a]).unwrap());
    let mut top: Vec<usize> = loudest[..3].to_vec();
    top.sort();
    let mut homes: Vec<usize> = [20usize, 3600, 16000]
        .iter()
        .map(|bin| bands.iter().position(|b| b.start <= *bin && *bin < b.end).unwrap())
        .collect();
    homes.sort();
    assert_eq!(top, homes);
}

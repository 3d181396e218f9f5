use imgproc::error::{ArgFault, ImgProcError};
use imgproc::image::Image;
use imgproc::mean::{
    alpha_trimmed_mean_filter, alpha_trimmed_mean_filter_with_strip_width,
};
use imgproc::median::{median_filter, median_filter_with_strip_width, strip_width};

fn noise(seed: u64, n: usize) -> Vec<u8> {
    let mut state = seed;
    let mut out = Vec::with_capacity(n);
    for _ in 0..n {
        state = state
            .wrapping_mul(6364136223846793005)
            .wrapping_add(1442695040888963407);
        out.push((state >> 33) as u8);
    }
    out
}

fn image(width: u32, height: u32, channels: u8, data: &[u8]) -> Image {
    Image::new(width, height, channels, false, data).unwrap()
}

fn window(img: &Image, x: i64, y: i64, c: usize, radius: i64) -> Vec<u8> {
    let (w, h, ch) = (img.width() as i64, img.height() as i64, img.channels() as usize);
    let mut samples = Vec::new();
    for dy in -radius..=radius {
        for dx in -radius..=radius {
            let sx = (x + dx).clamp(0, w - 1);
            let sy = (y + dy).clamp(0, h - 1);
            samples.push(img.data()[((sy * w + sx) as usize) * ch + c]);
        }
    }
    samples.sort();
    samples
}

fn brute_median(img: &Image, radius: u32) -> Vec<u8> {
    let mut out = Vec::new();
    for y in 0..img.height() as i64 {
        for x in 0..img.width() as i64 {
            for c in 0..img.channels() as usize {
                let s = window(img, x, y, c, radius as i64);
                out.push(s[s.len() / 2]);
            }
        }
    }
    out
}

fn brute_mean(img: &Image, radius: u32, alpha: u32) -> Vec<u8> {
    let mut out = Vec::new();
    let trim = (alpha / 2) as usize;
    for y in 0..img.height() as i64 {
        for x in 0..img.width() as i64 {
            for c in 0..img.channels() as usize {
                let s = window(img, x, y, c, radius as i64);
                let kept = &s[trim..s.len() - trim];
                let sum: f64 = kept.iter().map(|v| *v as f64).sum();
                out.push((sum / kept.len() as f64).round() as u8);
            }
        }
    }
    out
}

fn flip_horizontal(img: &Image) -> Image {
    let (w, h, ch) = (img.width() as usize, img.height() as usize, img.channels() as usize);
    let mut data = vec![0u8; w * h * ch];
    for y in 0..h {
        for x in 0..w {
            for c in 0..ch {
                data[(y * w + (w - 1 - x)) * ch + c] = img.data()[(y * w + x) * ch + c];
            }
        }
    }
    image(w as u32, h as u32, ch as u8, &data)
}

fn flip_vertical(img: &Image) -> Image {
    let (w, h, ch) = (img.width() as usize, img.height() as usize, img.channels() as usize);
    let mut data = vec![0u8; w * h * ch];
    for y in 0..h {
        for x in 0..w {
            for c in 0..ch {
                data[((h - 1 - y) * w + x) * ch + c] = img.data()[(y * w + x) * ch + c];
            }
        }
    }
    image(w as u32, h as u32, ch as u8, &data)
}

fn channel_of(img: &Image, c: usize) -> Image {
    let ch = img.channels() as usize;
    let data: Vec<u8> = img.data().iter().skip(c).step_by(ch).copied().collect();
    image(img.width(), img.height(), 1, &data)
}

#[test]
fn median_of_a_ramp_is_the_ramp() {
    let input = image(5, 1, 1, &[10, 20, 30, 40, 50]);
    let out = median_filter(&input, 1).unwrap();
    assert_eq!(out.data(), &[10, 20, 30, 40, 50]);
}

#[test]
fn trimmed_mean_of_a_ramp() {
    let input = image(5, 1, 1, &[10, 20, 30, 40, 50]);
    let out = alpha_trimmed_mean_filter(&input, 1, 2).unwrap();
    // the window is three rows high: at the left border it holds six 10s and
    // three 20s, of which five 10s and two 20s remain: 90 / 7 = 12.86
    assert_eq!(out.data(), &[13, 20, 30, 40, 47]);
    assert_eq!(out.data(), brute_mean(&input, 1, 2).as_slice());
}

#[test]
fn median_removes_a_single_bright_pixel() {
    let input = image(3, 3, 1, &[0, 0, 0, 0, 255, 0, 0, 0, 0]);
    let out = median_filter(&input, 1).unwrap();
    assert_eq!(out.data(), &[0u8; 9]);
}

#[test]
fn untrimmed_mean_spreads_a_single_bright_pixel() {
    let input = image(3, 3, 1, &[0, 0, 0, 0, 255, 0, 0, 0, 0]);
    let out = alpha_trimmed_mean_filter(&input, 1, 0).unwrap();
    assert_eq!(out.data(), &[28u8; 9]);
}

#[test]
fn median_of_a_checkerboard_is_black_or_white() {
    let mut data = Vec::new();
    for y in 0..4 {
        for x in 0..4 {
            data.push(if (x + y) % 2 == 0 { 0u8 } else { 255u8 });
        }
    }
    let input = image(4, 4, 1, &data);
    let out = median_filter(&input, 1).unwrap();
    assert!(out.data().iter().all(|v| *v == 0 || *v == 255));
    assert_eq!(out.data(), brute_median(&input, 1).as_slice());
    assert_eq!(out.data()[0], 0);
    assert_eq!(out.data()[5], 0);
    assert_eq!(out.data()[6], 255);
}

#[test]
fn bright_pixel_in_a_seven_by_seven_image() {
    let mut data = vec![0u8; 49];
    data[24] = 255;
    let input = image(7, 7, 1, &data);
    let med = median_filter(&input, 2).unwrap();
    assert_eq!(med.data(), &[0u8; 49]);
    let mean = alpha_trimmed_mean_filter(&input, 2, 2).unwrap();
    assert_eq!(mean.data()[24], 0);
    let untrimmed = alpha_trimmed_mean_filter(&input, 2, 0).unwrap();
    assert_eq!(untrimmed.data()[24], 10);
}

#[test]
fn trimmed_mean_rounds_the_quotient() {
    let mut data = vec![0u8; 49];
    data[24] = 255;
    data[25] = 255;
    let input = image(7, 7, 1, &data);
    let mean = alpha_trimmed_mean_filter(&input, 2, 2).unwrap();
    // 25 samples, two of them 255; one 255 and one 0 are trimmed: 255 / 23 = 11.09
    assert_eq!(mean.data()[24], 11);
}

#[test]
fn median_agrees_with_sorting_on_three_channels() {
    let input = image(16, 16, 3, &noise(7, 16 * 16 * 3));
    let out = median_filter(&input, 3).unwrap();
    assert_eq!(out.data(), brute_median(&input, 3).as_slice());
}

#[test]
fn trimmed_mean_agrees_with_sorting_on_three_channels() {
    let input = image(16, 16, 3, &noise(7, 16 * 16 * 3));
    let out = alpha_trimmed_mean_filter(&input, 3, 10).unwrap();
    assert_eq!(out.data(), brute_mean(&input, 3, 10).as_slice());
}

#[test]
fn alpha_not_below_the_window_is_rejected() {
    let input = image(2, 2, 1, &[1, 2, 3, 4]);
    let r = alpha_trimmed_mean_filter(&input, 2, 25);
    assert_eq!(r.err(), Some(ImgProcError::InvalidArgError(ArgFault::AlphaTooLarge)));
    let r = alpha_trimmed_mean_filter(&input, 2, 26);
    assert_eq!(r.err(), Some(ImgProcError::InvalidArgError(ArgFault::AlphaTooLarge)));
}

#[test]
fn odd_alpha_is_rejected() {
    let input = image(2, 2, 1, &[1, 2, 3, 4]);
    let r = alpha_trimmed_mean_filter(&input, 2, 3);
    assert_eq!(r.err(), Some(ImgProcError::InvalidArgError(ArgFault::AlphaOdd)));
}

#[test]
fn largest_valid_alpha_leaves_the_median() {
    let input = image(9, 7, 1, &noise(3, 63));
    let out = alpha_trimmed_mean_filter(&input, 2, 24).unwrap();
    assert_eq!(out.data(), brute_median(&input, 2).as_slice());
}

#[test]
fn radius_above_the_limit_is_rejected() {
    let input = image(2, 2, 1, &[1, 2, 3, 4]);
    assert_eq!(
        median_filter(&input, 11585).err(),
        Some(ImgProcError::InvalidArgError(ArgFault::RadiusTooLarge))
    );
    assert_eq!(
        alpha_trimmed_mean_filter(&input, 11585, 0).err(),
        Some(ImgProcError::InvalidArgError(ArgFault::RadiusTooLarge))
    );
    assert_eq!(
        alpha_trimmed_mean_filter(&input, u32::MAX, 3).err(),
        Some(ImgProcError::InvalidArgError(ArgFault::RadiusTooLarge))
    );
}

#[test]
fn strip_width_must_be_odd_and_bounded() {
    let input = image(2, 2, 1, &[1, 2, 3, 4]);
    assert_eq!(
        median_filter_with_strip_width(&input, 1, 4).err(),
        Some(ImgProcError::InvalidArgError(ArgFault::StripWidthEven))
    );
    assert_eq!(
        median_filter_with_strip_width(&input, 1, 4097).err(),
        Some(ImgProcError::InvalidArgError(ArgFault::StripWidthTooLarge))
    );
    assert_eq!(
        alpha_trimmed_mean_filter_with_strip_width(&input, 1, 2, 0).err(),
        Some(ImgProcError::InvalidArgError(ArgFault::StripWidthEven))
    );
    assert_eq!(
        alpha_trimmed_mean_filter_with_strip_width(&input, 1, 2, 4097).err(),
        Some(ImgProcError::InvalidArgError(ArgFault::StripWidthTooLarge))
    );
    assert_eq!(
        alpha_trimmed_mean_filter_with_strip_width(&input, 1, 3, 4).err(),
        Some(ImgProcError::InvalidArgError(ArgFault::AlphaOdd))
    );
}

#[test]
fn filters_keep_the_shape() {
    let input = Image::new(5, 3, 4, true, &noise(11, 60)).unwrap();
    let med = median_filter(&input, 2).unwrap();
    let mean = alpha_trimmed_mean_filter(&input, 2, 4).unwrap();
    for out in [&med, &mean] {
        assert_eq!(out.width(), 5);
        assert_eq!(out.height(), 3);
        assert_eq!(out.channels(), 4);
        assert!(out.has_alpha());
        assert_eq!(out.data().len(), 60);
    }
}

#[test]
fn channels_are_filtered_independently() {
    let input = image(9, 8, 3, &noise(5, 9 * 8 * 3));
    let med = median_filter(&input, 2).unwrap();
    let mean = alpha_trimmed_mean_filter(&input, 2, 6).unwrap();
    for c in 0..3 {
        let single = channel_of(&input, c);
        assert_eq!(
            median_filter(&single, 2).unwrap().data(),
            channel_of(&med, c).data()
        );
        assert_eq!(
            alpha_trimmed_mean_filter(&single, 2, 6).unwrap().data(),
            channel_of(&mean, c).data()
        );
    }
}

#[test]
fn constant_image_is_a_fixed_point_of_the_median() {
    let input = image(6, 5, 2, &[77u8; 60]);
    for radius in 0..4 {
        assert_eq!(median_filter(&input, radius).unwrap().data(), &[77u8; 60]);
    }
}

#[test]
fn constant_image_is_a_fixed_point_of_the_trimmed_mean() {
    let input = image(6, 5, 2, &[201u8; 60]);
    for alpha in [0, 2, 4, 8] {
        assert_eq!(
            alpha_trimmed_mean_filter(&input, 1, alpha).unwrap().data(),
            &[201u8; 60]
        );
    }
    let white = image(4, 4, 1, &[255u8; 16]);
    assert_eq!(alpha_trimmed_mean_filter(&white, 2, 0).unwrap().data(), &[255u8; 16]);
}

#[test]
fn median_agrees_with_sorting() {
    for (seed, (w, h)) in [(5u32, 4u32), (1, 9), (13, 1), (17, 12), (33, 21)].into_iter().enumerate() {
        let input = image(w, h, 1, &noise(seed as u64 + 100, (w * h) as usize));
        for radius in 1..=3 {
            let out = median_filter(&input, radius).unwrap();
            assert_eq!(out.data(), brute_median(&input, radius).as_slice());
        }
    }
}

#[test]
fn median_agrees_with_sorting_on_a_large_image() {
    let input = image(64, 64, 1, &noise(42, 64 * 64));
    let out = median_filter(&input, 3).unwrap();
    assert_eq!(out.data(), brute_median(&input, 3).as_slice());
}

#[test]
fn trimmed_mean_agrees_with_sorting() {
    for (seed, (w, h)) in [(5u32, 4u32), (1, 9), (13, 1), (17, 12), (33, 21)].into_iter().enumerate() {
        let input = image(w, h, 1, &noise(seed as u64 + 200, (w * h) as usize));
        for radius in 1..=3u32 {
            let area = (2 * radius + 1) * (2 * radius + 1);
            for alpha in [0, 2, 4, area - 1] {
                let out = alpha_trimmed_mean_filter(&input, radius, alpha).unwrap();
                assert_eq!(out.data(), brute_mean(&input, radius, alpha).as_slice());
            }
        }
    }
}

#[test]
fn trimmed_mean_agrees_with_sorting_on_repeated_values() {
    let data: Vec<u8> = noise(9, 20 * 15).iter().map(|v| (v % 3) * 100).collect();
    let input = image(20, 15, 1, &data);
    for alpha in [0, 2, 6, 12, 24] {
        let out = alpha_trimmed_mean_filter(&input, 2, alpha).unwrap();
        assert_eq!(out.data(), brute_mean(&input, 2, alpha).as_slice());
    }
}

#[test]
fn result_does_not_depend_on_the_strip_width() {
    let input = image(23, 11, 2, &noise(77, 23 * 11 * 2));
    for radius in 1..=3 {
        let med = median_filter(&input, radius).unwrap();
        let mean = alpha_trimmed_mean_filter(&input, radius, 4).unwrap();
        for n_cols in [1usize, 3, 25, 4095] {
            assert_eq!(
                median_filter_with_strip_width(&input, radius, n_cols).unwrap().data(),
                med.data()
            );
            assert_eq!(
                alpha_trimmed_mean_filter_with_strip_width(&input, radius, 4, n_cols)
                    .unwrap()
                    .data(),
                mean.data()
            );
        }
    }
}

#[test]
fn flipping_the_input_flips_the_output() {
    let input = image(10, 7, 1, &noise(21, 70));
    let med = median_filter(&input, 2).unwrap();
    let mean = alpha_trimmed_mean_filter(&input, 2, 8).unwrap();
    assert_eq!(
        median_filter(&flip_horizontal(&input), 2).unwrap().data(),
        flip_horizontal(&med).data()
    );
    assert_eq!(
        median_filter(&flip_vertical(&input), 2).unwrap().data(),
        flip_vertical(&med).data()
    );
    assert_eq!(
        alpha_trimmed_mean_filter(&flip_horizontal(&input), 2, 8).unwrap().data(),
        flip_horizontal(&mean).data()
    );
    assert_eq!(
        alpha_trimmed_mean_filter(&flip_vertical(&input), 2, 8).unwrap().data(),
        flip_vertical(&mean).data()
    );
}

#[test]
fn radius_zero_is_the_identity() {
    let data = noise(1, 12);
    let input = image(4, 3, 1, &data);
    assert_eq!(median_filter(&input, 0).unwrap().data(), data.as_slice());
    assert_eq!(alpha_trimmed_mean_filter(&input, 0, 0).unwrap().data(), data.as_slice());
    assert_eq!(
        alpha_trimmed_mean_filter(&input, 0, 2).err(),
        Some(ImgProcError::InvalidArgError(ArgFault::AlphaTooLarge))
    );
}

#[test]
fn image_narrower_than_the_window() {
    let input = image(2, 2, 1, &[10, 200, 30, 40]);
    let out = median_filter(&input, 3).unwrap();
    assert_eq!(out.data(), brute_median(&input, 3).as_slice());
    let out = alpha_trimmed_mean_filter(&input, 3, 20).unwrap();
    assert_eq!(out.data(), brute_mean(&input, 3, 20).as_slice());
}

#[test]
fn empty_images_stay_empty() {
    let no_columns = image(0, 4, 1, &[]);
    assert_eq!(median_filter(&no_columns, 1).unwrap().data().len(), 0);
    let no_rows = image(4, 0, 3, &[]);
    let out = alpha_trimmed_mean_filter(&no_rows, 1, 2).unwrap();
    assert_eq!(out.data().len(), 0);
    assert_eq!(out.width(), 4);
    assert_eq!(out.height(), 0);
}

#[test]
fn strip_width_is_four_times_the_radius_to_two_thirds_made_odd() {
    assert_eq!(strip_width(0), 1);
    assert_eq!(strip_width(1), 5);
    assert_eq!(strip_width(2), 7);
    assert_eq!(strip_width(3), 9);
    assert_eq!(strip_width(8), 17);
    assert_eq!(strip_width(27), 37);
    assert_eq!(strip_width(100), 87);
    assert_eq!(strip_width(1024), 407);
    assert_eq!(strip_width(11584), 2047);
}

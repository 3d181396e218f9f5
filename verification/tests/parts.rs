use imgproc::error::{ArgFault, ImgProcError};
use imgproc::histogram::PartialHistograms;
use imgproc::image::Image;
use imgproc::io::{
    file_format, jpg_pixel_format_to_channels, png_from_color_type, png_into_color_type,
    ColorType, FileFormat, ImgIoError, PixelFormat,
};
use imgproc::math::{clamp, clamp_max, vector_mul};
use imgproc::mean::{largest_samples, smallest_samples, total_count, trimmed_sum, MeanHist};
use imgproc::median::{find_median, gather_row, MedianHist};
use imgproc::tone::brightness;
use imgproc::util::{create_lookup_table, Number};

#[test]
fn image_new_checks_the_buffer() {
    assert!(Image::new(2, 2, 1, false, &[1, 2, 3, 4]).is_some());
    assert!(Image::new(2, 2, 1, false, &[1, 2, 3]).is_none());
    assert!(Image::new(2, 2, 0, false, &[]).is_none());
    assert!(Image::new(2, 2, 5, false, &[0u8; 20]).is_none());
    assert!(Image::new(u32::MAX, u32::MAX, 4, false, &[]).is_none());
    let img = Image::new(3, 1, 2, true, &[1, 2, 3, 4, 5, 6]).unwrap();
    assert_eq!(img.width(), 3);
    assert_eq!(img.height(), 1);
    assert_eq!(img.channels(), 2);
    assert!(img.has_alpha());
    assert_eq!(img.data(), &[1, 2, 3, 4, 5, 6]);
}

#[test]
fn image_blank_is_zero() {
    let img = Image::blank(3, 2, 2, false).unwrap();
    assert_eq!(img.data(), &[0u8; 12]);
    assert!(Image::blank(3, 2, 0, false).is_none());
    assert!(Image::blank(u32::MAX, u32::MAX, 4, false).is_none());
    let like = Image::new(2, 1, 3, true, &[9; 6]).unwrap().blank_like();
    assert_eq!(like.data(), &[0u8; 6]);
    assert_eq!(like.channels(), 3);
    assert!(like.has_alpha());
}

#[test]
fn image_get_and_set_address_one_sample() {
    let mut img = Image::new(3, 2, 2, false, &[0, 1, 2, 3, 4, 5, 6, 7, 8, 9, 10, 11]).unwrap();
    assert_eq!(img.get(0, 0, 0), 0);
    assert_eq!(img.get(2, 0, 1), 5);
    assert_eq!(img.get(1, 1, 0), 8);
    img.set(1, 1, 0, 99);
    assert_eq!(img.data(), &[0, 1, 2, 3, 4, 5, 6, 7, 99, 9, 10, 11]);
}

#[test]
fn gathered_row_clamps_its_columns() {
    let img = Image::new(3, 2, 2, false, &[0, 1, 2, 3, 4, 5, 6, 7, 8, 9, 10, 11]).unwrap();
    assert_eq!(gather_row(&img, 0, 1, 3, 0, 0), vec![0, 0, 2, 4, 4]);
    assert_eq!(gather_row(&img, 1, 2, 1, 1, 1), vec![7, 7, 9, 11, 11]);
}

#[test]
fn bank_counts_each_window() {
    let mut bank = PartialHistograms::new(1, 3);
    // the strip has three columns; the row spans them and one halo sample on either side
    let row = vec![5u8, 6, 7, 7, 9];
    bank.update(&row, true);
    assert_eq!(bank.get_count(5, 0), 1);
    assert_eq!(bank.get_count(6, 0), 1);
    assert_eq!(bank.get_count(7, 0), 1);
    assert_eq!(bank.get_count(9, 0), 0);
    assert_eq!(bank.get_count(7, 1), 2);
    assert_eq!(bank.get_count(5, 1), 0);
    assert_eq!(bank.get_count(7, 2), 2);
    assert_eq!(bank.get_count(9, 2), 1);
    assert_eq!(bank.get_count(6, 2), 0);
    let other = vec![9u8, 9, 9, 9, 9];
    bank.update(&other, true);
    bank.update(&row, false);
    for col in 0..3 {
        assert_eq!(bank.get_count(9, col), 3);
        assert_eq!(bank.get_count(7, col), 0);
    }
}

#[test]
fn median_engine_keeps_counts_below_the_pivots() {
    let mut hist = MedianHist::new(1, 3);
    assert_eq!(hist.sums(), &[0, 0, 0]);
    assert!(hist.pivots().is_empty());
    let row = vec![5u8, 6, 7, 7, 9];
    hist.update(&row, true);
    assert_eq!(hist.sums(), &[0, 0, 0]);
    hist.init_pivots();
    assert_eq!(hist.pivots(), &[0, 0, 0]);
    hist.set_pivot(7, 0);
    hist.set_sum(2, 0);
    hist.set_pivot(8, 2);
    hist.set_sum(2, 2);
    assert_eq!(hist.pivots(), &[7, 0, 8]);
    assert_eq!(hist.sums(), &[2, 0, 2]);
    hist.update(&row, true);
    assert_eq!(hist.sums(), &[4, 0, 4]);
    assert_eq!(hist.data().get_count(7, 1), 4);
    hist.update(&row, false);
    assert_eq!(hist.sums(), &[2, 0, 2]);
}

#[test]
fn find_median_walks_up_and_down() {
    let mut hist = MedianHist::new(1, 1);
    hist.update(&vec![3u8, 8, 8], true);
    hist.update(&vec![1u8, 2, 200], true);
    hist.update(&vec![7u8, 7, 9], true);
    hist.init_pivots();
    // sorted: 1 2 3 7 7 8 8 9 200
    assert_eq!(find_median(&hist, 5, 0), (7, 3));
    hist.set_pivot(100, 0);
    hist.set_sum(8, 0);
    assert_eq!(find_median(&hist, 5, 0), (7, 3));
    hist.set_pivot(7, 0);
    hist.set_sum(3, 0);
    assert_eq!(find_median(&hist, 5, 0), (7, 3));
    assert_eq!(find_median(&hist, 9, 0), (200, 8));
    assert_eq!(find_median(&hist, 1, 0), (1, 0));
}

fn primed_engine() -> MeanHist {
    let mut hist = MeanHist::new(1, 1, 4);
    hist.update(&vec![1u8, 2, 50], true);
    hist.update(&vec![50u8, 50, 50], true);
    hist.update(&vec![50u8, 100, 200], true);
    hist.init();
    hist.set_sum(250, 0);
    hist.set_lower(vec![1, 2], 0);
    hist.set_upper(vec![200, 100], 0);
    hist
}

#[test]
fn bank_samples_in_rank_order() {
    let hist = primed_engine();
    let bank = hist.data();
    assert_eq!(total_count(bank, 0), 9);
    assert_eq!(smallest_samples(bank, 0, 0), Vec::<u8>::new());
    assert_eq!(smallest_samples(bank, 0, 2), vec![1, 2]);
    assert_eq!(smallest_samples(bank, 0, 4), vec![1, 2, 50, 50]);
    assert_eq!(smallest_samples(bank, 0, 9), vec![1, 2, 50, 50, 50, 50, 50, 100, 200]);
    assert_eq!(largest_samples(bank, 0, 0, 9), Vec::<u8>::new());
    assert_eq!(largest_samples(bank, 0, 2, 9), vec![200, 100]);
    assert_eq!(largest_samples(bank, 0, 4, 9), vec![200, 100, 50, 50]);
    assert_eq!(trimmed_sum(bank, 0, 0, 9), 553);
    assert_eq!(trimmed_sum(bank, 0, 1, 9), 352);
    assert_eq!(trimmed_sum(bank, 0, 2, 9), 250);
    assert_eq!(trimmed_sum(bank, 0, 4, 9), 50);
}

#[test]
fn refresh_takes_lists_and_sum_from_the_bank() {
    let mut hist = MeanHist::new(1, 1, 4);
    hist.update(&vec![1u8, 2, 50], true);
    hist.update(&vec![50u8, 50, 50], true);
    hist.update(&vec![50u8, 100, 200], true);
    hist.init();
    assert_eq!(hist.sums, vec![0]);
    assert_eq!(hist.lower, vec![Vec::<u8>::new()]);
    assert_eq!(hist.upper, vec![Vec::<u8>::new()]);
    hist.refresh(0);
    assert_eq!(hist.sums, vec![250]);
    assert_eq!(hist.lower, vec![vec![1, 2]]);
    assert_eq!(hist.upper, vec![vec![200, 100]]);
    assert_eq!(hist.lower(0), 2);
    assert_eq!(hist.upper(0), 100);
    assert_eq!(hist.get_mean(0), 50);
}

#[test]
fn entering_row_with_large_samples_moves_the_upper_list() {
    let mut hist = primed_engine();
    hist.update(&vec![150u8, 180, 50], true);
    assert_eq!(hist.sums[0], 550);
    assert_eq!(hist.upper[0], vec![200, 180]);
    assert_eq!(hist.lower[0], vec![1, 2]);
    assert_eq!(hist.upper(0), 180);
    assert_eq!(hist.lower(0), 2);
    assert_eq!(hist.get_mean(0), 110);
}

#[test]
fn entering_row_with_a_small_sample_moves_the_lower_list() {
    let mut hist = primed_engine();
    hist.update(&vec![0u8, 50, 50], true);
    assert_eq!(hist.sums[0], 352);
    assert_eq!(hist.lower[0], vec![0, 1]);
    assert_eq!(hist.upper[0], vec![200, 100]);
}

#[test]
fn leaving_row_with_the_smallest_samples_refills_the_lower_list() {
    let mut hist = primed_engine();
    hist.update(&vec![1u8, 2, 50], false);
    assert_eq!(hist.sums[0], 100);
    assert_eq!(hist.lower[0], vec![50, 50]);
    assert_eq!(hist.upper[0], vec![200, 100]);
    assert_eq!(hist.data().get_count(1, 0), 0);
    assert_eq!(hist.data().get_count(50, 0), 4);
}

#[test]
fn leaving_row_with_the_largest_samples_refills_the_upper_list() {
    let mut hist = primed_engine();
    hist.update(&vec![50u8, 100, 200], false);
    assert_eq!(hist.sums[0], 100);
    assert_eq!(hist.upper[0], vec![50, 50]);
    assert_eq!(hist.lower[0], vec![1, 2]);
}

#[test]
fn next_lower_is_the_pivot_again_or_the_next_value_present() {
    let mut hist = primed_engine();
    hist.get_next_lower(0, 1, 50);
    assert_eq!(hist.lower[0], vec![1, 2, 50]);
    assert_eq!(hist.sums[0], 200);
    hist.get_next_lower(0, 0, 50);
    assert_eq!(hist.lower[0], vec![1, 2, 50, 100]);
    assert_eq!(hist.sums[0], 100);
    hist.get_next_lower(0, 0, 2);
    assert_eq!(hist.lower[0], vec![1, 2, 50, 100, 50]);
    assert_eq!(hist.sums[0], 50);
    hist.get_next_lower(0, 0, 200);
    hist.get_next_lower(0, -1, 255);
    assert_eq!(hist.lower[0], vec![1, 2, 50, 100, 50]);
    assert_eq!(hist.sums[0], 50);
    assert_eq!(hist.upper[0], vec![200, 100]);
}

#[test]
fn next_upper_is_the_pivot_again_or_the_next_value_present() {
    let mut hist = primed_engine();
    hist.get_next_upper(0, 2, 100);
    assert_eq!(hist.upper[0], vec![200, 100, 100]);
    assert_eq!(hist.sums[0], 150);
    hist.get_next_upper(0, 0, 100);
    assert_eq!(hist.upper[0], vec![200, 100, 100, 50]);
    assert_eq!(hist.sums[0], 100);
    hist.get_next_upper(0, 0, 50);
    assert_eq!(hist.upper[0], vec![200, 100, 100, 50, 2]);
    assert_eq!(hist.sums[0], 98);
    hist.get_next_upper(0, 0, 1);
    hist.get_next_upper(0, 0, 0);
    assert_eq!(hist.upper[0], vec![200, 100, 100, 50, 2]);
    assert_eq!(hist.sums[0], 98);
    assert_eq!(hist.lower[0], vec![1, 2]);
}

#[test]
fn mean_engine_rounds_halves_up() {
    let mut hist = MeanHist::new(1, 1, 4);
    assert_eq!(hist.trim, 2);
    assert_eq!(hist.len, 5);
    hist.update(&vec![3u8, 8, 8], true);
    assert_eq!(hist.data().get_count(8, 0), 2);
    hist.init();
    assert_eq!(hist.sums, vec![0]);
    hist.set_sum(33, 0);
    assert_eq!(hist.get_mean(0), 7);
    hist.set_sum(32, 0);
    assert_eq!(hist.get_mean(0), 6);
    hist.set_sum(35, 0);
    assert_eq!(hist.get_mean(0), 7);
    hist.set_sum(37, 0);
    assert_eq!(hist.get_mean(0), 7);
    hist.set_sum(38, 0);
    assert_eq!(hist.get_mean(0), 8);
    hist.set_sum(-4, 0);
    assert_eq!(hist.get_mean(0), 0);
    hist.set_sum(5000, 0);
    assert_eq!(hist.get_mean(0), 255);
    let mut even = MeanHist::new(1, 1, 5 - 1);
    even.init();
    even.len = 2;
    even.set_sum(5, 0);
    assert_eq!(even.get_mean(0), 3);
}

#[test]
fn clamp_holds_a_value_to_a_range() {
    assert_eq!(clamp(5i32, 0, 10), 5);
    assert_eq!(clamp(-5i32, 0, 10), 0);
    assert_eq!(clamp(15i32, 0, 10), 10);
    assert_eq!(clamp(0u8, 0, 10), 0);
    assert_eq!(clamp(10i64, 0, 10), 10);
    assert_eq!(clamp(7u32, 9, 3), 9);
    assert_eq!(clamp_max(7u32, 5), 5);
    assert_eq!(clamp_max(4u32, 5), 4);
    assert_eq!(clamp_max(5u8, 5), 5);
}

#[test]
fn vector_mul_multiplies_row_by_row() {
    let mat = [1i32, 2, 3, 4];
    let v = [5i32, 6];
    assert_eq!(vector_mul(&mat, &v), Ok(vec![17, 39]));
    let wide = [1i32, 2, 3, 4, 5];
    assert_eq!(vector_mul(&wide, &v), Ok(vec![17, 39]));
    let bytes = [200u8, 100, 1, 1];
    assert_eq!(vector_mul(&bytes, &[2u8, 1]), Ok(vec![244, 3]));
}

#[test]
fn vector_mul_rejects_a_matrix_of_another_size() {
    let mat = [1i64, 2, 3, 4, 5, 6];
    assert_eq!(
        vector_mul(&mat, &[1i64, 2]),
        Err(ImgProcError::InvalidArgError(ArgFault::DimensionMismatch))
    );
    assert_eq!(
        vector_mul(&mat[..1], &[1i64, 2]),
        Err(ImgProcError::InvalidArgError(ArgFault::DimensionMismatch))
    );
}

#[test]
fn numbers_wrap_and_compare() {
    assert_eq!(<u8 as Number>::from_u8(7), 7u8);
    assert_eq!(<i64 as Number>::from_u8(255), 255i64);
    assert_eq!(250u8.sum_with(10), 4);
    assert_eq!(16u8.product_with(17), 16);
    assert_eq!(i32::MAX.sum_with(1), i32::MIN);
    assert_eq!(3u32.product_with(4), 12);
    assert!(3i64.not_above(3));
    assert!(!4i64.not_above(3));
}

#[test]
fn lookup_table_holds_the_function() {
    let mut table = [0u32; 256];
    create_lookup_table(&mut table, |i| i as u32 * 3);
    for i in 0..256 {
        assert_eq!(table[i], i as u32 * 3);
    }
}

#[test]
fn brightness_adds_the_bias_and_saturates() {
    let img = Image::new(2, 1, 2, false, &[0, 100, 200, 255]).unwrap();
    assert_eq!(brightness(&img, 60).unwrap().data(), &[60, 160, 255, 255]);
    assert_eq!(brightness(&img, 0).unwrap().data(), &[0, 100, 200, 255]);
    let with_alpha = Image::new(2, 1, 2, true, &[0, 100, 200, 255]).unwrap();
    let out = brightness(&with_alpha, 60).unwrap();
    assert_eq!(out.data(), &[60, 100, 255, 255]);
    assert!(out.has_alpha());
}

#[test]
fn brightness_rejects_a_bias_out_of_range() {
    let img = Image::new(1, 1, 1, false, &[0]).unwrap();
    assert_eq!(
        brightness(&img, -1).err(),
        Some(ImgProcError::InvalidArgError(ArgFault::OutOfRange))
    );
    assert_eq!(
        brightness(&img, 256).err(),
        Some(ImgProcError::InvalidArgError(ArgFault::OutOfRange))
    );
}

#[test]
fn colour_types_map_to_channel_counts() {
    assert_eq!(png_from_color_type(ColorType::Grayscale), Ok((1, false)));
    assert_eq!(png_from_color_type(ColorType::GrayscaleAlpha), Ok((2, true)));
    assert_eq!(png_from_color_type(ColorType::RGB), Ok((3, false)));
    assert_eq!(png_from_color_type(ColorType::RGBA), Ok((4, true)));
    assert_eq!(png_from_color_type(ColorType::Indexed), Err(ImgIoError::IndexedColor));
    assert_eq!(png_into_color_type(1), Ok(ColorType::Grayscale));
    assert_eq!(png_into_color_type(2), Ok(ColorType::GrayscaleAlpha));
    assert_eq!(png_into_color_type(3), Ok(ColorType::RGB));
    assert_eq!(png_into_color_type(4), Ok(ColorType::RGBA));
    assert_eq!(png_into_color_type(0), Err(ImgIoError::ChannelCount));
    assert_eq!(png_into_color_type(5), Err(ImgIoError::ChannelCount));
}

#[test]
fn pixel_formats_map_to_channel_counts() {
    assert_eq!(jpg_pixel_format_to_channels(PixelFormat::L8), 1);
    assert_eq!(jpg_pixel_format_to_channels(PixelFormat::RGB24), 3);
    assert_eq!(jpg_pixel_format_to_channels(PixelFormat::CMYK32), 4);
}

#[test]
fn extensions_name_file_formats_whatever_their_case() {
    assert_eq!(file_format(b"png"), Ok(FileFormat::Png));
    assert_eq!(file_format(b"PNG"), Ok(FileFormat::Png));
    assert_eq!(file_format(b"jpg"), Ok(FileFormat::Jpeg));
    assert_eq!(file_format(b"JpEg"), Ok(FileFormat::Jpeg));
    assert_eq!(file_format(b"jpeg"), Ok(FileFormat::Jpeg));
    assert_eq!(file_format(b"gif"), Err(ImgIoError::UnsupportedFileFormat));
    assert_eq!(file_format(b"jpe"), Err(ImgIoError::UnsupportedFileFormat));
    assert_eq!(file_format(b"pngx"), Err(ImgIoError::UnsupportedFileFormat));
    assert_eq!(file_format(b""), Err(ImgIoError::UnsupportedFileFormat));
    assert_eq!(file_format(b"p\x8eg"), Err(ImgIoError::UnsupportedFileFormat));
}

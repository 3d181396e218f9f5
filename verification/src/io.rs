//! What the codecs and the library agree on: colour types, pixel formats and
//! file formats. Reading and writing files is left to the caller.

use vstd::prelude::*;

verus! {

/// The colour type of a PNG image.
#[derive(Debug, Clone, Copy, PartialEq, Eq)]
pub enum ColorType {
    Grayscale,
    GrayscaleAlpha,
    RGB,
    RGBA,
    Indexed,
}

/// The pixel format of a decoded JPEG image.
#[derive(Debug, Clone, Copy, PartialEq, Eq)]
pub enum PixelFormat {
    L8,
    RGB24,
    CMYK32,
}

/// A file format that can be told from a file name's extension.
#[derive(Debug, Clone, Copy, PartialEq, Eq)]
pub enum FileFormat {
    Png,
    Jpeg,
}

/// Why an image or a file cannot be handled.
#[derive(Debug, Clone, Copy, PartialEq, Eq)]
pub enum ImgIoError {
    /// The image is palette-indexed.
    IndexedColor,
    /// No colour type has this many channels.
    ChannelCount,
    /// The extension names no supported file format.
    UnsupportedFileFormat,
}

/// The channel count of a colour type and whether its last channel is an
/// alpha channel; palette-indexed images are rejected.
pub fn png_from_color_type(color_type: ColorType) -> (r: Result<(u8, bool), ImgIoError>)
    ensures
        r == match color_type {
            ColorType::Grayscale => Ok::<(u8, bool), ImgIoError>((1u8, false)),
            ColorType::GrayscaleAlpha => Ok((2u8, true)),
            ColorType::RGB => Ok((3u8, false)),
            ColorType::RGBA => Ok((4u8, true)),
            ColorType::Indexed => Err(ImgIoError::IndexedColor),
        },
{
    match color_type {
        ColorType::Grayscale => Ok((1, false)),
        ColorType::GrayscaleAlpha => Ok((2, true)),
        ColorType::RGB => Ok((3, false)),
        ColorType::RGBA => Ok((4, true)),
        ColorType::Indexed => Err(ImgIoError::IndexedColor),
    }
}

/// The colour type with the given number of channels, one to four.
pub fn png_into_color_type(channels: u8) -> (r: Result<ColorType, ImgIoError>)
    ensures
        r == if channels == 1 {
            Ok::<ColorType, ImgIoError>(ColorType::Grayscale)
        } else if channels == 2 {
            Ok(ColorType::GrayscaleAlpha)
        } else if channels == 3 {
            Ok(ColorType::RGB)
        } else if channels == 4 {
            Ok(ColorType::RGBA)
        } else {
            Err(ImgIoError::ChannelCount)
        },
{
    match channels {
        1 => Ok(ColorType::Grayscale),
        2 => Ok(ColorType::GrayscaleAlpha),
        3 => Ok(ColorType::RGB),
        4 => Ok(ColorType::RGBA),
        _ => Err(ImgIoError::ChannelCount),
    }
}

/// The number of channels of a pixel format.
pub fn jpg_pixel_format_to_channels(pixel_format: PixelFormat) -> (r: u8)
    ensures
        r == match pixel_format {
            PixelFormat::L8 => 1u8,
            PixelFormat::RGB24 => 3u8,
            PixelFormat::CMYK32 => 4u8,
        },
{
    match pixel_format {
        PixelFormat::L8 => 1,
        PixelFormat::RGB24 => 3,
        PixelFormat::CMYK32 => 4,
    }
}

/// An ASCII letter in lower case; any other byte as it is.
pub open spec fn lower(b: u8) -> u8 {
    if 65 <= b <= 90 {
        (b + 32) as u8
    } else {
        b
    }
}

/// The bytes of `ext`, each in lower case.
pub open spec fn lowered(ext: Seq<u8>) -> Seq<u8> {
    Seq::new(ext.len(), |i: int| lower(ext[i]))
}

/// The file format that an extension names, whatever its case: `png`, or `jpg` or `jpeg`.
pub open spec fn format_of(ext: Seq<u8>) -> Option<FileFormat> {
    if lowered(ext) == seq![112u8, 110u8, 103u8] {
        Some(FileFormat::Png)
    } else if lowered(ext) == seq![106u8, 112u8, 103u8] || lowered(ext) == seq![
        106u8,
        112u8,
        101u8,
        103u8,
    ] {
        Some(FileFormat::Jpeg)
    } else {
        None
    }
}

/// A byte in lower case.
fn to_lower(b: u8) -> (r: u8)
    ensures
        r == lower(b),
{
    if b >= 65 && b <= 90 {
        b + 32
    } else {
        b
    }
}

/// The file format that the extension `ext` of a file name stands for.
pub fn file_format(ext: &[u8]) -> (r: Result<FileFormat, ImgIoError>)
    ensures
        match r {
            Ok(f) => format_of(ext@) == Some(f),
            Err(e) => format_of(ext@) is None && e == ImgIoError::UnsupportedFileFormat,
        },
{
    let n: usize = ext.len();
    let ghost low = lowered(ext@);
    if n == 3 {
        let (a, b, c) = (to_lower(ext[0]), to_lower(ext[1]), to_lower(ext[2]));
        proof {
            assert(low[0] == a && low[1] == b && low[2] == c);
        }
        if a == 112 && b == 110 && c == 103 {
            assert(low =~= seq![112u8, 110u8, 103u8]);
            return Ok(FileFormat::Png);
        }
        if a == 106 && b == 112 && c == 103 {
            assert(low =~= seq![106u8, 112u8, 103u8]);
            assert(seq![106u8, 112u8, 103u8][0] != 112u8);
            return Ok(FileFormat::Jpeg);
        }
        assert(seq![112u8, 110u8, 103u8][0] == 112u8 && seq![112u8, 110u8, 103u8][1] == 110u8
            && seq![112u8, 110u8, 103u8][2] == 103u8);
        assert(seq![106u8, 112u8, 103u8][0] == 106u8 && seq![106u8, 112u8, 103u8][1] == 112u8
            && seq![106u8, 112u8, 103u8][2] == 103u8);
        assert(seq![106u8, 112u8, 101u8, 103u8].len() == 4);
        Err(ImgIoError::UnsupportedFileFormat)
    } else if n == 4 {
        let (a, b, c, d) = (
            to_lower(ext[0]),
            to_lower(ext[1]),
            to_lower(ext[2]),
            to_lower(ext[3]),
        );
        proof {
            assert(low[0] == a && low[1] == b && low[2] == c && low[3] == d);
            assert(seq![112u8, 110u8, 103u8].len() == 3);
            assert(seq![106u8, 112u8, 103u8].len() == 3);
        }
        if a == 106 && b == 112 && c == 101 && d == 103 {
            assert(low =~= seq![106u8, 112u8, 101u8, 103u8]);
            return Ok(FileFormat::Jpeg);
        }
        let ghost j = seq![106u8, 112u8, 101u8, 103u8];
        assert(j[0] == 106u8 && j[1] == 112u8 && j[2] == 101u8 && j[3] == 103u8);
        Err(ImgIoError::UnsupportedFileFormat)
    } else {
        proof {
            assert(low.len() == n);
            assert(seq![112u8, 110u8, 103u8].len() == 3);
            assert(seq![106u8, 112u8, 103u8].len() == 3);
            assert(seq![106u8, 112u8, 101u8, 103u8].len() == 4);
        }
        Err(ImgIoError::UnsupportedFileFormat)
    }
}

} // verus!

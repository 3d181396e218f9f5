//! Tone operations.

use vstd::prelude::*;
use crate::error::{ArgFault, ImgProcError};
use crate::image::Image;
use crate::util::create_lookup_table;

verus! {

/// A sample raised by `bias` and held to a sample's range.
pub open spec fn brightened(value: int, bias: int) -> int {
    if value + bias > 255 {
        255
    } else if value + bias < 0 {
        0
    } else {
        value + bias
    }
}

/// Whether position `k` of a buffer of an image of this shape holds a sample of the alpha channel.
pub open spec fn is_alpha_sample(img: &Image, k: int) -> bool {
    img.alpha && k % (img.channels as int) == img.channels - 1
}

/// Adds `bias` to every sample of every channel but the alpha channel, and
/// holds the result to a sample's range. A `bias` outside `0 ..= 255` is
/// rejected.
pub fn brightness(input: &Image, bias: i32) -> (r: Result<Image, ImgProcError>)
    requires
        input.wf(),
    ensures
        match r {
            Ok(out) => 0 <= bias <= 255 && out.wf() && out.same_shape(input) && forall|k: int|
                0 <= k < input.data@.len() ==> #[trigger] out.data@[k] as int == if is_alpha_sample(
                    input,
                    k,
                ) {
                    input.data@[k] as int
                } else {
                    brightened(input.data@[k] as int, bias as int)
                },
            Err(e) => !(0 <= bias <= 255) && e == ImgProcError::InvalidArgError(ArgFault::OutOfRange),
        },
{
    if bias < 0 || bias > 255 {
        return Err(ImgProcError::InvalidArgError(ArgFault::OutOfRange));
    }
    let mut lookup_table: [u8; 256] = [0u8;256];
    let shift = |i: u8| -> (r: u8)
        ensures
            r as int == brightened(i as int, bias as int),
        {
            let t: i32 = i as i32 + bias;
            if t > 255 {
                255u8
            } else {
                t as u8
            }
        };
    create_lookup_table(&mut lookup_table, shift);
    let n: usize = input.data.len();
    let channels: usize = input.channels as usize;
    let mut data: Vec<u8> = Vec::with_capacity(n);
    let mut k: usize = 0;
    while k < n
        invariant
            input.wf(),
            n == input.data@.len(),
            channels == input.channels,
            0 <= bias <= 255,
            k <= n,
            data@.len() == k,
            forall|i: int| 0 <= i < 256 ==> #[trigger] lookup_table@[i] as int == brightened(i, bias as int),
            forall|i: int|
                0 <= i < k ==> #[trigger] data@[i] as int == if is_alpha_sample(input, i) {
                    input.data@[i] as int
                } else {
                    brightened(input.data@[i] as int, bias as int)
                },
        decreases n - k,
    {
        let value: u8 = input.data[k];
        if input.alpha && k % channels == channels - 1 {
            data.push(value);
        } else {
            data.push(lookup_table[value as usize]);
        }
        k += 1;
    }
    Ok(Image { width: input.width, height: input.height, channels: input.channels, alpha: input.alpha, data })
}

} // verus!

//! Labeled 28 x 28 grayscale digit images, and their translation into the
//! column vectors the network consumes: a 784-cell input of raw pixel values
//! and a 10-cell one-hot target.
use vstd::prelude::*;

use crate::fp;
use crate::matrix::Matrix;
use crate::matrix::ket_of;

verus! {

use vstd::slice::slice_to_vec;
use vstd::string::StringExecFns;

/// One 28 x 28 grayscale image: 784 pixel bytes, row-major.
#[derive(Debug, Clone, PartialEq)]
pub struct Image {
    pub data: Vec<u8>,
}

/// The three-character glyph a pixel renders to: its top three bits pick one
/// of eight brightness steps.
pub open spec fn glyph_of(pixel: u8) -> Seq<char> {
    let b = pixel >> 5u8;
    if b == 0 {
        "   "@
    } else if b == 1 {
        "..."@
    } else if b == 2 {
        "..:"@
    } else if b == 3 {
        "..|"@
    } else if b == 4 {
        ".:|"@
    } else if b == 5 {
        ".||"@
    } else if b == 6 {
        ":||"@
    } else if b == 7 {
        "|||"@
    } else {
        ""@
    }
}

impl Image {
    /// Wraps exactly 784 pixel bytes as an image.
    pub fn new(data: &[u8]) -> (r: Self)
        requires
            data@.len() == 784,
        ensures
            r.data@ == data@,
    {
        Self { data: slice_to_vec(data) }
    }

    /// The console glyph of one pixel.
    pub fn draw(pixel: u8) -> (r: String)
        ensures
            r@ == glyph_of(pixel),
    {
        let brightness = pixel >> 5u8;
        match brightness {
            0 => String::from_str("   "),
            1 => String::from_str("..."),
            2 => String::from_str("..:"),
            3 => String::from_str("..|"),
            4 => String::from_str(".:|"),
            5 => String::from_str(".||"),
            6 => String::from_str(":||"),
            7 => String::from_str("|||"),
            _ => String::from_str(""),
        }
    }
}

/// Turns a labeled image into the pair of columns the network trains on:
/// each pixel byte converted to its double value, unnormalized, and the
/// label as a one-hot column of ten cells.
pub fn translate(readable: &(u8, Image)) -> (r: (Matrix, Matrix))
    requires
        readable.0 < 10,
        readable.1.data@.len() == 784,
    ensures
        r.0.wf(),
        r.0@ == ket_of(
            Seq::new(
                readable.1.data@.len(),
                |i: int| fp::u64_to_double_bits_of(readable.1.data@[i] as u64),
            ),
        ),
        r.1.wf(),
        r.1@ == ket_of(
            Seq::new(
                10,
                |i: int|
                    if i == readable.0 as int {
                        fp::ONE_BITS
                    } else {
                        fp::ZERO_BITS
                    },
            ),
        ),
{
    let label = readable.0;
    let mut one_hot: Vec<u64> = Vec::new();
    for i in 0..10usize
        invariant
            label < 10,
            one_hot@.len() == i,
            forall|t: int|
                0 <= t < i ==> #[trigger] one_hot@[t] == if t == label as int {
                    fp::ONE_BITS
                } else {
                    fp::ZERO_BITS
                },
    {
        if i == label as usize {
            one_hot.push(fp::ONE_BITS);
        } else {
            one_hot.push(fp::ZERO_BITS);
        }
    }
    let pixels = &readable.1.data;
    let n = pixels.len();
    let mut img: Vec<u64> = Vec::new();
    for i in 0..n
        invariant
            n == pixels@.len(),
            n == 784,
            img@.len() == i,
            forall|t: int|
                0 <= t < i ==> #[trigger] img@[t] == fp::u64_to_double_bits_of(pixels@[t] as u64),
    {
        img.push(fp::u64_to_double_bits(pixels[i] as u64));
    }
    let ghost img_seq: Seq<u64> = img@;
    let ghost hot_seq: Seq<u64> = one_hot@;
    let input = Matrix::as_ket(img);
    let target = Matrix::as_ket(one_hot);
    proof {
        assert(img_seq =~= Seq::new(
            readable.1.data@.len(),
            |i: int| fp::u64_to_double_bits_of(readable.1.data@[i] as u64),
        ));
        assert(hot_seq =~= Seq::new(
            10,
            |i: int|
                if i == readable.0 as int {
                    fp::ONE_BITS
                } else {
                    fp::ZERO_BITS
                },
        ));
    }
    (input, target)
}

} // verus!

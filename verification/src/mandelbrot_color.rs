//! The colour wheel: from a hue in degrees to an RGB colour.

use image::Rgb;
use vstd::prelude::*;

verus! {

/// `image::Rgb`: a tuple struct around the array of its three channels,
/// red first.  The field is public, so the type is declared as it is and
/// verified code builds and reads colours itself.
#[verifier::external_type_specification]
pub struct ExRgb<T>(Rgb<T>);

/// The colour with the given channels.
pub open spec fn rgb(r: u8, g: u8, b: u8) -> Rgb<u8> {
    Rgb([r, g, b])
}

/// The channel that rises from 0 at the start of a sector of the wheel
/// towards 255 at its end, `within` degrees into the sector, cut off to a
/// whole number.
pub open spec fn rising(within: int) -> int {
    within * 255 / 60
}

/// The channel that falls from 255 at the start of a sector of the wheel
/// towards 0 at its end, `within` degrees into the sector, cut off to a
/// whole number.
pub open spec fn falling(within: int) -> int {
    (60 - within) * 255 / 60
}

/// The colour of full saturation and full value at hue `h`, in degrees.
///
/// The wheel has six sectors of 60 degrees.  In each, one channel is 255,
/// one is 0 and the third rises or falls between them; the turn is
/// complete at 360, where the first sector comes once more.  From 420 on
/// there is no sector and the colour is white.
pub open spec fn wheel(h: int) -> Rgb<u8> {
    let sector = h / 60;
    let up = rising(h % 60) as u8;
    let down = falling(h % 60) as u8;
    if sector == 0 || sector == 6 {
        rgb(255, up, 0)
    } else if sector == 1 {
        rgb(down, 255, 0)
    } else if sector == 2 {
        rgb(0, 255, up)
    } else if sector == 3 {
        rgb(0, down, 255)
    } else if sector == 4 {
        rgb(up, 0, 255)
    } else if sector == 5 {
        rgb(255, 0, down)
    } else {
        rgb(255, 255, 255)
    }
}

/// A colour of full saturation and full value, given by its hue in degrees.
#[derive(Copy, Clone, Debug, PartialEq, Eq, Structural)]
pub struct Hsv {
    pub h: u32,
}

impl Hsv {
    pub fn new(h: u32) -> (hsv: Hsv)
        ensures
            hsv.h == h,
    {
        Hsv { h }
    }

    /// The colour on the wheel at this hue.
    pub fn to_rgb(&self) -> (color: Rgb<u8>)
        ensures
            color == wheel(self.h as int),
    {
        let sector: u32 = self.h / 60;
        let within: u32 = self.h % 60;
        let up: u8 = (within * 255 / 60) as u8;
        let down: u8 = ((60 - within) * 255 / 60) as u8;
        match sector {
            0 | 6 => Rgb([255u8, up, 0u8]),
            1 => Rgb([down, 255u8, 0u8]),
            2 => Rgb([0u8, 255u8, up]),
            3 => Rgb([0u8, down, 255u8]),
            4 => Rgb([up, 0u8, 255u8]),
            5 => Rgb([255u8, 0u8, down]),
            _ => Rgb([255u8, 255u8, 255u8]),
        }
    }
}

/// The colour for a count of iterations: the count, turned round the wheel
/// as often as it takes, is the hue.
pub fn get_rgb(iterations: u32) -> (color: Rgb<u8>)
    ensures
        color == wheel(iterations as int % 360),
{
    let hsv_hue: u32 = iterations % 360;
    let hsv = Hsv::new(hsv_hue);
    hsv.to_rgb()
}

} // verus!

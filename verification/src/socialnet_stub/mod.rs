//! Stands in for the social network application where that is not built.
use vstd::prelude::*;

pub mod media;

verus! {

/// A picture and its raw pixels.
#[derive(Clone)]
pub struct Image {
    pub width: u32,
    pub height: u32,
    pub pixels: Vec<u8>,
}

impl Default for Image {
    fn default() -> (image: Self)
        ensures
            image.width == 0,
            image.height == 0,
            image.pixels@ == Seq::<u8>::empty(),
    {
        Image { width: 0, height: 0, pixels: Vec::new() }
    }
}

} // verus!

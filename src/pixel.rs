use vstd::prelude::*;

verus! {

/// The red, green and blue channels of an RGBA pixel, alpha dropped.
pub fn extrax_rgb(pixel: [u8; 4]) -> (r: (u8, u8, u8))
    ensures
        r == (pixel@[0], pixel@[1], pixel@[2]),
{
    (pixel[0], pixel[1], pixel[2])
}

} // verus!

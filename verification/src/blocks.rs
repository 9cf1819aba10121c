//! The building-block layer: which returns mark a block, and the block image that the
//! marked squares make once median filtered.
use vstd::prelude::*;
use crate::vege_grid::{median_filter_grid, median_filtered};

verus! {

/// Whether a return can mark a building block: not classified ground (2) or water (9), and
/// the only echo of its pulse. Whether it also stands more than 2 m above the ground model
/// is measured by the caller.
pub open spec fn block_return_of(class: u8, number_of_returns: u8, return_number: u8) -> bool {
    class != 2 && class != 9 && number_of_returns == 1 && return_number == 1
}

/// Whether a return can mark a building block (see [`block_return_of`]).
pub fn is_block_return(class: u8, number_of_returns: u8, return_number: u8) -> (r: bool)
    ensures
        r == block_return_of(class, number_of_returns, return_number),
{
    class != 2 && class != 9 && number_of_returns == 1 && return_number == 1
}

/// The unfiltered block image: black (0) where a block square was drawn and no other
/// return's square was laid over it, white (255) elsewhere.
pub open spec fn block_ink_of(block: Seq<bool>, other: Seq<bool>) -> Seq<u8> {
    Seq::new(block.len(), |i: int| if block[i] && !other[i] { 0u8 } else { 255u8 })
}

/// The block image of a `width` x `height` raster (row by row): `block[i]` tells whether a
/// square of a block return covers pixel `i`, `other[i]` whether a square of another return
/// does, and those are laid over the block squares. The image is median filtered with
/// radius 2 (by `imageproc`), which clears lone marks.
pub fn blocks_image(block: &Vec<bool>, other: &Vec<bool>, width: u32, height: u32) -> (r: Vec<u8>)
    requires
        block@.len() == other@.len(),
        block@.len() == width * height,
        width + 2 <= i32::MAX,
        height + 2 <= i32::MAX,
    ensures
        r@ == median_filtered(block_ink_of(block@, other@), width, height, 2),
        r@.len() == block@.len(),
{
    let mut ink: Vec<u8> = Vec::with_capacity(block.len());
    let mut i: usize = 0;
    while i < block.len()
        invariant
            block@.len() == other@.len(),
            i <= block@.len(),
            ink@ == block_ink_of(block@, other@).take(i as int),
        decreases block@.len() - i,
    {
        ink.push(if block[i] && !other[i] { 0u8 } else { 255u8 });
        i = i + 1;
    }
    assert(ink@ == block_ink_of(block@, other@));
    median_filter_grid(&ink, width, height, 2)
}


/// Ground (class 2) and water (class 9) returns never mark a block, nor does any return of
/// a pulse with more than one echo; every other class's single echo does.
pub proof fn lemma_block_returns(class: u8, number_of_returns: u8, return_number: u8)
    ensures
        class == 2 || class == 9 ==> !block_return_of(class, number_of_returns, return_number),
        number_of_returns != 1 ==> !block_return_of(class, number_of_returns, return_number),
        class != 2 && class != 9 ==> block_return_of(class, 1, 1),
{
}

} // verus!

use vstd::prelude::*;

verus! {

/// The RGBA colours handed out in turn to new objects, and used to paint
/// object indices in the debug view.
pub open spec fn palette() -> Seq<Seq<u8>> {
    seq![
        seq![250u8, 100, 0, 255],
        seq![164u8, 250, 150, 255],
        seq![9u8, 62, 36, 255],
        seq![200u8, 40, 235, 255],
        seq![52u8, 112, 129, 255],
        seq![78u8, 175, 51, 255],
        seq![53u8, 138, 30, 255],
        seq![183u8, 171, 239, 255],
        seq![2u8, 67, 188, 255],
        seq![91u8, 113, 64, 255],
        seq![235u8, 39, 232, 255],
        seq![60u8, 69, 123, 255],
        seq![200u8, 40, 235, 255],
    ]
}

/// The palette as a list of RGBA arrays.
pub fn generate_colors_list() -> (r: Vec<[u8; 4]>)
    ensures
        r@.len() == palette().len(),
        forall|i: int| 0 <= i < r@.len() ==> (#[trigger] r@[i])@ == palette()[i],
{
    let r: Vec<[u8; 4]> = vec![
        [250, 100, 0, 255],
        [164, 250, 150, 255],
        [9, 62, 36, 255],
        [200, 40, 235, 255],
        [52, 112, 129, 255],
        [78, 175, 51, 255],
        [53, 138, 30, 255],
        [183, 171, 239, 255],
        [2, 67, 188, 255],
        [91, 113, 64, 255],
        [235, 39, 232, 255],
        [60, 69, 123, 255],
        [200, 40, 235, 255],
    ];
    r
}

} // verus!

//! The colour in which each tile is painted, as red, green, blue and alpha.
use vstd::prelude::*;
use crate::line::cell_value;

verus! {

/// The colour of a cell: black when empty, one colour for each value from 2
/// through 2048, and one more for every other value.
pub open spec fn rgba_of(cell: Option<int>) -> Seq<u8> {
    match cell {
        None => seq![0x00u8, 0x00, 0x00, 0xff],
        Some(v) => if v == 2 {
            seq![0xffu8, 0xf4, 0xea, 0xff]
        } else if v == 4 {
            seq![0xeeu8, 0xe1, 0xc9, 0xff]
        } else if v == 8 {
            seq![0xf3u8, 0xb2, 0x7a, 0xff]
        } else if v == 16 {
            seq![0xf6u8, 0x96, 0x64, 0xff]
        } else if v == 32 {
            seq![0xf7u8, 0x7c, 0x5f, 0xff]
        } else if v == 64 {
            seq![0xf7u8, 0x5f, 0x3b, 0xff]
        } else if v == 128 {
            seq![0xedu8, 0xd0, 0x73, 0xff]
        } else if v == 256 {
            seq![0xedu8, 0xcc, 0x62, 0xff]
        } else if v == 512 {
            seq![0xedu8, 0xc9, 0x50, 0xff]
        } else if v == 1024 {
            seq![0xedu8, 0xc5, 0x3f, 0xff]
        } else if v == 2048 {
            seq![0xedu8, 0xc2, 0x2e, 0xff]
        } else {
            seq![0x48u8, 0xb2, 0xe8, 0xff]
        },
    }
}

/// The colour in which a cell is painted.
pub fn tile_color(cell: Option<u32>) -> (r: [u8; 4])
    ensures
        r@ == rgba_of(cell_value(cell)),
{
    let r: [u8; 4] = match cell {
        None => [0x00, 0x00, 0x00, 0xff],
        Some(2) => [0xff, 0xf4, 0xea, 0xff],
        Some(4) => [0xee, 0xe1, 0xc9, 0xff],
        Some(8) => [0xf3, 0xb2, 0x7a, 0xff],
        Some(16) => [0xf6, 0x96, 0x64, 0xff],
        Some(32) => [0xf7, 0x7c, 0x5f, 0xff],
        Some(64) => [0xf7, 0x5f, 0x3b, 0xff],
        Some(128) => [0xed, 0xd0, 0x73, 0xff],
        Some(256) => [0xed, 0xcc, 0x62, 0xff],
        Some(512) => [0xed, 0xc9, 0x50, 0xff],
        Some(1024) => [0xed, 0xc5, 0x3f, 0xff],
        Some(2048) => [0xed, 0xc2, 0x2e, 0xff],
        Some(_) => [0x48, 0xb2, 0xe8, 0xff],
    };
    assert(r@ =~= rgba_of(cell_value(cell)));
    r
}

} // verus!

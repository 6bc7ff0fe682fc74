//! The colours in which tiles are drawn.

use vstd::prelude::*;

verus! {

/// A colour as its red, green and blue parts.
#[derive(Clone, Copy, Debug, PartialEq, Eq, Structural)]
pub struct Rgb {
    pub red: u8,
    pub green: u8,
    pub blue: u8,
}

/// The colour of the tile with the given value: one for each tile from 2
/// to 2048, and one for all the others.
pub open spec fn colour_of(value: u32) -> Rgb {
    if value == 2 {
        Rgb { red: 0xee, green: 0xe4, blue: 0xda }
    } else if value == 4 {
        Rgb { red: 0xed, green: 0xe0, blue: 0xc8 }
    } else if value == 8 {
        Rgb { red: 0xf2, green: 0xb1, blue: 0x79 }
    } else if value == 16 {
        Rgb { red: 0xf5, green: 0x95, blue: 0x63 }
    } else if value == 32 {
        Rgb { red: 0xf6, green: 0x7c, blue: 0x5f }
    } else if value == 64 {
        Rgb { red: 0xf6, green: 0x5e, blue: 0x3b }
    } else if value == 128 {
        Rgb { red: 0xed, green: 0xcf, blue: 0x72 }
    } else if value == 256 {
        Rgb { red: 0xed, green: 0xcc, blue: 0x61 }
    } else if value == 512 {
        Rgb { red: 0xed, green: 0xc8, blue: 0x50 }
    } else if value == 1024 {
        Rgb { red: 0xed, green: 0xc5, blue: 0x3f }
    } else if value == 2048 {
        Rgb { red: 0xed, green: 0xc2, blue: 0x2e }
    } else {
        Rgb { red: 0xcd, green: 0xc1, blue: 0xb4 }
    }
}

/// The colour of the tile with the given value.
pub fn tile_color(value: u32) -> (colour: Rgb)
    ensures
        colour == colour_of(value),
{
    match value {
        2 => Rgb { red: 0xee, green: 0xe4, blue: 0xda },
        4 => Rgb { red: 0xed, green: 0xe0, blue: 0xc8 },
        8 => Rgb { red: 0xf2, green: 0xb1, blue: 0x79 },
        16 => Rgb { red: 0xf5, green: 0x95, blue: 0x63 },
        32 => Rgb { red: 0xf6, green: 0x7c, blue: 0x5f },
        64 => Rgb { red: 0xf6, green: 0x5e, blue: 0x3b },
        128 => Rgb { red: 0xed, green: 0xcf, blue: 0x72 },
        256 => Rgb { red: 0xed, green: 0xcc, blue: 0x61 },
        512 => Rgb { red: 0xed, green: 0xc8, blue: 0x50 },
        1024 => Rgb { red: 0xed, green: 0xc5, blue: 0x3f },
        2048 => Rgb { red: 0xed, green: 0xc2, blue: 0x2e },
        _ => Rgb { red: 0xcd, green: 0xc1, blue: 0xb4 },
    }
}

} // verus!

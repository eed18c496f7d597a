//! The colours of the cells.

use vstd::prelude::*;

use crate::tile::{Cell, TileState};

verus! {

/// The background of a cell: one for the empty cell, one for each of the
/// tiles from 2 to 2048, and one for all above.
#[derive(Clone, Copy, PartialEq, Eq, Debug, Structural)]
pub enum CustomColor {
    Empty,
    Power1,
    Power2,
    Power3,
    Power4,
    Power5,
    Power6,
    Power7,
    Power8,
    Power9,
    Power10,
    Power11,
    Power12,
}

impl Default for CustomColor {
    /// The background of the empty cell.
    fn default() -> (color: CustomColor)
        ensures
            color == CustomColor::Empty,
    {
        CustomColor::Empty
    }
}

/// The background that goes with what a cell holds.
pub open spec fn color_of(c: Cell) -> CustomColor {
    match c {
        None => CustomColor::Empty,
        Some(v) => if v == 2 {
            CustomColor::Power1
        } else if v == 4 {
            CustomColor::Power2
        } else if v == 8 {
            CustomColor::Power3
        } else if v == 16 {
            CustomColor::Power4
        } else if v == 32 {
            CustomColor::Power5
        } else if v == 64 {
            CustomColor::Power6
        } else if v == 128 {
            CustomColor::Power7
        } else if v == 256 {
            CustomColor::Power8
        } else if v == 512 {
            CustomColor::Power9
        } else if v == 1024 {
            CustomColor::Power10
        } else if v == 2048 {
            CustomColor::Power11
        } else {
            CustomColor::Power12
        },
    }
}

/// Red, green and blue of a background, each from 0 to 255.
pub open spec fn rgb_of(color: CustomColor) -> (u8, u8, u8) {
    match color {
        CustomColor::Empty => (0xcc, 0xc0, 0xb4),
        CustomColor::Power1 => (0xee, 0xe4, 0xda),
        CustomColor::Power2 => (0xed, 0xe0, 0xc8),
        CustomColor::Power3 => (0xf2, 0xb1, 0x79),
        CustomColor::Power4 => (0xf5, 0x95, 0x63),
        CustomColor::Power5 => (0xf6, 0x7c, 0x5f),
        CustomColor::Power6 => (0xf6, 0x5e, 0x3b),
        CustomColor::Power7 => (0xed, 0xcf, 0x72),
        CustomColor::Power8 => (0xed, 0xcc, 0x61),
        CustomColor::Power9 => (0xed, 0xc8, 0x50),
        CustomColor::Power10 => (0xed, 0xc5, 0x3f),
        CustomColor::Power11 => (0xed, 0xc2, 0x2e),
        CustomColor::Power12 => (149, 40, 169),
    }
}

impl CustomColor {
    /// The background that goes with what the cell holds.
    pub fn of_tile(tile: TileState) -> (color: CustomColor)
        ensures
            color == color_of(tile@),
    {
        match tile {
            TileState::Empty => CustomColor::Empty,
            TileState::Value(x) => match x {
                2 => CustomColor::Power1,
                4 => CustomColor::Power2,
                8 => CustomColor::Power3,
                16 => CustomColor::Power4,
                32 => CustomColor::Power5,
                64 => CustomColor::Power6,
                128 => CustomColor::Power7,
                256 => CustomColor::Power8,
                512 => CustomColor::Power9,
                1024 => CustomColor::Power10,
                2048 => CustomColor::Power11,
                _ => CustomColor::Power12,
            },
        }
    }

    /// Red, green and blue of the background.
    pub fn rgb(self) -> (parts: (u8, u8, u8))
        ensures
            parts == rgb_of(self),
    {
        match self {
            CustomColor::Empty => (0xcc, 0xc0, 0xb4),
            CustomColor::Power1 => (0xee, 0xe4, 0xda),
            CustomColor::Power2 => (0xed, 0xe0, 0xc8),
            CustomColor::Power3 => (0xf2, 0xb1, 0x79),
            CustomColor::Power4 => (0xf5, 0x95, 0x63),
            CustomColor::Power5 => (0xf6, 0x7c, 0x5f),
            CustomColor::Power6 => (0xf6, 0x5e, 0x3b),
            CustomColor::Power7 => (0xed, 0xcf, 0x72),
            CustomColor::Power8 => (0xed, 0xcc, 0x61),
            CustomColor::Power9 => (0xed, 0xc8, 0x50),
            CustomColor::Power10 => (0xed, 0xc5, 0x3f),
            CustomColor::Power11 => (0xed, 0xc2, 0x2e),
            CustomColor::Power12 => (149, 40, 169),
        }
    }
}

} // verus!

use game2048::{CustomColor, TileState};

#[test]
fn the_default_colour_is_that_of_the_empty_cell() {
    assert_eq!(CustomColor::default(), CustomColor::Empty);
}

#[test]
fn each_tile_up_to_2048_has_its_colour() {
    assert_eq!(CustomColor::of_tile(TileState::Empty), CustomColor::Empty);
    let colours = [
        CustomColor::Power1,
        CustomColor::Power2,
        CustomColor::Power3,
        CustomColor::Power4,
        CustomColor::Power5,
        CustomColor::Power6,
        CustomColor::Power7,
        CustomColor::Power8,
        CustomColor::Power9,
        CustomColor::Power10,
        CustomColor::Power11,
    ];
    for (k, colour) in colours.iter().enumerate() {
        assert_eq!(CustomColor::of_tile(TileState::Value(2u32 << k)), *colour);
    }
}

#[test]
fn the_tiles_above_2048_share_a_colour() {
    for k in 12..32 {
        assert_eq!(CustomColor::of_tile(TileState::Value(1u32 << k)), CustomColor::Power12);
    }
}

#[test]
fn colours_have_their_red_green_and_blue() {
    assert_eq!(CustomColor::Empty.rgb(), (0xcc, 0xc0, 0xb4));
    assert_eq!(CustomColor::Power1.rgb(), (0xee, 0xe4, 0xda));
    assert_eq!(CustomColor::Power2.rgb(), (0xed, 0xe0, 0xc8));
    assert_eq!(CustomColor::Power3.rgb(), (0xf2, 0xb1, 0x79));
    assert_eq!(CustomColor::Power4.rgb(), (0xf5, 0x95, 0x63));
    assert_eq!(CustomColor::Power5.rgb(), (0xf6, 0x7c, 0x5f));
    assert_eq!(CustomColor::Power6.rgb(), (0xf6, 0x5e, 0x3b));
    assert_eq!(CustomColor::Power7.rgb(), (0xed, 0xcf, 0x72));
    assert_eq!(CustomColor::Power8.rgb(), (0xed, 0xcc, 0x61));
    assert_eq!(CustomColor::Power9.rgb(), (0xed, 0xc8, 0x50));
    assert_eq!(CustomColor::Power10.rgb(), (0xed, 0xc5, 0x3f));
    assert_eq!(CustomColor::Power11.rgb(), (0xed, 0xc2, 0x2e));
    assert_eq!(CustomColor::Power12.rgb(), (149, 40, 169));
}

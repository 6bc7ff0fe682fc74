use babel2048::palette::{tile_color, Rgb};

#[test]
fn each_tile_up_to_2048_has_its_colour() {
    assert_eq!(tile_color(2), Rgb { red: 0xee, green: 0xe4, blue: 0xda });
    assert_eq!(tile_color(4), Rgb { red: 0xed, green: 0xe0, blue: 0xc8 });
    assert_eq!(tile_color(8), Rgb { red: 0xf2, green: 0xb1, blue: 0x79 });
    assert_eq!(tile_color(16), Rgb { red: 0xf5, green: 0x95, blue: 0x63 });
    assert_eq!(tile_color(32), Rgb { red: 0xf6, green: 0x7c, blue: 0x5f });
    assert_eq!(tile_color(64), Rgb { red: 0xf6, green: 0x5e, blue: 0x3b });
    assert_eq!(tile_color(128), Rgb { red: 0xed, green: 0xcf, blue: 0x72 });
    assert_eq!(tile_color(256), Rgb { red: 0xed, green: 0xcc, blue: 0x61 });
    assert_eq!(tile_color(512), Rgb { red: 0xed, green: 0xc8, blue: 0x50 });
    assert_eq!(tile_color(1024), Rgb { red: 0xed, green: 0xc5, blue: 0x3f });
    assert_eq!(tile_color(2048), Rgb { red: 0xed, green: 0xc2, blue: 0x2e });
}

#[test]
fn other_values_share_one_colour() {
    let other = Rgb { red: 0xcd, green: 0xc1, blue: 0xb4 };
    assert_eq!(tile_color(0), other);
    assert_eq!(tile_color(3), other);
    assert_eq!(tile_color(4096), other);
    assert_eq!(tile_color(u32::MAX), other);
}

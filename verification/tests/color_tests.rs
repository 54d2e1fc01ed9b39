use toroidal_life::cell::Cell;
use toroidal_life::color::{saturate, shift_channel, Rgb};

fn colored(r: u8, g: u8, b: u8) -> Cell {
    Cell { alive: true, color: Some(Rgb { r, g, b }) }
}

#[test]
fn dead_cell_is_black() {
    let c = Cell::dead();
    assert!(!c.alive);
    assert_eq!(c.color, Some(Rgb { r: 0, g: 0, b: 0 }));
}

#[test]
fn random_alive_channels_in_range() {
    for _ in 0..64 {
        let c = Cell::random_alive();
        assert!(c.alive);
        let col = c.color.unwrap();
        assert!(col.r >= 50 && col.g >= 50 && col.b >= 50);
    }
}

#[test]
fn shift_channel_clamps_at_bounds() {
    assert_eq!(shift_channel(250, 9), 255);
    assert_eq!(shift_channel(3, -9), 0);
    assert_eq!(shift_channel(100, -9), 91);
    assert_eq!(shift_channel(100, 9), 109);
    assert_eq!(shift_channel(0, 0), 0);
}

#[test]
fn saturate_keeps_value_and_resets_chroma() {
    // max 200, min 50: chroma 160, low channel 40, middle rescaled.
    assert_eq!(saturate(Rgb { r: 200, g: 100, b: 50 }), Rgb { r: 200, g: 93, b: 40 });
    // a gray has no hue of its own and comes out as hue zero
    assert_eq!(saturate(Rgb { r: 100, g: 100, b: 100 }), Rgb { r: 100, g: 20, b: 20 });
    assert_eq!(saturate(Rgb { r: 0, g: 0, b: 0 }), Rgb { r: 0, g: 0, b: 0 });
    assert_eq!(saturate(Rgb { r: 255, g: 255, b: 0 }), Rgb { r: 255, g: 255, b: 51 });
}

#[test]
fn from_parents_empty_falls_back_to_fresh_color() {
    let c = Cell::from_parents(&[]);
    assert!(c.alive);
    let col = c.color.unwrap();
    assert!(col.r >= 50 && col.g >= 50 && col.b >= 50);
}

#[test]
fn from_parents_ignores_dead_and_colorless_cells() {
    let parents = [
        Cell::dead(),
        Cell { alive: false, color: Some(Rgb { r: 255, g: 255, b: 255 }) },
        Cell { alive: true, color: None },
        colored(200, 100, 50),
    ];
    // the only contributing parent has color (200, 100, 50); with zero
    // jitter the newborn is its saturated form
    let c = Cell::from_parents_with(&parents, 0, 0, 0);
    assert!(c.alive);
    assert_eq!(c.color, Some(Rgb { r: 200, g: 93, b: 40 }));
}

#[test]
fn newborn_color_is_saturated_parent_average() {
    // averages truncate: (10+20+30)/3 = 20, (20+30+40)/3 = 30, (30+40+50)/3 = 40
    let parents = [colored(10, 20, 30), colored(20, 30, 40), colored(30, 40, 50)];
    let c = Cell::from_parents_with(&parents, 0, 0, 0);
    assert_eq!(c.color, Some(Rgb { r: 8, g: 24, b: 40 }));
}

#[test]
fn newborn_jitter_moves_average_before_saturation() {
    // average (100, 150, 200); jitter (9, -9, 0) gives (109, 141, 200),
    // which then saturates to (40, 96, 200)
    let parents = [colored(100, 150, 200), colored(100, 150, 200), colored(100, 150, 200)];
    let c = Cell::from_parents_with(&parents, 9, -9, 0);
    assert_eq!(c.color, Some(Rgb { r: 40, g: 96, b: 200 }));
}

#[test]
fn from_parents_draws_jitter_within_bound() {
    // all parents share one gray-blue color, so the average is that color;
    // whatever jitter is drawn, each pre-saturation channel stays within
    // nine of it, and the maximum channel survives saturation unchanged
    let parents = [colored(50, 100, 200), colored(50, 100, 200), colored(50, 100, 200)];
    for _ in 0..64 {
        let c = Cell::from_parents(&parents);
        assert!(c.alive);
        let col = c.color.unwrap();
        // the blue channel is the maximum even after the worst jitter,
        // and saturation keeps the maximum channel as the value
        assert!(col.b >= 191 && col.b <= 209);
    }
}

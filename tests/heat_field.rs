use heat_field::{brush_contribution, constrain, remap, ConfigurationError, HeatMap, HeatPoint, RemapError};

fn grid(
    width: u32,
    height: u32,
    spacing: u32,
    radius: u32,
    intensity: u32,
    cap: u32,
) -> HeatMap {
    HeatMap::new(0, 0, width, height, spacing, radius, intensity, cap).unwrap()
}

fn values(m: &HeatMap) -> Vec<u32> {
    let mut out = Vec::new();
    for row in 0..m.height() {
        for column in 0..m.width() {
            out.push(m.cell(column, row).unwrap());
        }
    }
    out
}

#[test]
fn remap_midpoint_forward_and_reversed() {
    assert_eq!(remap(5, 0, 10, 0, 100, false), Ok(50));
    assert_eq!(remap(5, 0, 10, 100, 0, false), Ok(50));
}

#[test]
fn remap_empty_source_range_is_refused() {
    assert_eq!(remap(5, 3, 3, 0, 100, false), Err(RemapError::InvalidRange));
    assert_eq!(remap(5, 3, 3, 0, 100, true), Err(RemapError::InvalidRange));
}

#[test]
fn remap_leaves_the_range_unless_clamped() {
    assert_eq!(remap(20, 0, 10, 0, 100, false), Ok(200));
    assert_eq!(remap(20, 0, 10, 0, 100, true), Ok(100));
    assert_eq!(remap(20, 0, 10, 100, 0, false), Ok(-100));
    assert_eq!(remap(20, 0, 10, 100, 0, true), Ok(0));
}

#[test]
fn remap_rounds_down_and_accepts_a_falling_source() {
    assert_eq!(remap(1, 0, 3, 0, -10, false), Ok(-4));
    assert_eq!(remap(1, 0, 3, 0, 10, false), Ok(3));
    assert_eq!(remap(8, 10, 0, 0, 100, false), Ok(20));
    assert_eq!(remap(-5, -10, 10, 0, 20, false), Ok(5));
}

#[test]
fn constrain_bounds_both_ways() {
    assert_eq!(constrain(-5, 0, 10), 0);
    assert_eq!(constrain(15, 0, 10), 10);
    assert_eq!(constrain(7, 0, 10), 7);
    assert_eq!(constrain(-7, -10, -2), -7);
}

#[test]
fn brush_contribution_falls_off_with_distance() {
    assert_eq!(brush_contribution(10, 3, 0, 0), 10);
    assert_eq!(brush_contribution(10, 3, 1, 0), 6);
    assert_eq!(brush_contribution(10, 3, 1, 1), 5);
    assert_eq!(brush_contribution(10, 3, 0, 2), 3);
    assert_eq!(brush_contribution(10, 3, 3, 0), 0);
    assert_eq!(brush_contribution(10, 3, 3, 1), 0);
    assert_eq!(brush_contribution(0, 3, 0, 0), 0);
}

#[test]
fn brush_contribution_is_exact_for_wide_values() {
    assert_eq!(brush_contribution(1 << 40, 10, 3, 4), 1 << 39);
    assert_eq!(brush_contribution(1 << 40, 10, 3, 3), 633_028_350_979);
    assert_eq!(brush_contribution(1_000_000_000_000_000, 3_000_000_000_000, 1, 1), 999_999_999_999_528);
    assert_eq!(
        brush_contribution(u64::MAX, (1u128 << 64) + 7, u32::MAX, u32::MAX),
        18_446_744_067_635_550_616
    );
    assert_eq!(brush_contribution(7, 1u128 << 100, 100, 7), 6);
    assert_eq!(brush_contribution(u64::MAX, 1u128 << 127, 0, 0), u64::MAX);
}

#[test]
fn brush_peaks_at_the_cell_it_is_set_on() {
    let mut m = grid(5, 5, 1, 2, 10, 100);
    m.update(2, 2, 1, true);
    let centre = m.cell(2, 2).unwrap();
    assert_eq!(centre, 10);
    for row in 0..5 {
        for column in 0..5 {
            if (column, row) != (2, 2) {
                assert!(m.cell(column, row).unwrap() < centre);
            }
        }
    }
    assert_eq!(m.cell(1, 2), Some(6));
    assert_eq!(m.cell(1, 1), Some(5));
    assert_eq!(m.cell(0, 2), Some(0));
    assert_eq!(m.cell(0, 0), Some(0));
}

#[test]
fn end_to_end_three_by_three() {
    let mut m = grid(3, 3, 1, 2, 10, 5);
    m.update(1, 1, 1, true);
    let after_brush = values(&m);
    let centre = m.cell(1, 1).unwrap();
    assert!(centre <= 5);
    assert!(after_brush.iter().all(|&v| v <= centre));
    assert_eq!(after_brush, vec![5; 9]);
    m.update(0, 0, 0, false);
    let after_cooling = values(&m);
    for (before, after) in after_brush.iter().zip(after_cooling.iter()) {
        assert_eq!(*after, *before - 1);
    }
}

#[test]
fn far_corners_get_nothing() {
    let mut m = grid(3, 3, 2, 1, 10, 50);
    m.update(2, 2, 1, true);
    assert_eq!(m.cell(1, 1), Some(10));
    assert_eq!(m.cell(0, 0), Some(0));
    assert_eq!(m.cell(2, 2), Some(0));
    assert_eq!(m.cell(0, 1), Some(0));
}

#[test]
fn cooling_reaches_zero_after_the_largest_value() {
    let mut m = grid(4, 3, 1, 3, 7, 100);
    m.update(1, 1, 1, true);
    let start = values(&m);
    let largest = *start.iter().max().unwrap();
    assert!(largest > 0);
    let mut previous = start.clone();
    for _ in 0..largest {
        m.update(3, 2, 5, false);
        let now = values(&m);
        for (p, n) in previous.iter().zip(now.iter()) {
            assert!(*n < *p || (*p == 0 && *n == 0));
        }
        previous = now;
    }
    assert!(previous.iter().all(|&v| v == 0));
}

#[test]
fn values_stay_within_the_cap() {
    let mut m = grid(6, 4, 2, 3, 9, 20);
    let mut reached_cap = false;
    for step in 0..40u32 {
        m.update((step * 3) % 12, (step * 5) % 8, 1 + step % 3, step % 4 != 3);
        let now = values(&m);
        assert!(now.iter().all(|&v| v <= 20));
        reached_cap = reached_cap || now.iter().any(|&v| v == 20);
    }
    assert!(reached_cap);
}

#[test]
fn heat_scales_radius_and_intensity() {
    let mut m = grid(5, 1, 1, 1, 4, 1000);
    m.update(0, 0, 3, true);
    assert_eq!(values(&m), vec![12, 9, 6, 0, 0]);
}

#[test]
fn new_grid_is_cold_and_keeps_its_configuration() {
    let m = HeatMap::new(10, 20, 4, 3, 5, 2, 8, 255).unwrap();
    assert_eq!(m.width(), 4);
    assert_eq!(m.height(), 3);
    assert_eq!(m.cell_spacing(), 5);
    assert_eq!(m.origin(), (10, 20));
    assert_eq!(m.max_red_saturation(), 255);
    assert!(values(&m).iter().all(|&v| v == 0));
    assert!(m.active_cells().is_empty());
    assert_eq!(m.cell(4, 0), None);
    assert_eq!(m.cell(0, 3), None);
}

#[test]
fn new_refuses_an_empty_grid() {
    assert_eq!(HeatMap::new(0, 0, 0, 3, 1, 1, 1, 1).err(), Some(ConfigurationError::EmptyGrid));
    assert_eq!(HeatMap::new(0, 0, 3, 0, 1, 1, 1, 1).err(), Some(ConfigurationError::EmptyGrid));
}

#[test]
fn new_refuses_cells_beyond_the_coordinate_range() {
    assert_eq!(
        HeatMap::new(u32::MAX, 0, 2, 1, 1, 1, 1, 1).err(),
        Some(ConfigurationError::GridTooLarge)
    );
    assert_eq!(
        HeatMap::new(0, 10, 1, 3, u32::MAX / 2, 1, 1, 1).err(),
        Some(ConfigurationError::GridTooLarge)
    );
    assert!(HeatMap::new(u32::MAX, 0, 1, 1, 1, 1, 1, 1).is_ok());
}

#[test]
fn active_cells_in_row_major_order() {
    let mut m = HeatMap::new(0, 0, 3, 2, 10, 1, 9, 100).unwrap();
    m.update(10, 0, 1, true);
    m.update(20, 10, 2, true);
    let points = m.active_cells();
    let expected: Vec<HeatPoint> = values(&m)
        .iter()
        .enumerate()
        .filter(|(_, &v)| v > 0)
        .map(|(i, &v)| HeatPoint { column: (i % 3) as u32, row: (i / 3) as u32, value: v })
        .collect();
    assert_eq!(points, expected);
    assert_eq!(points[0], HeatPoint { column: 1, row: 0, value: 8 });
}

#[test]
fn cell_origin_and_fill_channels() {
    let m = HeatMap::new(10, 20, 4, 4, 4, 1, 1, 255).unwrap();
    assert_eq!(m.cell_origin(2, 3), (18, 32));
    assert_eq!(m.cell_origin(0, 0), (10, 20));
    assert_eq!(m.fill_channels(100), (100, 77, 155));
    assert_eq!(m.fill_channels(255), (255, 0, 0));
}

#[test]
fn update_takes_any_heat() {
    let mut m = HeatMap::new(0, 0, 3, 3, u32::MAX / 4, u32::MAX, u32::MAX, 100).unwrap();
    m.update(0, 0, u32::MAX, true);
    assert_eq!(m.cell(0, 0), Some(100));
    assert!(values(&m).iter().all(|&v| v > 0 && v <= 100));
    m.update(u32::MAX, u32::MAX, u32::MAX, false);
    assert_eq!(m.cell(0, 0), Some(99));
}

#[test]
fn larger_heat_never_gives_less() {
    let mut low = grid(5, 5, 1, 1, 3, 1000);
    let mut high = grid(5, 5, 1, 1, 3, 1000);
    low.update(2, 2, 2, true);
    high.update(2, 2, 5, true);
    for (l, h) in values(&low).iter().zip(values(&high).iter()) {
        assert!(l <= h);
    }
    assert_eq!(high.cell(2, 2), Some(15));
    assert_eq!(low.cell(2, 2), Some(6));
}

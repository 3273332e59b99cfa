use eink_frame::emulator::Inky;
use eink_frame::font::Resources;
use eink_frame::graphics::Graphics;
use eink_frame::weather::{
    axis_labels, first_later_day, first_period_of_next_day, frame_summary_cell, hour_label, icon_to_bitmap, start_time,
};
use eink_frame::Rect;

#[test]
fn icon_urls_map_to_bitmap_names() {
    assert_eq!(
        icon_to_bitmap("https://api.weather.gov/icons/land/day/rain_showers,30?size=medium"),
        "rain,rain_showers"
    );
    assert_eq!(
        icon_to_bitmap("https://api.weather.gov/icons/land/night/tsra_hi,40?size=small"),
        "tsra_hi"
    );
    assert_eq!(icon_to_bitmap("https://api.weather.gov/icons/land/day/few?size=medium"), "few");
    assert_eq!(
        icon_to_bitmap("https://api.weather.gov/icons/land/day/tropical_storm"),
        "hurricane,tropical_storm"
    );
}

#[test]
fn icon_with_two_conditions_uses_the_first() {
    assert_eq!(
        icon_to_bitmap("https://api.weather.gov/icons/land/day/sleet/snow,60?size=medium"),
        "snow_sleet,sleet"
    );
}

#[test]
fn every_alias_maps_to_its_group() {
    let groups = [
        ("wind_few", "wind_few,wind_sct"),
        ("wind_sct", "wind_few,wind_sct"),
        ("rain_snow", "rain_snow,rain_sleet"),
        ("rain_sleet", "rain_snow,rain_sleet"),
        ("fzra", "fzra,rain_fzra,snow_fzra"),
        ("rain_fzra", "fzra,rain_fzra,snow_fzra"),
        ("snow_fzra", "fzra,rain_fzra,snow_fzra"),
        ("snow_sleet", "snow_sleet,sleet"),
        ("sleet", "snow_sleet,sleet"),
        ("rain", "rain,rain_showers"),
        ("rain_showers", "rain,rain_showers"),
        ("tsra", "tsra,tsra_sct"),
        ("tsra_sct", "tsra,tsra_sct"),
        ("hurricane", "hurricane,tropical_storm"),
        ("tropical_storm", "hurricane,tropical_storm"),
        ("skc", "skc"),
    ];
    for (name, group) in groups {
        let url = format!("https://api.weather.gov/icons/land/day/{name}?size=medium");
        assert_eq!(icon_to_bitmap(&url), group);
    }
}

#[test]
fn hour_labels_every_six_hours() {
    assert_eq!(hour_label(0), "12a");
    assert_eq!(hour_label(6), "6a");
    assert_eq!(hour_label(12), "12p");
    assert_eq!(hour_label(18), "6p");
    for hour in [1, 5, 7, 11, 13, 17, 19, 23] {
        assert_eq!(hour_label(hour), "");
    }
}

#[test]
fn axis_labels_from_start_times() {
    let times = vec![
        "2024-01-01T00:00:00-05:00".to_string(),
        "2024-01-01T01:00:00-05:00".to_string(),
        "2024-01-01T06:00:00-05:00".to_string(),
        "2024-01-01T18:00:00-05:00".to_string(),
    ];
    assert_eq!(
        axis_labels(&times),
        Some(vec!["12a".to_string(), String::new(), "6a".to_string(), "6p".to_string()])
    );
}

#[test]
fn axis_labels_need_parsable_times() {
    let times = vec!["2024-01-01T00:00:00-05:00".to_string(), "noon".to_string()];
    assert_eq!(axis_labels(&times), None);
}

#[test]
fn next_day_starts_where_the_day_changes() {
    let times = vec![
        "2024-01-01T06:00:00-05:00".to_string(),
        "2024-01-01T18:00:00-05:00".to_string(),
        "2024-01-02T06:00:00-05:00".to_string(),
        "garbage".to_string(),
    ];
    assert_eq!(first_period_of_next_day(&times), Some(2));
}

#[test]
fn next_day_missing_or_unparsable() {
    let same_day = vec![
        "2024-01-01T06:00:00-05:00".to_string(),
        "2024-01-01T18:00:00-05:00".to_string(),
    ];
    assert_eq!(first_period_of_next_day(&same_day), None);
    let broken = vec!["2024-01-01T06:00:00-05:00".to_string(), "later".to_string()];
    assert_eq!(first_period_of_next_day(&broken), None);
    assert_eq!(first_period_of_next_day(&Vec::new()), None);
}

#[test]
fn summary_cells_get_borders_toward_earlier_cells() {
    let g = Graphics::new(Resources { fonts: Vec::new(), bitmaps: Vec::new() });
    let grid = Rect::new(590, 61, 209, 317).divide_grid::<2, 3>();
    let mut inky = Inky::new();
    let mut contents = Vec::new();
    for (j, cell) in grid.into_iter().flatten().enumerate() {
        contents.push(frame_summary_cell(&mut inky, &g, cell, j));
    }
    let pixel = |x: usize, y: usize| inky.as_bytes()[x + y * 800];
    // The first cell keeps everything.
    assert_eq!(contents[0], grid[0][0]);
    // The second loses its left column, which is drawn black.
    let second = grid[0][1];
    assert_eq!(contents[1], Rect::new(second.x + 1, second.y, second.width - 1, second.height));
    assert_eq!(pixel(second.x as usize, second.y as usize), 0);
    // The third loses its top row.
    let third = grid[1][0];
    assert_eq!(contents[2], Rect::new(third.x, third.y + 1, third.width, third.height - 1));
    assert_eq!(pixel(third.x as usize + 3, third.y as usize), 0);
    // The fourth loses both.
    let fourth = grid[1][1];
    assert_eq!(contents[3], Rect::new(fourth.x + 1, fourth.y + 1, fourth.width - 1, fourth.height - 1));
    // Inside a cell nothing is drawn.
    assert_eq!(pixel(grid[0][0].x as usize + 5, grid[0][0].y as usize + 5), 1);
}

#[test]
fn no_periods_give_no_labels() {
    assert_eq!(axis_labels(&Vec::new()), Some(Vec::new()));
}

#[test]
fn first_later_day_finds_the_first_change() {
    assert_eq!(first_later_day(&vec![5, 5, 7, 9]), Some(2));
    assert_eq!(first_later_day(&vec![5, 5, 5]), None);
    assert_eq!(first_later_day(&vec![]), None);
    assert_eq!(first_later_day(&vec![1, 2]), Some(1));
}

#[test]
fn start_time_gives_hour_and_day_start() {
    // 2024-01-01 began at 05:00 UTC at offset -05:00.
    assert_eq!(start_time("2024-01-01T00:00:00-05:00"), Some((0, Some(1_704_085_200_000_000_000))));
    assert_eq!(start_time("2024-01-01T18:30:00-05:00"), Some((18, Some(1_704_085_200_000_000_000))));
    assert_eq!(start_time("1970-01-01T07:00:00+00:00"), Some((7, Some(0))));
    // A leap day, at an offset east of UTC.
    assert_eq!(start_time("2024-02-29T13:00:00+01:30"), Some((13, Some(1_709_159_400_000_000_000))));
    assert_eq!(start_time("2024-02-30T13:00:00+01:30"), None);
    assert_eq!(start_time("tomorrow"), None);
}

#[test]
fn day_starts_compare_as_instants() {
    // Two different dates whose days began at the same instant.
    let times = vec!["2024-01-01T20:00:00-12:00".to_string(), "2024-01-02T05:00:00+12:00".to_string()];
    assert_eq!(first_period_of_next_day(&times), None);
    let times = vec!["2024-01-01T20:00:00-05:00".to_string(), "2024-01-01T21:00:00-04:00".to_string()];
    assert_eq!(first_period_of_next_day(&times), Some(1));
}

#[test]
fn axis_labels_follow_the_written_hour() {
    let times = vec!["2024-06-01T12:00:00+09:00".to_string(), "2024-06-01T13:00:00+09:00".to_string()];
    assert_eq!(axis_labels(&times), Some(vec!["12p".to_string(), String::new()]));
}

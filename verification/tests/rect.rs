use eink_frame::rect::Rect;

#[test]
fn new_sets_fields() {
    let r = Rect::new(1, 2, 3, 4);
    assert_eq!(r, Rect { x: 1, y: 2, width: 3, height: 4 });
}

#[test]
fn split_off_right_takes_right_strip() {
    let mut r = Rect::new(10, 20, 100, 50);
    let right = r.split_off_right(30);
    assert_eq!(r, Rect::new(10, 20, 70, 50));
    assert_eq!(right, Rect::new(80, 20, 30, 50));
}

#[test]
fn split_off_left_takes_left_strip() {
    let mut r = Rect::new(10, 20, 100, 50);
    let left = r.split_off_left(30);
    assert_eq!(left, Rect::new(10, 20, 30, 50));
    assert_eq!(r, Rect::new(40, 20, 70, 50));
}

#[test]
fn split_off_bottom_takes_bottom_strip() {
    let mut r = Rect::new(0, 0, 800, 480);
    let bottom = r.split_off_bottom(20);
    assert_eq!(r, Rect::new(0, 0, 800, 460));
    assert_eq!(bottom, Rect::new(0, 460, 800, 20));
}

#[test]
fn split_off_top_takes_top_strip() {
    let mut r = Rect::new(0, 0, 800, 480);
    let top = r.split_off_top(30);
    assert_eq!(top, Rect::new(0, 0, 800, 30));
    assert_eq!(r, Rect::new(0, 30, 800, 450));
}

#[test]
fn shrink_moves_edges_in() {
    let r = Rect::new(0, 0, 800, 30).shrink(5, 0, 5, 2);
    assert_eq!(r, Rect::new(5, 0, 790, 28));
}

#[test]
fn shrink_then_grow_is_identity() {
    let r = Rect::new(3, 4, 50, 60);
    assert_eq!(r.shrink(1, 2, 3, 4).shrink(-1, -2, -3, -4), r);
}

#[test]
fn divide_grid_tiles_rect() {
    let grid = Rect::new(0, 0, 210, 317).divide_grid::<2, 3>();
    assert_eq!(grid[0][0], Rect::new(0, 0, 105, 105));
    assert_eq!(grid[0][1], Rect::new(105, 0, 105, 105));
    assert_eq!(grid[1][0], Rect::new(0, 105, 105, 106));
    assert_eq!(grid[2][1], Rect::new(105, 211, 105, 106));
    for row in grid.iter() {
        assert_eq!(row[0].x, 0);
        assert_eq!(row[1].x + row[1].width, 210);
    }
    assert_eq!(grid[2][0].y + grid[2][0].height, 317);
}

#[test]
fn divide_grid_negative_width_truncates_toward_zero() {
    let grid = Rect::new(0, 0, -7, 3).divide_grid::<2, 1>();
    assert_eq!(grid[0][0], Rect::new(0, 0, -3, 3));
    assert_eq!(grid[0][1], Rect::new(-3, 0, -4, 3));
}

use geotree::common::TileResponse;
use geotree::raster::{copied, filled, flatten, slice};
use geotree::{Bounds, Dataset, Region, Tile};

struct Plain;

impl Dataset for Plain {
    type Type = u16;
    type AggregateType = u8;

    const TILE_SIZE: u32 = 4;
    const CHILDREN_PER_AXIS: usize = 2;
    const MAX_LEVEL: u32 = 3;

    fn aggregate(_values: &[u16]) -> Option<u8> {
        None
    }

    fn aggregate2(_values: &[u8]) -> Option<u8> {
        None
    }

    fn downsample(_data: &Tile<u16>) -> Tile<u16> {
        vec![vec![99; 4]; 4]
    }

    fn default() -> u16 {
        99
    }

    fn data(&self) -> Tile<u16> {
        Vec::new()
    }

    fn bounds(&self) -> Bounds {
        Bounds::new(0, 0, 1, 1)
    }
}

#[test]
fn new_puts_corners_in_order() {
    let b = Bounds::new(10, -5, -10, 5);
    assert_eq!((b.min_x, b.min_y, b.max_x, b.max_y), (-10, -5, 10, 5));
    assert!(b.is_wf());
    assert!(!Bounds { min_x: 1, min_y: 0, max_x: 0, max_y: 0 }.is_wf());
}

#[test]
fn rectangles_touch_at_shared_edges_and_corners() {
    let a = Bounds::new(0, 0, 10, 10);
    assert!(a.intersects(&Bounds::new(10, 10, 20, 20)));
    assert!(a.intersects(&Bounds::new(-5, 3, 0, 4)));
    assert!(a.intersects(&Bounds::new(2, 2, 3, 3)));
    assert!(a.intersects(&Bounds::new(-5, -5, 50, 50)));
    assert!(!a.intersects(&Bounds::new(11, 0, 20, 10)));
    assert!(!a.intersects(&Bounds::new(0, -20, 10, -1)));
}

#[test]
fn rectangle_contains_what_lies_within_its_edges() {
    let a = Bounds::new(0, 0, 10, 10);
    assert!(a.contains(&a));
    assert!(a.contains(&Bounds::new(0, 0, 5, 10)));
    assert!(a.contains(&Bounds::new(3, 3, 3, 3)));
    assert!(!a.contains(&Bounds::new(0, 0, 11, 10)));
    assert!(!a.contains(&Bounds::new(-1, 2, 3, 4)));
    assert!(!Bounds::new(3, 3, 4, 4).contains(&a));
}

#[test]
fn malformed_rectangle_neither_touches_nor_covers() {
    let bad = Bounds { min_x: 5, min_y: 0, max_x: 0, max_y: 10 };
    let good = Bounds::new(0, 0, 10, 10);
    assert!(!bad.intersects(&good));
    assert!(!bad.contains(&good));
    assert!(!good.intersects(&bad));
    assert!(!good.contains(&bad));
}

#[test]
fn children_tile_their_parent_from_north_west() {
    let parent = Bounds::new(-1800, -900, 1800, 900);
    assert_eq!(parent.child(0, 0, 2), Bounds::new(-1800, 0, 0, 900));
    assert_eq!(parent.child(0, 1, 2), Bounds::new(0, 0, 1800, 900));
    assert_eq!(parent.child(1, 0, 2), Bounds::new(-1800, -900, 0, 0));
    assert_eq!(parent.child(1, 1, 2), Bounds::new(0, -900, 1800, 0));
}

#[test]
fn uneven_extents_are_cut_without_gaps() {
    let parent = Bounds::new(0, 0, 10, 7);
    let cells: Vec<Bounds> = (0..3).map(|j| parent.child(0, j, 3)).collect();
    assert_eq!((cells[0].min_x, cells[0].max_x), (0, 3));
    assert_eq!((cells[1].min_x, cells[1].max_x), (3, 6));
    assert_eq!((cells[2].min_x, cells[2].max_x), (6, 10));
    let rows: Vec<Bounds> = (0..3).map(|i| parent.child(i, 0, 3)).collect();
    assert_eq!((rows[0].min_y, rows[0].max_y), (5, 7));
    assert_eq!((rows[1].min_y, rows[1].max_y), (3, 5));
    assert_eq!((rows[2].min_y, rows[2].max_y), (0, 3));
}

#[test]
fn extreme_coordinates_are_cut_without_overflow() {
    let parent = Bounds::new(i32::MIN, i32::MIN, i32::MAX, i32::MAX);
    assert_eq!(parent.child(0, 0, 2), Bounds::new(i32::MIN, 0, -1, i32::MAX));
    assert_eq!(parent.child(1, 1, 2), Bounds::new(-1, i32::MIN, i32::MAX, 0));
}

fn numbered(rows: u16, cols: u16) -> Tile<u16> {
    (0..rows).map(|r| (0..cols).map(|c| r * cols + c).collect()).collect()
}

#[test]
fn slice_cuts_a_window() {
    let data = numbered(4, 4);
    assert_eq!(slice::<Plain>(&data, 1, 2, 2, 2), vec![vec![9, 10], vec![13, 14]]);
    assert_eq!(slice::<Plain>(&data, 0, 0, 4, 1), vec![vec![0, 1, 2, 3]]);
    assert_eq!(slice::<Plain>(&data, 0, 0, 0, 2), vec![Vec::<u16>::new(), Vec::new()]);
    assert_eq!(slice::<Plain>(&data, 0, 0, 2, 0), Vec::<Vec<u16>>::new());
}

#[test]
fn slice_repeats_the_last_pixel_and_the_last_row() {
    let data = numbered(2, 3);
    assert_eq!(
        slice::<Plain>(&data, 2, 1, 3, 3),
        vec![vec![5, 5, 5], vec![5, 5, 5], vec![5, 5, 5]]
    );
    assert_eq!(slice::<Plain>(&data, 1, 0, 3, 1), vec![vec![1, 2, 2]]);
    assert_eq!(slice::<Plain>(&data, 7, 0, 2, 1), vec![vec![2, 2]]);
}

#[test]
fn slice_fills_with_the_default_where_nothing_is_there() {
    let data = numbered(2, 3);
    assert_eq!(slice::<Plain>(&data, 0, 2, 2, 2), vec![vec![99, 99], vec![99, 99]]);
    let hollow: Tile<u16> = vec![vec![], vec![]];
    assert_eq!(slice::<Plain>(&hollow, 0, 0, 2, 3), vec![vec![99, 99]; 3]);
    let nothing: Tile<u16> = Vec::new();
    assert_eq!(slice::<Plain>(&nothing, 0, 0, 1, 1), vec![vec![99]]);
}

#[test]
fn slice_survives_offsets_near_the_largest_number() {
    let data = numbered(2, 2);
    assert_eq!(slice::<Plain>(&data, usize::MAX, usize::MAX, 1, 1), vec![vec![99]]);
    assert_eq!(slice::<Plain>(&data, usize::MAX, 0, 1, 1), vec![vec![1]]);
}

#[test]
fn flatten_stitches_tiles_row_by_row() {
    let a: Tile<u16> = vec![vec![0, 1], vec![4, 5]];
    let b: Tile<u16> = vec![vec![2, 3], vec![6, 7]];
    let c: Tile<u16> = vec![vec![8, 9], vec![12, 13]];
    let d: Tile<u16> = vec![vec![10, 11], vec![14, 15]];
    assert_eq!(flatten(&vec![vec![&a, &b], vec![&c, &d]]), numbered(4, 4));
}

#[test]
fn flatten_keeps_the_height_of_each_row_of_tiles() {
    let a: Tile<u16> = vec![vec![0, 1], vec![5, 6]];
    let b: Tile<u16> = vec![vec![2, 3, 4], vec![7, 8, 9]];
    let c: Tile<u16> = vec![vec![10, 11], vec![15, 16], vec![20, 21]];
    let d: Tile<u16> = vec![vec![12, 13, 14], vec![17, 18, 19], vec![22, 23, 24]];
    let whole = flatten(&vec![vec![&a, &b], vec![&c, &d]]);
    assert_eq!(whole.len(), 5);
    assert_eq!(whole, numbered(5, 5));
    assert_eq!(whole[4], vec![20, 21, 22, 23, 24]);
}

#[test]
fn flatten_goes_by_the_first_tile_of_each_row() {
    let small: Tile<u16> = vec![vec![1]];
    let tall: Tile<u16> = vec![vec![2], vec![3]];
    let wide: Tile<u16> = vec![vec![4, 5]];
    assert_eq!(flatten(&vec![vec![&small, &tall], vec![&wide]]), vec![vec![1, 2], vec![4, 5]]);
    assert_eq!(flatten(&vec![vec![&tall, &small]]), vec![vec![2, 1], vec![3]]);
    // every tile of a row is laid, however many tiles the row above has
    assert_eq!(
        flatten(&vec![vec![&small], vec![&tall, &wide]]),
        vec![vec![1], vec![2, 4, 5], vec![3]]
    );
    let none: Vec<Vec<&Tile<u16>>> = Vec::new();
    assert_eq!(flatten(&none), Vec::<Vec<u16>>::new());
    let hollow: Vec<Vec<&Tile<u16>>> = vec![vec![], vec![&small]];
    assert_eq!(flatten(&hollow), vec![vec![1]]);
}

#[test]
fn rows_are_filled_and_copied() {
    assert_eq!(filled(3u8, 4), vec![3, 3, 3, 3]);
    assert_eq!(filled(3u8, 0), Vec::<u8>::new());
    assert_eq!(copied(&vec![1u32, 2, 3]), vec![1, 2, 3]);
}

#[test]
fn tile_is_cut_or_filled_to_the_size_asked_for() {
    let tile =
        TileResponse { data: vec![vec![1u8, 2, 3], vec![4]], bounds: Bounds::new(0, 0, 1, 1) };
    assert_eq!(tile.get_padded_tile(2, 3, 0), vec![vec![1, 2], vec![4, 0], vec![0, 0]]);
    assert_eq!(tile.get_padded_tile(4, 1, 9), vec![vec![1, 2, 3, 9]]);
    assert_eq!(tile.get_padded_tile(0, 2, 9), vec![Vec::<u8>::new(), Vec::new()]);
    assert_eq!(tile.get_padded_tile(2, 0, 9), Vec::<Vec<u8>>::new());
}

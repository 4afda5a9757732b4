use geotree::deserialize::iterators::{ContainsIterator, NaiveIterator};
use geotree::deserialize::reader::Reader;
use geotree::deserialize::tree::{GeoTree as FileTree, Pointer, TileData, TileNode as Header};
use geotree::serialize::{AlignedWriter, Discard, Serialize};
use geotree::{Bounds, Dataset, GeoTree, Region, Tile, TileNode, TileRef};

/// Integer pixels, summed for the aggregate and averaged to shrink.
struct Counts {
    data: Vec<Vec<u32>>,
}

impl Dataset for Counts {
    type Type = u32;
    type AggregateType = u64;

    const TILE_SIZE: u32 = 2;
    const CHILDREN_PER_AXIS: usize = 2;
    const MAX_LEVEL: u32 = 2;

    fn aggregate(values: &[u32]) -> Option<u64> {
        Some(values.iter().map(|v| *v as u64).sum())
    }

    fn aggregate2(values: &[u64]) -> Option<u64> {
        Some(values.iter().sum())
    }

    fn downsample(data: &Tile<u32>) -> Tile<u32> {
        let size = Self::TILE_SIZE as usize;
        let mut out = vec![vec![0u32; size]; size];
        for y in 0..size {
            for x in 0..size {
                let y0 = y * data.len() / size;
                if let Some(row) = data.get(y0) {
                    if let Some(pixel) = row.get(x * row.len() / size) {
                        out[y][x] = *pixel;
                    }
                }
            }
        }
        out
    }

    fn default() -> u32 {
        0
    }

    fn data(&self) -> Tile<u32> {
        self.data.clone()
    }

    fn bounds(&self) -> Bounds {
        full()
    }
}

fn full() -> Bounds {
    Bounds::new(-1800, -900, 1800, 900)
}

fn numbered(rows: u32, cols: u32) -> Counts {
    Counts { data: (0..rows).map(|r| (0..cols).map(|c| r * cols + c).collect()).collect() }
}

fn file_of(source: &Counts) -> Vec<u8> {
    GeoTree::build(source).to_bytes().unwrap()
}

#[test]
fn small_raster_becomes_a_single_leaf() {
    let tree = GeoTree::build(&numbered(2, 2));
    assert!(tree.root.children.is_empty());
    assert_eq!(tree.root.data, Some(vec![vec![0, 1], vec![2, 3]]));
    assert_eq!(tree.root.aggregate, Some(6));
    assert_eq!(tree.root.bounds, full());
}

#[test]
fn raster_is_cut_into_quadrants() {
    let tree = GeoTree::build(&numbered(4, 4));
    let kids = &tree.root.children;
    assert_eq!(kids.len(), 2);
    assert_eq!(kids[0].len(), 2);
    assert_eq!(kids[0][0].data, Some(vec![vec![0, 1], vec![4, 5]]));
    assert_eq!(kids[0][1].data, Some(vec![vec![2, 3], vec![6, 7]]));
    assert_eq!(kids[1][0].data, Some(vec![vec![8, 9], vec![12, 13]]));
    assert_eq!(kids[1][1].data, Some(vec![vec![10, 11], vec![14, 15]]));
    assert_eq!(kids[0][0].bounds, Bounds::new(-1800, 0, 0, 900));
    assert_eq!(kids[1][1].bounds, Bounds::new(0, -900, 1800, 0));
    for row in kids {
        for kid in row {
            assert!(kid.children.is_empty());
        }
    }
}

#[test]
fn parents_are_filled_from_their_children() {
    let tree = GeoTree::build(&numbered(4, 4));
    let kids = &tree.root.children;
    assert_eq!(kids[0][0].aggregate, Some(10));
    assert_eq!(kids[0][1].aggregate, Some(18));
    assert_eq!(kids[1][0].aggregate, Some(42));
    assert_eq!(kids[1][1].aggregate, Some(50));
    assert_eq!(tree.root.aggregate, Some(120));
    assert_eq!(tree.root.data, Some(vec![vec![0, 2], vec![8, 10]]));
}

#[test]
fn last_row_and_column_take_the_remainder() {
    let tree = GeoTree::build(&numbered(5, 5));
    let kids = &tree.root.children;
    assert_eq!(kids[0][0].data, Some(vec![vec![0, 1], vec![5, 6]]));
    assert!(kids[0][0].children.is_empty());
    // three columns are too wide for a leaf: cut again into one and two
    let east = &kids[0][1];
    assert_eq!(east.children.len(), 2);
    assert_eq!(east.children[0][0].data, Some(vec![vec![2]]));
    assert_eq!(east.children[0][1].data, Some(vec![vec![3, 4]]));
    assert_eq!(east.children[1][0].data, Some(vec![vec![7]]));
    assert_eq!(east.children[1][1].data, Some(vec![vec![8, 9]]));
    let south_east = &kids[1][1];
    assert_eq!(south_east.children[1][1].data, Some(vec![vec![18, 19], vec![23, 24]]));
    assert_eq!(tree.root.aggregate, Some((0..25u64).sum()));
}

#[test]
fn flat_raster_gets_empty_leaves_where_a_quadrant_has_no_rows() {
    let tree = GeoTree::build(&numbered(1, 4));
    let kids = &tree.root.children;
    assert_eq!(kids[0][0].data, Some(Vec::<Vec<u32>>::new()));
    assert_eq!(kids[0][0].aggregate, Some(0));
    assert_eq!(kids[1][0].data, Some(vec![vec![0, 1]]));
    assert_eq!(kids[1][1].data, Some(vec![vec![2, 3]]));
    assert_eq!(tree.root.aggregate, Some(6));
}

#[test]
fn tiles_of_a_level_are_listed_from_north_west() {
    let tree = GeoTree::build(&numbered(4, 4));
    let tiles = tree.get_tiles(full(), 1);
    let firsts: Vec<u32> = tiles.iter().map(|t| t.data.unwrap()[0][0]).collect();
    assert_eq!(firsts, vec![0, 2, 8, 10]);
    assert_eq!(*tiles[3].bounds, Bounds::new(0, -900, 1800, 0));
    assert_eq!(tiles[0].aggregate, Some(&10));
    let root = tree.get_tiles(full(), 0);
    assert_eq!(root.len(), 1);
    assert_eq!(root[0].aggregate, Some(&120));
}

#[test]
fn tiles_outside_the_area_are_left_out() {
    let tree = GeoTree::build(&numbered(4, 4));
    let west = Bounds::new(-1800, -900, -1, 900);
    let firsts: Vec<u32> = tree.get_tiles(west, 1).iter().map(|t| t.data.unwrap()[0][0]).collect();
    assert_eq!(firsts, vec![0, 8]);
    let corner = Bounds::new(1, 1, 5, 5);
    let firsts: Vec<u32> =
        tree.get_tiles(corner, 1).iter().map(|t| t.data.unwrap()[0][0]).collect();
    assert_eq!(firsts, vec![2]);
    let away = Bounds::new(1801, 0, 1900, 10);
    assert!(tree.get_tiles(away, 0).is_empty());
    assert!(tree.get_tiles(away, 1).is_empty());
    assert!(tree.get_tiles(full(), 2).is_empty());
}

#[test]
fn tile_reference_points_at_the_node() {
    let tree = GeoTree::build(&numbered(2, 2));
    let tile = TileRef::from(&tree.root);
    assert_eq!(*tile.bounds, full());
    assert_eq!(tile.data, Some(&vec![vec![0, 1], vec![2, 3]]));
    assert_eq!(tile.aggregate, Some(&6));
}

#[test]
fn file_begins_with_the_root() {
    let bytes = file_of(&numbered(2, 2));
    assert_eq!(
        bytes,
        vec![
            0xf8, 0xf8, 0xff, 0xff, 0x7c, 0xfc, 0xff, 0xff, // minimum corner
            0x08, 0x07, 0, 0, 0x84, 0x03, 0, 0, // maximum corner
            0, 0, 0, 0, 0, 0, 0, 0, // no rows of children
            1, 0, 0, 0, 0, 0, 0, 0, 6, 0, 0, 0, 0, 0, 0, 0, // aggregate
            1, 0, 0, 0, 0, 0, 0, 0, 2, 0, 0, 0, 0, 0, 0, 0, // tile of two rows
            2, 0, 0, 0, 0, 0, 0, 0, 0, 0, 0, 0, 1, 0, 0, 0, // first row
            2, 0, 0, 0, 0, 0, 0, 0, 2, 0, 0, 0, 3, 0, 0, 0, // second row
        ]
    );
}

#[test]
fn children_follow_the_root_in_breadth_first_order() {
    let tree = GeoTree::build(&numbered(5, 5));
    let bytes = tree.to_bytes().unwrap();
    let mut reader = Reader::new(&bytes);
    let root = reader.load(&Pointer::<u32>::new(0)).unwrap();
    let offsets: Vec<usize> = root.children.iter().flatten().map(|p| p.position).collect();
    assert_eq!(offsets.len(), 4);
    assert!(offsets.windows(2).all(|w| w[0] < w[1]));
    // the grandchildren lie behind all children
    let east = reader.load(&root.children[0][1]).unwrap();
    assert!(east.children[0][0].position > *offsets.last().unwrap());
    // a count of the root gives the offset of the first child
    let mut counting = AlignedWriter::new(Discard);
    let placeholders: Vec<Vec<u64>> = vec![vec![0, 0], vec![0, 0]];
    tree.root.bounds.serialize(&mut counting).unwrap();
    placeholders.serialize(&mut counting).unwrap();
    tree.root.aggregate.serialize(&mut counting).unwrap();
    tree.root.data.serialize(&mut counting).unwrap();
    assert_eq!(offsets[0], counting.position());
}

fn same_below(bytes: &[u8], pointer: &Pointer<u32>, node: &TileNode<u32, u64>) {
    let mut reader = Reader::new(bytes);
    let header: Header<u32> = reader.load(pointer).unwrap();
    let payload: TileData<u32, u64> = reader.read().unwrap();
    assert_eq!(header.bounds, node.bounds);
    assert_eq!(payload.aggregate, node.aggregate);
    assert_eq!(payload.tile, node.data);
    assert_eq!(header.children.len(), node.children.len());
    for (pointers, nodes) in header.children.iter().zip(&node.children) {
        assert_eq!(pointers.len(), nodes.len());
        for (pointer, child) in pointers.iter().zip(nodes) {
            same_below(bytes, pointer, child);
        }
    }
}

#[test]
fn every_node_is_read_back_as_built() {
    for (rows, cols) in [(1, 1), (2, 2), (4, 4), (5, 5), (3, 9), (1, 7), (8, 8)] {
        let tree = GeoTree::build(&numbered(rows, cols));
        let bytes = tree.to_bytes().unwrap();
        same_below(&bytes, &Pointer::default(), &tree.root);
    }
}

#[test]
fn file_and_tree_list_the_same_tiles() {
    let tree = GeoTree::build(&numbered(5, 5));
    let bytes = tree.to_bytes().unwrap();
    let file = FileTree::<Counts>::new(&bytes);
    for area in [full(), Bounds::new(-1800, -900, -1, 900), Bounds::new(5, 5, 6, 6)] {
        for level in 0..4 {
            let from_tree = tree.get_tiles(area, level);
            let from_file = file.get_tiles(area, level);
            assert_eq!(from_tree.len(), from_file.len());
            for (a, b) in from_tree.iter().zip(&from_file) {
                assert_eq!(*a.bounds, b.bounds);
                assert_eq!(a.data, Some(&b.data));
            }
        }
    }
}

#[test]
fn deeper_levels_hold_at_least_as_many_tiles() {
    let bytes = file_of(&numbered(8, 8));
    let file = FileTree::<Counts>::new(&bytes);
    let counts: Vec<usize> = (0..3).map(|level| file.get_tiles(full(), level).len()).collect();
    assert_eq!(counts, vec![1, 4, 16]);
    let area = Bounds::new(-1800, 1, -1, 900);
    let counts: Vec<usize> = (0..3).map(|level| file.get_tiles(area, level).len()).collect();
    assert_eq!(counts, vec![1, 1, 4]);
}

#[test]
fn address_bits_name_row_and_column() {
    let bytes = file_of(&numbered(4, 4));
    let file = FileTree::<Counts>::new(&bytes);
    assert_eq!(file.get_tile(0, 0, 1).unwrap().data, vec![vec![0, 1], vec![4, 5]]);
    assert_eq!(file.get_tile(1, 0, 1).unwrap().data, vec![vec![2, 3], vec![6, 7]]);
    assert_eq!(file.get_tile(0, 1, 1).unwrap().data, vec![vec![8, 9], vec![12, 13]]);
    assert_eq!(file.get_tile(1, 1, 1).unwrap().data, vec![vec![10, 11], vec![14, 15]]);
    assert_eq!(file.get_tile(1, 1, 1).unwrap().bounds, Bounds::new(0, -900, 1800, 0));
    let root = file.get_tile(0, 0, 0).unwrap();
    assert_eq!(root.data, vec![vec![0, 2], vec![8, 10]]);
    assert_eq!(root.bounds, full());
}

#[test]
fn higher_bits_are_taken_first() {
    let bytes = file_of(&numbered(8, 8));
    let file = FileTree::<Counts>::new(&bytes);
    // x = 2 = 0b10: east at the first level, west at the second
    // y = 1 = 0b01: north at the first level, south at the second
    assert_eq!(file.get_tile(2, 1, 2).unwrap().data, vec![vec![20, 21], vec![28, 29]]);
    assert_eq!(file.get_tile(3, 3, 2).unwrap().data, vec![vec![54, 55], vec![62, 63]]);
    let mut seen = Vec::new();
    for y in 0..4 {
        for x in 0..4 {
            seen.push(file.get_tile(x, y, 2).unwrap().bounds);
        }
    }
    for (i, a) in seen.iter().enumerate() {
        for b in &seen[..i] {
            assert_ne!(a, b);
        }
    }
}

#[test]
fn addresses_out_of_range_are_not_found() {
    let bytes = file_of(&numbered(4, 4));
    let file = FileTree::<Counts>::new(&bytes);
    assert!(file.get_tile(1, 0, 0).is_none());
    assert!(file.get_tile(0, 1, 0).is_none());
    assert!(file.get_tile(2, 0, 1).is_none());
    assert!(file.get_tile(0, 2, 1).is_none());
    assert!(file.get_tile(usize::MAX, 0, 1).is_none());
    assert!(file.get_tile(0, usize::MAX, 70).is_none());
}

#[test]
fn addresses_below_the_leaves_are_not_found() {
    let bytes = file_of(&numbered(4, 4));
    let file = FileTree::<Counts>::new(&bytes);
    assert!(file.get_tile(0, 0, 2).is_none());
    assert!(file.get_tile(3, 3, 2).is_none());
    assert!(file.get_tile(0, 0, 64).is_none());
    assert!(file.get_tile(0, 0, 200).is_none());
}

#[test]
fn covered_nodes_are_yielded_where_they_are_met() {
    let bytes = file_of(&numbered(8, 8));
    let mut walk = ContainsIterator::<u32, u64, Bounds>::new(Reader::new(&bytes), full());
    assert_eq!(walk.budget, bytes.len());
    assert_eq!(walk.next().unwrap().aggregate, Some((0..64u64).sum()));
    // the root: a header of 72 bytes, an aggregate of 16 and a tile of 48
    assert_eq!(walk.reader.position, 136);
    assert_eq!(walk.budget, bytes.len() - 1);
    assert!(walk.queue.is_empty());
    assert!(walk.next().is_none());
    assert_eq!(walk.nodes_visited, 1);

    // the west half covers two children of the root, the south one met first
    let west = Bounds::new(-1800, -900, 0, 900);
    let mut walk = ContainsIterator::<u32, u64, Bounds>::new(Reader::new(&bytes), west);
    let south: u64 = (4..8).flat_map(|r| (0..4).map(move |c| r * 8 + c)).sum();
    let north: u64 = (0..4).flat_map(|r| (0..4).map(move |c| r * 8 + c)).sum();
    let first = walk.next().unwrap();
    assert_eq!(first.aggregate, Some(south));
    assert_eq!(first.tile, Some(vec![vec![32, 34], vec![48, 50]]));
    assert_eq!(walk.next().unwrap().aggregate, Some(north));
    assert!(walk.next().is_none());
    assert_eq!(walk.nodes_visited, 2);
}

#[test]
fn naive_walk_yields_only_leaves() {
    let bytes = file_of(&numbered(8, 8));
    let mut walk = NaiveIterator::<u32, u64, Bounds>::new(Reader::new(&bytes), full());
    let mut sum = 0;
    let mut first = None;
    while let Some(data) = walk.next() {
        assert_eq!(data.tile.as_ref().unwrap().len(), 2);
        first.get_or_insert(data.tile.unwrap());
        sum += data.aggregate.unwrap();
    }
    assert_eq!(walk.nodes_visited, 16);
    assert_eq!(sum, (0..64u64).sum());
    assert_eq!(first, Some(vec![vec![54, 55], vec![62, 63]]));
}

fn naive_sum(bytes: &[u8], query: Bounds) -> Option<u64> {
    let mut walk = NaiveIterator::<u32, u64, Bounds>::new(Reader::new(bytes), query);
    let mut sum = None;
    while let Some(data) = walk.next() {
        sum = Some(sum.unwrap_or(0) + data.aggregate.unwrap());
    }
    sum
}

#[test]
fn pruning_does_not_change_the_aggregate() {
    let bytes = file_of(&numbered(8, 8));
    let file = FileTree::<Counts>::new(&bytes);
    let queries = [
        full(),
        Bounds::new(-1800, -900, 0, 900),
        Bounds::new(-900, -450, 900, 450),
        Bounds::new(-1800, 0, 900, 900),
        Bounds::new(-10, -10, 10, 10),
        Bounds::new(2000, 0, 2100, 10),
        Bounds::new(-1800, 450, -900, 900),
    ];
    for query in queries {
        assert_eq!(file.get_aggregate(query), naive_sum(&bytes, query));
    }
}

#[test]
fn aggregate_is_taken_over_covered_nodes_only() {
    let bytes = file_of(&numbered(4, 4));
    let file = FileTree::<Counts>::new(&bytes);
    assert_eq!(file.get_aggregate(full()), Some(120));
    assert_eq!(file.get_aggregate(Bounds::new(-1800, -900, 0, 900)), Some(52));
    assert_eq!(file.get_aggregate(Bounds::new(-1800, 0, 1800, 900)), Some(28));
    assert_eq!(file.get_aggregate(Bounds::new(0, 0, 1800, 900)), Some(18));
    assert_eq!(file.get_aggregate(Bounds::new(-3000, -3000, 3000, 3000)), Some(120));
    // touches every leaf and covers none
    assert_eq!(file.get_aggregate(Bounds::new(-1, -1, 1, 1)), None);
    assert_eq!(file.get_aggregate(Bounds::new(1801, 0, 1900, 1)), None);
    assert_eq!(file.get_aggregate(Bounds { min_x: 1, min_y: 0, max_x: 0, max_y: 1 }), None);
}

#[test]
fn aggregates_of_two_halves_add_up() {
    let bytes = file_of(&numbered(8, 8));
    let file = FileTree::<Counts>::new(&bytes);
    let whole = file.get_aggregate(full()).unwrap();
    let west = file.get_aggregate(Bounds::new(-1800, -900, 0, 900)).unwrap();
    let east = file.get_aggregate(Bounds::new(0, -900, 1800, 900)).unwrap();
    assert_eq!(Counts::aggregate2(&[west, east]), Some(whole));
    let north = file.get_aggregate(Bounds::new(-1800, 0, 0, 900)).unwrap();
    let south = file.get_aggregate(Bounds::new(-1800, -900, 0, 0)).unwrap();
    assert_eq!(Counts::aggregate2(&[north, south]), Some(west));
}

/// A region other than a rectangle: everything west of a meridian.
struct WestOf(i32);

impl Region for WestOf {
    fn contains(&self, bounds: &Bounds) -> bool {
        bounds.max_x <= self.0
    }

    fn intersects(&self, bounds: &Bounds) -> bool {
        bounds.min_x <= self.0
    }
}

#[test]
fn any_region_can_be_queried() {
    let bytes = file_of(&numbered(4, 4));
    let file = FileTree::<Counts>::new(&bytes);
    assert_eq!(file.get_aggregate(WestOf(0)), Some(52));
    assert_eq!(file.get_aggregate(WestOf(5000)), Some(120));
    assert_eq!(file.get_aggregate(WestOf(-1)), None);
    assert_eq!(file.get_aggregate(WestOf(-5000)), None);
}

#[test]
fn damaged_files_give_nothing() {
    let bytes = file_of(&numbered(4, 4));
    for len in [0, 1, 15, 16, 40, 135] {
        let file = FileTree::<Counts>::new(&bytes[..len]);
        assert!(file.get_tile(0, 0, 0).is_none());
        assert!(file.get_tiles(full(), 0).is_empty());
        assert_eq!(file.get_aggregate(full()), None);
    }
    assert_eq!(bytes.len(), 488);
    let file = FileTree::<Counts>::new(&bytes[..136]);
    assert!(file.get_tile(0, 0, 0).is_some());
    assert!(file.get_tile(0, 0, 1).is_none());
    let file = FileTree::<Counts>::new(&bytes[..bytes.len() - 1]);
    assert!(file.get_tile(0, 0, 0).is_some());
    assert!(file.get_tile(1, 1, 1).is_none());
    assert_eq!(file.get_tiles(full(), 1).len(), 3);
}

#[test]
fn offsets_that_lead_in_a_circle_end_the_walk() {
    // a root whose four children are the root itself
    let mut writer = AlignedWriter::new(Vec::new());
    full().serialize(&mut writer).unwrap();
    vec![vec![0u64, 0], vec![0u64, 0]].serialize(&mut writer).unwrap();
    Some(1u64).serialize(&mut writer).unwrap();
    Some(vec![vec![1u32]]).serialize(&mut writer).unwrap();
    let bytes = writer.into_inner();
    let file = FileTree::<Counts>::new(&bytes);
    assert_eq!(file.get_tile(5, 9, 30).unwrap().data, vec![vec![1]]);
    assert_eq!(file.get_tiles(full(), 3).len(), 64);
    let mut walk = NaiveIterator::<u32, u64, Bounds>::new(Reader::new(&bytes), full());
    assert!(walk.next().is_none());
    assert_eq!(walk.nodes_visited, 0);
    assert_eq!(walk.budget, 0);
    let half = Bounds::new(-1800, -900, 0, 900);
    assert_eq!(file.get_aggregate(half), None);
}

#[test]
fn reader_keeps_its_place_when_nothing_is_read() {
    let bytes = file_of(&numbered(2, 2));
    let mut reader = Reader::new(&bytes);
    assert!(reader.load(&Pointer::<u32>::new(bytes.len())).is_none());
    assert_eq!(reader.position, 0);
    let header = reader.load(&Pointer::<u32>::default()).unwrap();
    assert_eq!(header.bounds, full());
    assert_eq!(reader.position, 24);
    let payload: TileData<u32, u64> = reader.read().unwrap();
    assert_eq!(payload.aggregate, Some(6));
    assert_eq!(reader.position, bytes.len());
    assert!(reader.read::<u8>().is_none());
    assert_eq!(reader.position, bytes.len());
}

/// A source whose shrunk tile tells what it was made from: the height and
/// width of the raster handed in, its last pixel and the sum of all.
struct Probe {
    data: Vec<Vec<u32>>,
}

impl Dataset for Probe {
    type Type = u32;
    type AggregateType = u64;

    const TILE_SIZE: u32 = 3;
    const CHILDREN_PER_AXIS: usize = 2;
    const MAX_LEVEL: u32 = 1;

    fn aggregate(values: &[u32]) -> Option<u64> {
        Some(values.iter().map(|v| *v as u64).sum())
    }

    fn aggregate2(values: &[u64]) -> Option<u64> {
        Some(values.iter().sum())
    }

    fn downsample(data: &Tile<u32>) -> Tile<u32> {
        let mut out = vec![vec![0u32; 3]; 3];
        out[0][0] = data.len() as u32;
        out[0][1] = data.iter().map(|row| row.len()).max().unwrap_or(0) as u32;
        out[0][2] = data.iter().map(|row| row.len()).min().unwrap_or(0) as u32;
        out[1][0] = data.last().and_then(|row| row.last()).copied().unwrap_or(0);
        out[1][1] = data.iter().flatten().sum();
        out[2][0] = data.first().and_then(|row| row.first()).copied().unwrap_or(0);
        out
    }

    fn default() -> u32 {
        0
    }

    fn data(&self) -> Tile<u32> {
        self.data.clone()
    }

    fn bounds(&self) -> Bounds {
        full()
    }
}

#[test]
fn parent_tile_is_made_from_all_rows_of_its_children() {
    let source = Probe { data: numbered(5, 5).data };
    let tree = GeoTree::build(&source);
    let kids = &tree.root.children;
    assert_eq!(kids[0][0].data, Some(vec![vec![0, 1], vec![5, 6]]));
    assert_eq!(kids[1][1].data, Some(vec![vec![12, 13, 14], vec![17, 18, 19], vec![22, 23, 24]]));
    assert!(kids.iter().flatten().all(|kid| kid.children.is_empty()));
    // the children stitched together are the whole raster again
    assert_eq!(tree.root.data, Some(vec![vec![5, 5, 5], vec![24, 300, 0], vec![0, 0, 0]]));
    assert_eq!(tree.root.aggregate, Some(300));
}

#[test]
fn pruned_walk_loads_and_yields_no_more_than_the_naive_walk() {
    let bytes = file_of(&numbered(8, 8));
    let queries = [
        full(),
        Bounds::new(-1800, -900, 0, 900),
        Bounds::new(-900, -450, 900, 450),
        Bounds::new(-10, -10, 10, 10),
        Bounds::new(2000, 0, 2100, 10),
    ];
    for query in queries {
        let mut pruned = ContainsIterator::<u32, u64, Bounds>::new(Reader::new(&bytes), query);
        while pruned.next().is_some() {}
        let mut naive = NaiveIterator::<u32, u64, Bounds>::new(Reader::new(&bytes), query);
        while naive.next().is_some() {}
        assert!(pruned.nodes_visited <= naive.nodes_visited);
        assert!(pruned.budget >= naive.budget);
    }
    // the whole region: one node loaded and yielded against all 21 loaded, 16 yielded
    let mut pruned = ContainsIterator::<u32, u64, Bounds>::new(Reader::new(&bytes), full());
    while pruned.next().is_some() {}
    let mut naive = NaiveIterator::<u32, u64, Bounds>::new(Reader::new(&bytes), full());
    while naive.next().is_some() {}
    assert_eq!((bytes.len() - pruned.budget, pruned.nodes_visited), (1, 1));
    assert_eq!((bytes.len() - naive.budget, naive.nodes_visited), (21, 16));
}

#[test]
fn every_touched_node_of_a_level_is_listed_once() {
    let tree = GeoTree::build(&numbered(8, 8));
    let bytes = tree.to_bytes().unwrap();
    let file = FileTree::<Counts>::new(&bytes);
    let listed: Vec<Bounds> = file.get_tiles(full(), 2).iter().map(|tile| tile.bounds).collect();
    assert_eq!(listed.len(), 16);
    for (i, a) in listed.iter().enumerate() {
        for b in &listed[..i] {
            assert_ne!(a, b);
        }
    }
    for y in 0..4 {
        for x in 0..4 {
            let named = file.get_tile(x, y, 2).unwrap().bounds;
            assert_eq!(listed.iter().filter(|bounds| **bounds == named).count(), 1);
        }
    }
    // only the north-west quarter is touched
    let corner = Bounds::new(-1800, 451, -901, 900);
    let listed: Vec<Bounds> = file.get_tiles(corner, 2).iter().map(|tile| tile.bounds).collect();
    assert_eq!(listed, vec![Bounds::new(-1800, 450, -900, 900)]);
}

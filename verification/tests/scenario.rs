use geotree::deserialize::tree::GeoTree as FileTree;
use geotree::{Bounds, Dataset, GeoTree, Tile};

struct Synthetic {
    data: Vec<Vec<u32>>,
}

impl Dataset for Synthetic {
    type Type = u32;
    type AggregateType = u64;

    const TILE_SIZE: u32 = 2;
    const CHILDREN_PER_AXIS: usize = 2;
    const MAX_LEVEL: u32 = 1;

    fn aggregate(values: &[u32]) -> Option<u64> {
        Some(values.iter().map(|v| *v as u64).sum())
    }

    fn aggregate2(values: &[u64]) -> Option<u64> {
        Some(values.iter().sum())
    }

    fn downsample(data: &Tile<u32>) -> Tile<u32> {
        let size = Self::TILE_SIZE as usize;
        let mut out = vec![vec![0u32; size]; size];
        for (y, row) in out.iter_mut().enumerate() {
            for (x, pixel) in row.iter_mut().enumerate() {
                *pixel = data[y * data.len() / size][x * data[0].len() / size];
            }
        }
        out
    }

    fn default() -> u32 {
        0
    }

    fn data(&self) -> Tile<u32> {
        self.data.clone()
    }

    fn bounds(&self) -> Bounds {
        Bounds::new(-1800, -900, 1800, 900)
    }
}

fn synthetic() -> Synthetic {
    Synthetic { data: (0..4).map(|r| (0..4).map(|c| r * 4 + c).collect()).collect() }
}

#[test]
fn top_left_leaf_is_addressed_by_zero_zero_one() {
    let tree = GeoTree::build(&synthetic());
    let bytes = tree.to_bytes().unwrap();
    let file = FileTree::<Synthetic>::new(&bytes);
    let tile = file.get_tile(0, 0, 1).unwrap();
    assert_eq!(tile.data, vec![vec![0, 1], vec![4, 5]]);
}

#[test]
fn aggregate_over_full_bounds_is_sum_of_all_pixels() {
    let tree = GeoTree::build(&synthetic());
    let bytes = tree.to_bytes().unwrap();
    let file = FileTree::<Synthetic>::new(&bytes);
    let full = Bounds::new(-1800, -900, 1800, 900);
    assert_eq!(file.get_aggregate(full), Some(120));
}

#[test]
fn level_zero_holds_exactly_the_root() {
    let tree = GeoTree::build(&synthetic());
    let bytes = tree.to_bytes().unwrap();
    let file = FileTree::<Synthetic>::new(&bytes);
    let full = Bounds::new(-1800, -900, 1800, 900);
    assert_eq!(file.get_tiles(full, 0).len(), 1);
    assert_eq!(tree.get_tiles(full, 0).len(), 1);
}

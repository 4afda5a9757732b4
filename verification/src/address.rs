//! Tile addresses: the node that an address names is the node reached by
//! descending the bits of the address.

use crate::common::TileView;
use crate::bounds::{cut, lemma_cell, lemma_cut_bounds, Bounds};
use crate::levels::gridded;
use crate::listing::{node_on, Path};
use crate::deserialize::tree::{
    address_bit, descend, file_tile, header_at, payload_at, tiles_per_axis,
};
use crate::roundtrip::{lemma_round_trip, reads_as};
use crate::scalar::Scalar;
use crate::serialize::layout::tree_bytes;
use crate::tree::NodeModel;
use vstd::arithmetic::div_mod::{
    lemma_mod_breakdown, lemma_mod_multiples_vanish, lemma_small_mod,
};
use vstd::arithmetic::power2::{
    lemma2_to64, lemma_pow2_adds, lemma_pow2_pos, lemma_pow2_strictly_increases,
    lemma_pow2_unfold, pow2,
};
use vstd::bits::lemma_usize_shr_is_div;
use vstd::layout::unsigned_int_max_values;
use vstd::prelude::*;

verus! {

/// The node reached from `node` by descending `levels` levels, at each
/// level taking the row that the next lower bit of `y` names and the column
/// that the same bit of `x` names; nothing where a node on the way has no
/// such child.
pub open spec fn node_at<T, U>(node: NodeModel<T, U>, x: usize, y: usize, levels: nat) -> Option<
    NodeModel<T, U>,
>
    decreases levels,
{
    if levels == 0 {
        Some(node)
    } else {
        let row = address_bit(y, (levels - 1) as nat) as int;
        let col = address_bit(x, (levels - 1) as nat) as int;
        if row < node.children.len() && col < node.children[row].len() {
            node_at(node.children[row][col], x, y, (levels - 1) as nat)
        } else {
            None
        }
    }
}

/// The tile that a tree holds at address `(x, y)` of depth `z`, with `n`
/// children per axis: nothing where the address is out of range, where no
/// node is there, or where the node has no tile.
pub open spec fn tile_at_address<T, U>(
    root: NodeModel<T, U>,
    n: nat,
    x: usize,
    y: usize,
    z: nat,
) -> Option<TileView<T>> {
    if x >= tiles_per_axis(n, z) || y >= tiles_per_axis(n, z) {
        None
    } else {
        match node_at(root, x, y, z) {
            Some(node) => match node.data {
                Some(data) => Some(TileView { data, bounds: node.bounds }),
                None => None,
            },
            None => None,
        }
    }
}

/// Descending inside a file reaches the node that descending inside the
/// tree reaches.
pub proof fn lemma_descend<T: Scalar, U: Scalar>(
    bytes: Seq<u8>,
    pointer: nat,
    node: NodeModel<T, U>,
    x: usize,
    y: usize,
    levels: nat,
)
    requires
        reads_as(bytes, pointer, node),
    ensures
        match node_at(node, x, y, levels) {
            Some(target) => descend(bytes, pointer, x, y, levels) matches Some((header, payload))
                && header.bounds == target.bounds && (payload_at::<T, U>(
                bytes,
                payload,
            ) matches Some((data, _)) && data.tile == target.data && data.aggregate
                == target.aggregate),
            None => descend(bytes, pointer, x, y, levels) is None,
        },
    decreases levels,
{
    if levels > 0 {
        let row = address_bit(y, (levels - 1) as nat) as int;
        let col = address_bit(x, (levels - 1) as nat) as int;
        let header = header_at(bytes, pointer).unwrap().0;
        if row < node.children.len() && col < node.children[row].len() {
            assert(header.children[row].len() == node.children[row].len());
            assert(reads_as(bytes, header.children[row][col], node.children[row][col]));
            lemma_descend(
                bytes,
                header.children[row][col],
                node.children[row][col],
                x,
                y,
                (levels - 1) as nat,
            );
        } else {
            if row < node.children.len() {
                assert(header.children[row].len() == node.children[row].len());
            }
        }
    }
}

/// An address names, in the file of a tree, the tile of the one node that
/// is reached from the root by descending the bits of `x` and `y`, the
/// highest of the `z` bits first. An address beyond the tiles of depth `z`
/// names nothing.
pub proof fn lemma_tile_by_address<T: Scalar, U: Scalar>(
    root: NodeModel<T, U>,
    n: nat,
    x: usize,
    y: usize,
    z: nat,
)
    requires
        root.wf(),
        tree_bytes(0, root).len() <= usize::MAX,
    ensures
        file_tile::<T, U>(tree_bytes(0, root), n, x, y, z) == tile_at_address(root, n, x, y, z),
        x >= tiles_per_axis(n, z) || y >= tiles_per_axis(n, z) ==> file_tile::<T, U>(
            tree_bytes(0, root),
            n,
            x,
            y,
            z,
        ) is None,
{
    lemma_round_trip(root);
    lemma_descend(tree_bytes(0, root), 0, root, x, y, z);
}

/// With two children per axis a level has twice the tiles per axis of the
/// level above.
pub proof fn lemma_tiles_per_axis_pow2(z: nat)
    ensures
        tiles_per_axis(2, z) == pow2(z),
    decreases z,
{
    if z == 0 {
        lemma2_to64();
    } else {
        lemma_tiles_per_axis_pow2((z - 1) as nat);
        lemma_pow2_unfold(z);
    }
}

/// A bit of an address is the parity of the address divided by the power of
/// two of the bit.
proof fn lemma_address_bit(value: usize, bit: nat)
    requires
        bit < usize::BITS,
    ensures
        address_bit(value, bit) == (value as int / pow2(bit) as int) % 2,
{
    let shifted: usize = value >> (bit as usize);
    lemma_usize_shr_is_div(value, bit as usize);
    assert(shifted & 1 == shifted % 2) by (bit_vector);
}

/// Addresses with the same lowest `bits` bits are the same up to the power
/// of two of `bits`.
proof fn lemma_low_bits_agree(a: usize, b: usize, bits: nat)
    requires
        bits <= usize::BITS,
        forall|bit: nat| bit < bits ==> address_bit(a, bit) == address_bit(b, bit),
    ensures
        a as int % pow2(bits) as int == b as int % pow2(bits) as int,
    decreases bits,
{
    if bits == 0 {
        lemma2_to64();
    } else {
        let below = (bits - 1) as nat;
        lemma_low_bits_agree(a, b, below);
        lemma_pow2_unfold(bits);
        lemma_pow2_pos(below);
        lemma_address_bit(a, below);
        lemma_address_bit(b, below);
        assert(address_bit(a, below) == address_bit(b, below));
        lemma_mod_breakdown(a as int, pow2(below) as int, 2);
        lemma_mod_breakdown(b as int, pow2(below) as int, 2);
        assert(pow2(below) * 2 == 2 * pow2(below)) by (nonlinear_arith);
    }
}

/// With two children per axis, two addresses of depth `z`
/// that name the same child at every level are the same address.
pub proof fn lemma_address_unique(a: usize, b: usize, z: nat)
    requires
        a < tiles_per_axis(2, z),
        b < tiles_per_axis(2, z),
        forall|bit: nat| bit < z ==> address_bit(a, bit) == address_bit(b, bit),
    ensures
        a == b,
{
    lemma_tiles_per_axis_pow2(z);
    unsigned_int_max_values();
    let bits: nat = if z <= usize::BITS {
        z
    } else {
        usize::BITS as nat
    };
    lemma_low_bits_agree(a, b, bits);
    lemma_pow2_pos(bits);
    lemma_small_mod(a as nat, pow2(bits));
    lemma_small_mod(b as nat, pow2(bits));
}

/// The number whose lowest bits are the first `k` of `bits`, the first the
/// lowest.
pub open spec fn number_of(bits: Seq<bool>, k: nat) -> nat
    decreases k,
{
    if k == 0 {
        0
    } else {
        number_of(bits, (k - 1) as nat) + if bits[k - 1] {
            pow2((k - 1) as nat)
        } else {
            0
        }
    }
}

proof fn lemma_number_of_bound(bits: Seq<bool>, k: nat)
    ensures
        number_of(bits, k) < pow2(k),
    decreases k,
{
    if k == 0 {
        lemma2_to64();
    } else {
        lemma_number_of_bound(bits, (k - 1) as nat);
        lemma_pow2_unfold(k);
    }
}

/// The lowest `m` bits of the number of more bits are the number of the
/// first `m` bits.
proof fn lemma_number_of_low(bits: Seq<bool>, k: nat, m: nat)
    requires
        m <= k,
    ensures
        number_of(bits, k) % pow2(m) == number_of(bits, m),
    decreases k,
{
    lemma_pow2_pos(m);
    if m == k {
        lemma_number_of_bound(bits, k);
        lemma_small_mod(number_of(bits, k), pow2(m));
    } else {
        let below = (k - 1) as nat;
        lemma_number_of_low(bits, below, m);
        if bits[k - 1] {
            lemma_pow2_adds(m, (below - m) as nat);
            lemma_mod_multiples_vanish(
                pow2((below - m) as nat) as int,
                number_of(bits, below) as int,
                pow2(m) as int,
            );
        }
    }
}

/// With two children per axis, every choice of a child at each of `z`
/// levels is named by an address of depth `z`.
pub proof fn lemma_address_exists(bits: Seq<bool>) -> (a: usize)
    requires
        bits.len() <= usize::BITS,
    ensures
        a < tiles_per_axis(2, bits.len()),
        forall|bit: nat|
            bit < bits.len() ==> #[trigger] address_bit(a, bit) == if bits[bit as int] {
                1nat
            } else {
                0nat
            },
{
    let z = bits.len();
    let value = number_of(bits, z);
    lemma_number_of_bound(bits, z);
    lemma_tiles_per_axis_pow2(z);
    unsigned_int_max_values();
    if z < usize::BITS {
        lemma_pow2_strictly_increases(z, usize::BITS as nat);
    }
    let a = value as usize;
    assert forall|bit: nat| bit < z implies #[trigger] address_bit(a, bit) == if bits[bit as int] {
        1nat
    } else {
        0nat
    } by {
        lemma_address_bit(a, bit);
        lemma_pow2_pos(bit);
        lemma_number_of_low(bits, z, bit);
        lemma_number_of_low(bits, z, bit + 1);
        lemma_pow2_unfold(bit + 1);
        lemma_mod_breakdown(a as int, pow2(bit) as int, 2);
        assert(pow2(bit) * 2 == 2 * pow2(bit)) by (nonlinear_arith);
        let parity = (a as int / pow2(bit) as int) % 2;
        assert(pow2(bit) * parity == number_of(bits, bit + 1) - number_of(bits, bit));
        if bits[bit as int] {
            assert(parity == 1) by (nonlinear_arith)
                requires
                    pow2(bit) * parity == pow2(bit),
                    pow2(bit) > 0,
            ;
        } else {
            assert(parity == 0) by (nonlinear_arith)
                requires
                    pow2(bit) * parity == 0,
                    pow2(bit) > 0,
            ;
        }
    }
    a
}

/// The way from the root to the node that an address names: at each level
/// the row that the next lower bit of `y` names and the column that the same
/// bit of `x` names, the highest of the `levels` bits first.
pub open spec fn address_path(x: usize, y: usize, levels: nat) -> Path {
    Seq::new(
        levels,
        |k: int|
            (
                address_bit(y, (levels - 1 - k) as nat) as int,
                address_bit(x, (levels - 1 - k) as nat) as int,
            ),
    )
}

/// Descending the bits of an address is following the path of the address.
pub proof fn lemma_node_at_path<T, U>(node: NodeModel<T, U>, x: usize, y: usize, levels: nat)
    ensures
        node_at(node, x, y, levels) == node_on(node, address_path(x, y, levels)),
    decreases levels,
{
    if levels > 0 {
        let path = address_path(x, y, levels);
        let row = address_bit(y, (levels - 1) as nat) as int;
        let col = address_bit(x, (levels - 1) as nat) as int;
        assert(path[0] == (row, col));
        assert(path.drop_first() =~= address_path(x, y, (levels - 1) as nat));
        if row < node.children.len() && col < node.children[row].len() {
            lemma_node_at_path(node.children[row][col], x, y, (levels - 1) as nat);
        }
    }
}

/// With two children per axis, two different addresses of depth `z` name
/// nodes at different places of the tree: their paths from the root differ.
pub proof fn lemma_addresses_name_different_nodes(
    x1: usize,
    y1: usize,
    x2: usize,
    y2: usize,
    z: nat,
)
    requires
        x1 < tiles_per_axis(2, z),
        y1 < tiles_per_axis(2, z),
        x2 < tiles_per_axis(2, z),
        y2 < tiles_per_axis(2, z),
        x1 != x2 || y1 != y2,
    ensures
        address_path(x1, y1, z) != address_path(x2, y2, z),
{
    let one = address_path(x1, y1, z);
    let other = address_path(x2, y2, z);
    if one == other {
        assert forall|bit: nat| bit < z implies address_bit(x1, bit) == address_bit(x2, bit)
            && address_bit(y1, bit) == address_bit(y2, bit) by {
            let k = z - 1 - bit;
            assert(one[k] == other[k]);
            assert(one[k] == (address_bit(y1, bit) as int, address_bit(x1, bit) as int));
            assert(other[k] == (address_bit(y2, bit) as int, address_bit(x2, bit) as int));
        }
        lemma_address_unique(x1, x2, z);
        lemma_address_unique(y1, y2, z);
    }
}

/// Every step of the path takes one of two rows and one of two columns.
pub open spec fn binary_path(path: Path) -> bool {
    forall|k: int|
        0 <= k < path.len() ==> 0 <= (#[trigger] path[k]).0 <= 1 && 0 <= path[k].1 <= 1
}

/// The rectangle is at least `size` wide and `size` high.
pub open spec fn spans(bounds: Bounds, size: nat) -> bool {
    bounds.max_x - bounds.min_x >= size && bounds.max_y - bounds.min_y >= size
}

/// A half of a span is at least half as long as the span, rounded down.
proof fn lemma_half(lo: int, hi: int, size: nat)
    requires
        hi - lo >= 2 * size,
    ensures
        cut(lo, hi, 0, 2) == lo,
        cut(lo, hi, 2, 2) == hi,
        cut(lo, hi, 1, 2) - lo >= size,
        hi - cut(lo, hi, 1, 2) >= size,
{
    lemma_cut_bounds(lo, hi, 0, 2);
    lemma_cut_bounds(lo, hi, 2, 2);
    assert(1 * (hi - lo) == hi - lo) by (nonlinear_arith);
}

/// The cells of a rectangle that spans twice a size span that size each,
/// and two different cells lie on two sides of a line.
proof fn lemma_quarters(bounds: Bounds, size: nat, i: int, j: int)
    requires
        bounds.wf(),
        spans(bounds, 2 * size),
        0 <= i <= 1,
        0 <= j <= 1,
    ensures
        spans(bounds.cell(i, j, 2), size),
        bounds.cell(i, j, 2).wf(),
        bounds.cell(0, j, 2).min_y == bounds.cell(1, j, 2).max_y,
        bounds.cell(i, 0, 2).max_x == bounds.cell(i, 1, 2).min_x,
{
    lemma_half(bounds.min_x as int, bounds.max_x as int, size);
    lemma_half(bounds.min_y as int, bounds.max_y as int, size);
    lemma_cell(bounds, i, j, 2);
    lemma_cell(bounds, 0, j, 2);
    lemma_cell(bounds, 1, j, 2);
    lemma_cell(bounds, i, 0, 2);
    lemma_cell(bounds, i, 1, 2);
}

/// In a tree that is a full grid of two by two children, on a rectangle
/// large enough to be halved at every level, the node at the end of a path
/// lies within the node at its start and has a width and a height.
proof fn lemma_cell_below<T, U>(node: NodeModel<T, U>, levels: nat, path: Path)
    requires
        gridded(node, 2, levels),
        node.bounds.wf(),
        spans(node.bounds, pow2(levels)),
        path.len() == levels,
        binary_path(path),
    ensures
        node_on(node, path) is Some,
        node.bounds.encloses(node_on(node, path).unwrap().bounds),
        spans(node_on(node, path).unwrap().bounds, 1),
    decreases levels,
{
    if levels == 0 {
        lemma2_to64();
    } else {
        let (i, j) = path[0];
        let child = node.children[i][j];
        let tail = path.drop_first();
        lemma_pow2_unfold(levels);
        lemma_quarters(node.bounds, pow2((levels - 1) as nat), i, j);
        assert(child.bounds == node.bounds.cell(i, j, 2));
        assert(binary_path(tail)) by {
            assert forall|k: int| 0 <= k < tail.len() implies 0 <= (#[trigger] tail[k]).0 <= 1
                && 0 <= tail[k].1 <= 1 by {
                assert(tail[k] == path[k + 1]);
            }
        }
        lemma_cell_below(child, (levels - 1) as nat, tail);
    }
}

/// In a tree that is a full grid of two by two children, on a rectangle
/// large enough to be halved at every level, different paths of one length
/// lead to nodes with different bounds.
pub proof fn lemma_different_bounds<T, U>(
    node: NodeModel<T, U>,
    levels: nat,
    first: Path,
    second: Path,
)
    requires
        gridded(node, 2, levels),
        node.bounds.wf(),
        spans(node.bounds, pow2(levels)),
        first.len() == levels,
        second.len() == levels,
        binary_path(first),
        binary_path(second),
        first != second,
    ensures
        node_on(node, first) is Some,
        node_on(node, second) is Some,
        node_on(node, first).unwrap().bounds != node_on(node, second).unwrap().bounds,
    decreases levels,
{
    lemma_cell_below(node, levels, first);
    lemma_cell_below(node, levels, second);
    if levels == 0 {
        assert(first =~= second);
    } else {
        let (i1, j1) = first[0];
        let (i2, j2) = second[0];
        let below = (levels - 1) as nat;
        let t1 = first.drop_first();
        let t2 = second.drop_first();
        lemma_pow2_unfold(levels);
        lemma_quarters(node.bounds, pow2(below), i1, j1);
        lemma_quarters(node.bounds, pow2(below), i2, j2);
        let c1 = node.children[i1][j1];
        let c2 = node.children[i2][j2];
        assert(c1.bounds == node.bounds.cell(i1, j1, 2));
        assert(c2.bounds == node.bounds.cell(i2, j2, 2));
        assert(binary_path(t1)) by {
            assert forall|k: int| 0 <= k < t1.len() implies 0 <= (#[trigger] t1[k]).0 <= 1 && 0
                <= t1[k].1 <= 1 by {
                assert(t1[k] == first[k + 1]);
            }
        }
        assert(binary_path(t2)) by {
            assert forall|k: int| 0 <= k < t2.len() implies 0 <= (#[trigger] t2[k]).0 <= 1 && 0
                <= t2[k].1 <= 1 by {
                assert(t2[k] == second[k + 1]);
            }
        }
        lemma_cell_below(c1, below, t1);
        lemma_cell_below(c2, below, t2);
        if i1 == i2 && j1 == j2 {
            if t1 == t2 {
                assert(first =~= seq![(i1, j1)] + t1);
                assert(second =~= seq![(i2, j2)] + t2);
            }
            lemma_different_bounds(c1, below, t1, t2);
        }
    }
}

/// The bits of an address are 0 or 1.
proof fn lemma_address_path_binary(x: usize, y: usize, levels: nat)
    ensures
        binary_path(address_path(x, y, levels)),
{
    assert forall|k: int| 0 <= k < levels implies 0 <= (#[trigger] address_path(
        x,
        y,
        levels,
    )[k]).0 <= 1 && 0 <= address_path(x, y, levels)[k].1 <= 1 by {
        let bit = (levels - 1 - k) as nat;
        if bit < usize::BITS {
            lemma_address_bit(x, bit);
            lemma_address_bit(y, bit);
        }
    }
}

/// In a tree that is a full grid of two by two children down to depth `z`,
/// on a rectangle at least `2^z` wide and high, two different addresses of
/// depth `z` name nodes with different bounds.
pub proof fn lemma_addresses_have_different_bounds<T, U>(
    root: NodeModel<T, U>,
    x1: usize,
    y1: usize,
    x2: usize,
    y2: usize,
    z: nat,
)
    requires
        gridded(root, 2, z),
        root.bounds.wf(),
        spans(root.bounds, pow2(z)),
        x1 < tiles_per_axis(2, z),
        y1 < tiles_per_axis(2, z),
        x2 < tiles_per_axis(2, z),
        y2 < tiles_per_axis(2, z),
        x1 != x2 || y1 != y2,
    ensures
        node_at(root, x1, y1, z) is Some,
        node_at(root, x2, y2, z) is Some,
        node_at(root, x1, y1, z).unwrap().bounds != node_at(root, x2, y2, z).unwrap().bounds,
{
    lemma_node_at_path(root, x1, y1, z);
    lemma_node_at_path(root, x2, y2, z);
    lemma_address_path_binary(x1, y1, z);
    lemma_address_path_binary(x2, y2, z);
    lemma_addresses_name_different_nodes(x1, y1, x2, y2, z);
    lemma_different_bounds(root, z, address_path(x1, y1, z), address_path(x2, y2, z));
}

} // verus!

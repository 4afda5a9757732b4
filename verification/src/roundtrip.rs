//! Reading gives back what was written.

use crate::bounds::Bounds;
use crate::deserialize::tree::{
    addressable, as_positions, header_at, payload_at, HeaderModel, PayloadModel,
};
use crate::format::{
    bounds_at, bounds_bytes, grid_at, grid_bytes, header_bytes, lemma_run_bytes_len,
    option_grid_at, option_grid_bytes, option_scalar_at, option_scalar_bytes, padding_for,
    payload_bytes, row_at, row_bytes, rows_at, rows_bytes, run_at, run_bytes, scalar_at,
    scalar_bytes, slice_at, slice_bytes, zeros,
};
use crate::scalar::Scalar;
use crate::serialize::layout::{
    breadth_first, child_place, emitted, flat_children, flat_index,
    lemma_breadth_first, lemma_emit_step, lemma_emitted_len, lemma_joined_index,
    lemma_offset_monotone, linked, node_bytes, offset_of, pointers_of, same_shape, tree_bytes,
};
use crate::tree::NodeModel;
use vstd::layout::{align_of, size_of};
use vstd::prelude::*;

verus! {

/// The bytes `enc` stand in `bytes` from `position` on.
pub open spec fn holds(bytes: Seq<u8>, position: nat, enc: Seq<u8>) -> bool {
    &&& position + enc.len() <= bytes.len()
    &&& bytes.subrange(position as int, (position + enc.len()) as int) == enc
}

/// Where two runs stand one after the other, each of them stands there.
pub proof fn lemma_holds_split(bytes: Seq<u8>, position: nat, a: Seq<u8>, b: Seq<u8>)
    requires
        holds(bytes, position, a + b),
    ensures
        holds(bytes, position, a),
        holds(bytes, position + a.len(), b),
{
    let whole = bytes.subrange(position as int, (position + (a + b).len()) as int);
    assert(bytes.subrange(position as int, (position + a.len()) as int) =~= whole.subrange(
        0,
        a.len() as int,
    ));
    assert((a + b).subrange(0, a.len() as int) =~= a);
    assert(bytes.subrange(
        (position + a.len()) as int,
        (position + a.len() + b.len()) as int,
    ) =~= whole.subrange(
        a.len() as int,
        (a + b).len() as int,
    ));
    assert((a + b).subrange(a.len() as int, (a + b).len() as int) =~= b);
}

/// A value is read back from where it was written.
pub proof fn lemma_scalar_round_trip<T: Scalar>(bytes: Seq<u8>, position: nat, value: T)
    requires
        holds(bytes, position, scalar_bytes(position, value)),
    ensures
        scalar_at::<T>(bytes, position) == Some(
            (value, position + scalar_bytes(position, value).len()),
        ),
{
    let gap = zeros(padding_for(position, align_of::<T>()));
    T::lemma_bytes(value);
    lemma_holds_split(bytes, position, gap, value.bytes());
}

/// The bytes of value `i` of a run.
proof fn lemma_run_bytes_index<T: Scalar>(values: Seq<T>, k: nat, i: int)
    requires
        0 <= i < k <= values.len(),
    ensures
        (i + 1) * size_of::<T>() <= run_bytes(values, k).len(),
        run_bytes(values, k).subrange(i * size_of::<T>(), (i + 1) * size_of::<T>())
            == values[i].bytes(),
    decreases k,
{
    let size = size_of::<T>();
    lemma_run_bytes_len(values, k);
    lemma_run_bytes_len(values, (k - 1) as nat);
    T::lemma_bytes(values[k - 1]);
    assert((i + 1) * size <= k * size) by (nonlinear_arith)
        requires
            i + 1 <= k,
            size >= 0,
    ;
    assert((i + 1) * size == i * size + size) by (nonlinear_arith);
    assert(0 <= i * size) by (nonlinear_arith)
        requires
            0 <= i,
            size >= 0,
    ;
    if i == k - 1 {
        assert(run_bytes(values, k).subrange(i * size, (i + 1) * size) =~= values[i].bytes());
    } else {
        lemma_run_bytes_index(values, (k - 1) as nat, i);
        assert(run_bytes(values, k).subrange(i * size, (i + 1) * size) =~= run_bytes(
            values,
            (k - 1) as nat,
        ).subrange(i * size, (i + 1) * size));
    }
}

/// A run of values is read back from where it was written.
pub proof fn lemma_slice_round_trip<T: Scalar>(bytes: Seq<u8>, position: nat, values: Seq<T>)
    requires
        holds(bytes, position, slice_bytes(position, values)),
    ensures
        slice_at::<T>(bytes, position, values.len()) == Some(
            (values, position + slice_bytes(position, values).len()),
        ),
{
    let size = size_of::<T>();
    let gap = zeros(padding_for(position, align_of::<T>()));
    let body = run_bytes(values, values.len());
    let at = position + gap.len();
    lemma_run_bytes_len(values, values.len());
    lemma_holds_split(bytes, position, gap, body);
    assert forall|i: int| 0 <= i < values.len() implies run_at::<T>(bytes, at, values.len())[i]
        == values[i] by {
        lemma_run_bytes_index(values, values.len(), i);
        T::lemma_bytes(values[i]);
        assert(0 <= i * size) by (nonlinear_arith)
            requires
                0 <= i,
                size >= 0,
        ;
        assert((i + 1) * size == i * size + size) by (nonlinear_arith);
        assert(at + body.len() <= bytes.len());
        assert(bytes.subrange(at + i * size, at + (i + 1) * size) =~= bytes.subrange(
            at as int,
            (at + body.len()) as int,
        ).subrange(i * size, (i + 1) * size));
    }
    assert(run_at::<T>(bytes, at, values.len()) =~= values);
}

/// A sequence is read back from where it was written.
pub proof fn lemma_row_round_trip<T: Scalar>(bytes: Seq<u8>, position: nat, values: Seq<T>)
    requires
        bytes.len() <= u64::MAX,
        holds(bytes, position, row_bytes(position, values)),
    ensures
        row_at::<T>(bytes, position) == Some(
            (values, position + row_bytes(position, values).len()),
        ),
{
    let head = scalar_bytes::<u64>(position, values.len() as u64);
    let body = slice_bytes(position + head.len(), values);
    lemma_holds_split(bytes, position, head, body);
    lemma_run_bytes_len(values, values.len());
    T::lemma_bytes(arbitrary());
    assert(values.len() * size_of::<T>() >= values.len()) by (nonlinear_arith)
        requires
            size_of::<T>() >= 1,
    ;
    assert(values.len() as u64 == values.len());
    lemma_scalar_round_trip::<u64>(bytes, position, values.len() as u64);
    lemma_slice_round_trip(bytes, position + head.len(), values);
}

/// A row takes at least one byte.
proof fn lemma_row_bytes_nonempty<T: Scalar>(position: nat, values: Seq<T>)
    ensures
        row_bytes(position, values).len() >= 1,
{
    u64::lemma_bytes(values.len() as u64);
}

/// Rows take at least one byte each.
proof fn lemma_rows_bytes_count<T: Scalar>(position: nat, rows: Seq<Seq<T>>, k: nat)
    ensures
        rows_bytes(position, rows, k).len() >= k,
    decreases k,
{
    if k > 0 {
        lemma_rows_bytes_count(position, rows, (k - 1) as nat);
        lemma_row_bytes_nonempty(
            position + rows_bytes(position, rows, (k - 1) as nat).len(),
            rows[k - 1],
        );
    }
}

/// Rows are read back from where they were written.
pub proof fn lemma_rows_round_trip<T: Scalar>(
    bytes: Seq<u8>,
    position: nat,
    rows: Seq<Seq<T>>,
    k: nat,
)
    requires
        bytes.len() <= u64::MAX,
        k <= rows.len(),
        holds(bytes, position, rows_bytes(position, rows, k)),
    ensures
        rows_at::<T>(bytes, position, k) == Some(
            (rows.subrange(0, k as int), position + rows_bytes(position, rows, k).len()),
        ),
    decreases k,
{
    if k == 0 {
        assert(rows.subrange(0, 0) =~= Seq::empty());
    } else {
        let before = rows_bytes(position, rows, (k - 1) as nat);
        let last = row_bytes(position + before.len(), rows[k - 1]);
        lemma_holds_split(bytes, position, before, last);
        lemma_rows_round_trip(bytes, position, rows, (k - 1) as nat);
        lemma_row_round_trip(bytes, position + before.len(), rows[k - 1]);
        assert(rows.subrange(0, k - 1).push(rows[k - 1]) =~= rows.subrange(0, k as int));
    }
}

/// A grid is read back from where it was written.
pub proof fn lemma_grid_round_trip<T: Scalar>(bytes: Seq<u8>, position: nat, rows: Seq<Seq<T>>)
    requires
        bytes.len() <= u64::MAX,
        holds(bytes, position, grid_bytes(position, rows)),
    ensures
        grid_at::<T>(bytes, position) == Some(
            (rows, position + grid_bytes(position, rows).len()),
        ),
{
    let head = scalar_bytes::<u64>(position, rows.len() as u64);
    let body = rows_bytes(position + head.len(), rows, rows.len());
    lemma_holds_split(bytes, position, head, body);
    lemma_rows_bytes_count(position + head.len(), rows, rows.len());
    assert(rows.len() as u64 == rows.len());
    lemma_scalar_round_trip::<u64>(bytes, position, rows.len() as u64);
    lemma_rows_round_trip(bytes, position + head.len(), rows, rows.len());
    assert(rows.subrange(0, rows.len() as int) =~= rows);
}

/// An optional value is read back from where it was written.
pub proof fn lemma_option_scalar_round_trip<T: Scalar>(
    bytes: Seq<u8>,
    position: nat,
    value: Option<T>,
)
    requires
        holds(bytes, position, option_scalar_bytes(position, value)),
    ensures
        option_scalar_at::<T>(bytes, position) == Some(
            (value, position + option_scalar_bytes(position, value).len()),
        ),
{
    match value {
        Some(v) => {
            let head = scalar_bytes::<u8>(position, 1u8);
            lemma_holds_split(bytes, position, head, scalar_bytes(position + head.len(), v));
            lemma_scalar_round_trip::<u8>(bytes, position, 1u8);
            lemma_scalar_round_trip::<T>(bytes, position + head.len(), v);
        },
        None => {
            lemma_scalar_round_trip::<u8>(bytes, position, 0u8);
        },
    }
}

/// An optional grid is read back from where it was written.
pub proof fn lemma_option_grid_round_trip<T: Scalar>(
    bytes: Seq<u8>,
    position: nat,
    value: Option<Seq<Seq<T>>>,
)
    requires
        bytes.len() <= u64::MAX,
        holds(bytes, position, option_grid_bytes(position, value)),
    ensures
        option_grid_at::<T>(bytes, position) == Some(
            (value, position + option_grid_bytes(position, value).len()),
        ),
{
    match value {
        Some(v) => {
            let head = scalar_bytes::<u8>(position, 1u8);
            lemma_holds_split(bytes, position, head, grid_bytes(position + head.len(), v));
            lemma_scalar_round_trip::<u8>(bytes, position, 1u8);
            lemma_grid_round_trip::<T>(bytes, position + head.len(), v);
        },
        None => {
            lemma_scalar_round_trip::<u8>(bytes, position, 0u8);
        },
    }
}

/// A well-formed rectangle is read back from where it was written.
pub proof fn lemma_bounds_round_trip(bytes: Seq<u8>, position: nat, bounds: Bounds)
    requires
        bounds.wf(),
        holds(bytes, position, bounds_bytes(position, bounds)),
    ensures
        bounds_at(bytes, position) == Some(
            (bounds, position + bounds_bytes(position, bounds).len()),
        ),
{
    let a = scalar_bytes(position, bounds.min_x);
    let b = scalar_bytes(position + a.len(), bounds.min_y);
    let c = scalar_bytes(position + a.len() + b.len(), bounds.max_x);
    let d = scalar_bytes(position + a.len() + b.len() + c.len(), bounds.max_y);
    lemma_holds_split(bytes, position, a + b + c, d);
    lemma_holds_split(bytes, position, a + b, c);
    lemma_holds_split(bytes, position, a, b);
    lemma_scalar_round_trip(bytes, position, bounds.min_x);
    lemma_scalar_round_trip(bytes, position + a.len(), bounds.min_y);
    lemma_scalar_round_trip(bytes, position + a.len() + b.len(), bounds.max_x);
    lemma_scalar_round_trip(bytes, position + a.len() + b.len() + c.len(), bounds.max_y);
}

/// A header is read back from where it was written.
pub proof fn lemma_header_round_trip(
    bytes: Seq<u8>,
    position: nat,
    bounds: Bounds,
    pointers: Seq<Seq<u64>>,
)
    requires
        bytes.len() <= usize::MAX,
        bounds.wf(),
        addressable(pointers),
        holds(bytes, position, header_bytes(position, bounds, pointers)),
    ensures
        header_at(bytes, position) == Some(
            (
                HeaderModel { bounds, children: as_positions(pointers) },
                position + header_bytes(position, bounds, pointers).len(),
            ),
        ),
{
    let a = bounds_bytes(position, bounds);
    lemma_holds_split(bytes, position, a, grid_bytes(position + a.len(), pointers));
    lemma_bounds_round_trip(bytes, position, bounds);
    lemma_grid_round_trip::<u64>(bytes, position + a.len(), pointers);
}

/// A payload is read back from where it was written.
pub proof fn lemma_payload_round_trip<T: Scalar, U: Scalar>(
    bytes: Seq<u8>,
    position: nat,
    aggregate: Option<U>,
    data: Option<Seq<Seq<T>>>,
)
    requires
        bytes.len() <= usize::MAX,
        holds(bytes, position, payload_bytes(position, aggregate, data)),
    ensures
        payload_at::<T, U>(bytes, position) == Some(
            (
                PayloadModel { aggregate, tile: data },
                position + payload_bytes(position, aggregate, data).len(),
            ),
        ),
{
    let a = option_scalar_bytes(position, aggregate);
    lemma_holds_split(bytes, position, a, option_grid_bytes(position + a.len(), data));
    lemma_option_scalar_round_trip(bytes, position, aggregate);
    lemma_option_grid_round_trip(bytes, position + a.len(), data);
}

/// The file holds at `pointer` a node with the bounds, the aggregate and the
/// tile of `node`, and with as many children, each of which it holds in the
/// same way at the offset that the header gives for it.
pub open spec fn reads_as<T: Scalar, U: Scalar>(
    bytes: Seq<u8>,
    pointer: nat,
    node: NodeModel<T, U>,
) -> bool
    decreases node,
{
    match header_at(bytes, pointer) {
        None => false,
        Some((header, payload)) => {
            &&& header.bounds == node.bounds
            &&& same_shape(header.children, node.children)
            &&& payload_at::<T, U>(bytes, payload) matches Some((data, _))
                && data.aggregate == node.aggregate && data.tile == node.data
            &&& forall|i: int, j: int|
                0 <= i < node.children.len() && 0 <= j < node.children[i].len() ==> reads_as(
                    bytes,
                    header.children[i][j],
                    #[trigger] node.children[i][j],
                )
        },
    }
}

/// What stands in a run of bytes stands in every longer run.
proof fn lemma_holds_extend(a: Seq<u8>, b: Seq<u8>, position: nat, enc: Seq<u8>)
    requires
        holds(a, position, enc),
    ensures
        holds(a + b, position, enc),
{
    assert((a + b).subrange(position as int, (position + enc.len()) as int) =~= a.subrange(
        position as int,
        (position + enc.len()) as int,
    ));
}

/// Node `k` stands in the file at its offset.
proof fn lemma_segment<T: Scalar, U: Scalar>(order: Seq<NodeModel<T, U>>, k: nat, n: nat)
    requires
        k < n <= order.len(),
    ensures
        holds(
            emitted(order, 0, n),
            offset_of(order, 0, k),
            node_bytes(offset_of(order, 0, k), order[k as int], pointers_of(order, 0, k)),
        ),
    decreases n,
{
    let last = (n - 1) as nat;
    let before = emitted(order, 0, last);
    let piece = node_bytes(
        offset_of(order, 0, last),
        order[last as int],
        pointers_of(order, 0, last),
    );
    lemma_emit_step(order, 0, last);
    if k == last {
        assert((before + piece).subrange(
            before.len() as int,
            (before.len() + piece.len()) as int,
        ) =~= piece);
    } else {
        lemma_segment(order, k, last);
        lemma_holds_extend(
            before,
            piece,
            offset_of(order, 0, k),
            node_bytes(offset_of(order, 0, k), order[k as int], pointers_of(order, 0, k)),
        );
    }
}

/// Where the child in row `i` and column `j` of node `k` stands in a file,
/// and that the offset stored for it is that place.
proof fn lemma_child_pointer<T: Scalar, U: Scalar>(
    order: Seq<NodeModel<T, U>>,
    k: nat,
    i: int,
    j: int,
)
    requires
        linked(order, order.len()),
        k < order.len(),
        emitted(order, 0, order.len()).len() <= usize::MAX,
        0 <= i < order[k as int].children.len(),
        0 <= j < order[k as int].children[i].len(),
    ensures
        ({
            let place = child_place(order, k as int, flat_index(order[k as int].children, i, j));
            &&& 0 <= place < order.len()
            &&& order[place] == order[k as int].children[i][j]
            &&& pointers_of(order, 0, k)[i][j] == offset_of(order, 0, place as nat)
            &&& pointers_of(order, 0, k)[i][j] <= usize::MAX
        }),
{
    let node = order[k as int];
    lemma_joined_index(node.children, node.children.len(), i, j);
    let f = flat_index(node.children, i, j);
    let place = child_place(order, k as int, f);
    assert(place < order.len());
    assert(order[place] == flat_children(node)[f]);
    lemma_offset_monotone(order, 0, place as nat, order.len());
    lemma_emitted_len(order, 0, order.len());
}

/// The header and the payload of node `k` are read back from its offset.
proof fn lemma_node_parses<T: Scalar, U: Scalar>(
    order: Seq<NodeModel<T, U>>,
    bytes: Seq<u8>,
    k: nat,
)
    requires
        linked(order, order.len()),
        k < order.len(),
        bytes == emitted(order, 0, order.len()),
        bytes.len() <= usize::MAX,
        order[k as int].bounds.wf(),
    ensures
        ({
            let node = order[k as int];
            let at = offset_of(order, 0, k);
            let pointers = pointers_of(order, 0, k);
            let head = header_bytes(at, node.bounds, pointers);
            &&& header_at(bytes, at) == Some(
                (HeaderModel { bounds: node.bounds, children: as_positions(pointers) }, at + head.len()),
            )
            &&& payload_at::<T, U>(bytes, at + head.len()) matches Some((data, _))
                && data.aggregate == node.aggregate && data.tile == node.data
        }),
{
    let node = order[k as int];
    let at = offset_of(order, 0, k);
    let pointers = pointers_of(order, 0, k);
    let head = header_bytes(at, node.bounds, pointers);
    let body = payload_bytes(at + head.len(), node.aggregate, node.data);
    lemma_segment(order, k, order.len());
    lemma_holds_split(bytes, at, head, body);
    assert forall|i: int, j: int|
        0 <= i < pointers.len() && 0 <= j < pointers[i].len() implies #[trigger] pointers[i][j]
        <= usize::MAX by {
        lemma_child_pointer(order, k, i, j);
    }
    lemma_header_round_trip(bytes, at, node.bounds, pointers);
    lemma_payload_round_trip(bytes, at + head.len(), node.aggregate, node.data);
}

/// Node `k` of a file, and every node below it, is read back as it was
/// written.
proof fn lemma_node_round_trip<T: Scalar, U: Scalar>(
    order: Seq<NodeModel<T, U>>,
    bytes: Seq<u8>,
    k: nat,
)
    requires
        linked(order, order.len()),
        k < order.len(),
        bytes == emitted(order, 0, order.len()),
        bytes.len() <= usize::MAX,
        order[k as int].wf(),
    ensures
        reads_as(bytes, offset_of(order, 0, k), order[k as int]),
    decreases order[k as int],
{
    let node = order[k as int];
    let at = offset_of(order, 0, k);
    let pointers = pointers_of(order, 0, k);
    lemma_node_parses(order, bytes, k);
    let parsed = header_at(bytes, at).unwrap();
    let header = parsed.0;
    assert(header.children == as_positions(pointers));
    assert(same_shape(header.children, node.children));
    assert forall|i: int, j: int|
        0 <= i < node.children.len() && 0 <= j < node.children[i].len() implies reads_as(
        bytes,
        header.children[i][j],
        #[trigger] node.children[i][j],
    ) by {
        let place = child_place(order, k as int, flat_index(node.children, i, j));
        lemma_child_pointer(order, k, i, j);
        assert(header.children[i][j] == pointers[i][j] as nat);
        assert(node.children[i][j].wf());
        lemma_node_round_trip(order, bytes, place as nat);
    }
}

/// The file of a tree holds, for every node of the tree, the
/// bounds, the aggregate and the tile of that node, the root at offset 0 and
/// every other node at the offset that its parent gives for it.
pub proof fn lemma_round_trip<T: Scalar, U: Scalar>(root: NodeModel<T, U>)
    requires
        root.wf(),
        tree_bytes(0, root).len() <= usize::MAX,
    ensures
        reads_as(tree_bytes(0, root), 0, root),
{
    lemma_breadth_first(root);
    lemma_node_round_trip(breadth_first(root), tree_bytes(0, root), 0);
}

} // verus!

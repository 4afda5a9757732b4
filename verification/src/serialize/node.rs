//! Writing a whole tree: one walk to find where each node will begin, one
//! to write the nodes with the offsets of their children.

use crate::dataset::{grid, joined};
use crate::format::{header_bytes, payload_bytes};
use crate::scalar::Scalar;
use crate::serialize::layout::{
    blank_pointers, breadth_first, breadth_first_from, child_place, emitted, enough_fuel,
    first_child, flat_children, flat_index, forest_count, lemma_emit_step, lemma_emitted_len,
    lemma_first_child_monotone, lemma_joined_index, lemma_joined_len_grow,
    lemma_offset_monotone, lemma_offset_prefix, lemma_walk, lemma_walk_step, linked, node_bytes,
    node_count, offset_of, pointers_of, same_shape, tree_bytes,
};
use crate::serialize::{wrote, AlignedWriter, Discard, Serialize, SerializeError, Sink};
use crate::tree::{lemma_model_children, models, NodeModel, TileNode};
use vstd::prelude::*;

verus! {

/// The models of a run of nodes.
pub open spec fn node_models<T, U>(nodes: Seq<&TileNode<T, U>>) -> Seq<NodeModel<T, U>> {
    Seq::new(nodes.len(), |k: int| (*nodes[k])@)
}

/// Writes one node with the given offsets of its children.
fn write_node<T, U, W>(
    node: &TileNode<T, U>,
    pointers: &Vec<Vec<u64>>,
    writer: &mut AlignedWriter<W>,
) -> (r: Result<(), SerializeError>) where T: Scalar, U: Scalar, W: Sink
    ensures
        wrote(
            old(writer)@,
            final(writer)@,
            node_bytes(old(writer)@.position, node@, grid(*pointers)),
            W::keeps(),
            r,
        ),
{
    proof {
        lemma_model_children(*node);
    }
    let ghost start = writer@;
    let ghost a = node.bounds.encoding(start.position);
    let ghost b = pointers.encoding(start.position + a.len());
    let ghost c = node.aggregate.encoding(start.position + a.len() + b.len());
    let ghost d = node.data.encoding(start.position + a.len() + b.len() + c.len());
    proof {
        assert(a + b == header_bytes(start.position, node@.bounds, grid(*pointers)));
        assert(c + d == payload_bytes(
            start.position + (a + b).len(),
            node@.aggregate,
            node@.data,
        ));
        assert(a + b + (c + d) =~= a + b + c + d);
    }
    node.bounds.serialize(writer)?;
    pointers.serialize(writer)?;
    node.aggregate.serialize(writer)?;
    node.data.serialize(writer)?;
    assert(start.written + a + b + c + d =~= start.written + (a + b + c + d));
    Ok(())
}

/// Zero offsets in the shape of a node's children.
fn blank<T, U>(node: &TileNode<T, U>) -> (r: Vec<Vec<u64>>)
    ensures
        grid(r) == blank_pointers(node@),
{
    proof {
        lemma_model_children(*node);
    }
    let mut r: Vec<Vec<u64>> = Vec::new();
    let mut i: usize = 0;
    while i < node.children.len()
        invariant
            i <= node.children.len(),
            r.len() == i,
            forall|k: int|
                0 <= k < i ==> (#[trigger] r[k])@ == Seq::new(
                    node.children[k].len() as nat,
                    |j: int| 0u64,
                ),
        decreases node.children.len() - i,
    {
        let mut row: Vec<u64> = Vec::new();
        while row.len() < node.children[i].len()
            invariant
                i < node.children.len(),
                row.len() <= node.children[i as int].len(),
                forall|j: int| 0 <= j < row.len() ==> row[j] == 0u64,
            decreases node.children[i as int].len() - row.len(),
        {
            row.push(0u64);
        }
        assert(row@ =~= Seq::new(node.children[i as int].len() as nat, |j: int| 0u64));
        r.push(row);
        i += 1;
    }
    proof {
        assert(grid(r).len() == blank_pointers(node@).len());
        assert forall|k: int| 0 <= k < grid(r).len() implies grid(r)[k] == blank_pointers(
            node@,
        )[k] by {
            assert(grid(r)[k] =~= blank_pointers(node@)[k]);
        }
        assert(grid(r) =~= blank_pointers(node@));
    }
    r
}

/// The number of offsets in a grid.
fn pointers_count(pointers: &Vec<Vec<u64>>) -> (n: usize)
    requires
        joined(grid(*pointers), pointers.len() as nat).len() <= usize::MAX,
    ensures
        n == joined(grid(*pointers), pointers.len() as nat).len(),
{
    let mut n: usize = 0;
    let mut r: usize = 0;
    while r < pointers.len()
        invariant
            r <= pointers.len(),
            n == joined(grid(*pointers), r as nat).len(),
            joined(grid(*pointers), pointers.len() as nat).len() <= usize::MAX,
        decreases pointers.len() - r,
    {
        proof {
            lemma_joined_len_grow(grid(*pointers), (r + 1) as nat, pointers.len() as nat);
        }
        n = n + pointers[r].len();
        r += 1;
    }
    n
}

/// The offsets of the children of node `k`, taken from the offsets of all
/// nodes. The first child is node `first`.
fn child_pointers<T: Scalar, U: Scalar>(
    node: &TileNode<T, U>,
    offsets: &Vec<usize>,
    first: usize,
    Ghost(full): Ghost<Seq<NodeModel<T, U>>>,
    Ghost(start): Ghost<nat>,
    Ghost(k): Ghost<nat>,
) -> (pointers: Vec<Vec<u64>>)
    requires
        k < full.len(),
        full[k as int] == node@,
        linked(full, full.len()),
        offsets.len() == full.len(),
        forall|m: int|
            0 <= m < offsets.len() ==> (#[trigger] offsets[m]) == offset_of(full, start, m as nat),
        first == first_child(full, k),
    ensures
        grid(pointers) == pointers_of(full, start, k),
        first + joined(grid(pointers), pointers.len() as nat).len() == first_child(
            full,
            k + 1,
        ),
        first_child(full, k + 1) <= full.len(),
{
    let ghost kids = node@.children;
    proof {
        lemma_model_children(*node);
        lemma_first_child_monotone(full, k, full.len());
    }
    let mut next: usize = first;
    let mut pointers: Vec<Vec<u64>> = Vec::new();
    let mut r: usize = 0;
    while r < node.children.len()
        invariant
            r <= node.children.len(),
            k < full.len(),
            full[k as int] == node@,
            kids == node@.children,
            kids == models(node.children),
            linked(full, full.len()),
            offsets.len() == full.len(),
            forall|m: int|
                0 <= m < offsets.len() ==> (#[trigger] offsets[m]) == offset_of(
                    full,
                    start,
                    m as nat,
                ),
            next == first_child(full, k) + joined(kids, r as nat).len(),
            next <= full.len(),
            first == first_child(full, k),
            pointers.len() == r,
            forall|i: int|
                0 <= i < r ==> (#[trigger] pointers[i])@ == pointers_of(full, start, k)[i],
        decreases node.children.len() - r,
    {
        let row = &node.children[r];
        let mut pointer_row: Vec<u64> = Vec::new();
        let mut c: usize = 0;
        while c < row.len()
            invariant
                r < node.children.len(),
                c <= row.len(),
                row == node.children[r as int],
                k < full.len(),
                full[k as int] == node@,
                kids == node@.children,
                kids == models(node.children),
                linked(full, full.len()),
                offsets.len() == full.len(),
                forall|m: int|
                    0 <= m < offsets.len() ==> (#[trigger] offsets[m]) == offset_of(
                        full,
                        start,
                        m as nat,
                    ),
                next == first_child(full, k) + joined(kids, r as nat).len() + c,
                next <= full.len(),
                pointer_row.len() == c,
                forall|j: int|
                    0 <= j < c ==> (#[trigger] pointer_row[j]) == pointers_of(full, start, k)[r as int][j],
            decreases row.len() - c,
        {
            proof {
                lemma_joined_index(kids, kids.len(), r as int, c as int);
                let f = flat_index(kids, r as int, c as int);
                assert(child_place(full, k as int, f) < full.len());
            }
            pointer_row.push(offsets[next] as u64);
            next += 1;
            c += 1;
        }
        proof {
            assert(pointer_row@ =~= pointers_of(full, start, k)[r as int]);
        }
        pointers.push(pointer_row);
        r += 1;
    }
    proof {
        let expected = pointers_of(full, start, k);
        assert(grid(pointers).len() == expected.len());
        assert forall|i: int| 0 <= i < expected.len() implies grid(pointers)[i] == expected[i] by {
            assert(grid(pointers)[i] == pointers[i]@);
        }
        assert(grid(pointers) =~= expected);
        lemma_same_shape_joined(grid(pointers), kids, kids.len());
    }
    pointers
}

/// Grids of one shape have as many elements.
proof fn lemma_same_shape_joined<A, B>(a: Seq<Seq<A>>, b: Seq<Seq<B>>, k: nat)
    requires
        same_shape(a, b),
        k <= a.len(),
    ensures
        joined(a, k).len() == joined(b, k).len(),
    decreases k,
{
    if k > 0 {
        lemma_same_shape_joined(a, b, (k - 1) as nat);
        assert(a[k - 1].len() == b[k - 1].len());
    }
}

impl<T: Scalar, U: Scalar> Serialize for TileNode<T, U> {
    open spec fn encoding(&self, position: nat) -> Seq<u8> {
        tree_bytes(position, self@)
    }

    /// Writes the tree below this node: the nodes in breadth-first order,
    /// each with the offsets at which its children begin.
    fn serialize<W: Sink>(&self, writer: &mut AlignedWriter<W>) -> (r: Result<(), SerializeError>) {
        let ghost start = writer@;
        let ghost root = self@;
        let ghost full = breadth_first(root);
        let mut order: Vec<&TileNode<T, U>> = Vec::new();
        order.push(self);
        let mut offsets: Vec<usize> = Vec::new();
        let mut sink = writer.with(Discard);
        let mut i: usize = 0;
        let ghost mut fuel: nat = node_count(root);
        proof {
            assert(node_models(order@) =~= seq![root]);
            let first = node_models(order@);
            assert(forest_count(first, 1) == forest_count(first, 0) + node_count(root));
        }
        while i < order.len()
            invariant
                i <= order.len(),
                start == old(writer)@,
                writer@ == start,
                root == self@,
                full == breadth_first(root),
                full == breadth_first_from(node_models(order@), i as nat, fuel),
                linked(node_models(order@), i as nat),
                enough_fuel(node_models(order@), i as nat, fuel),
                offsets.len() == i,
                forall|k: int|
                    0 <= k < i ==> (#[trigger] offsets[k]) == offset_of(
                        node_models(order@),
                        start.position,
                        k as nat,
                    ),
                sink@.position == offset_of(node_models(order@), start.position, i as nat),
            decreases fuel,
        {
            let node = order[i];
            let ghost before = node_models(order@);
            let ghost at = sink@.position;
            proof {
                lemma_walk_step(before, i as nat, fuel);
                lemma_walk(before, i as nat, fuel);
                assert(before[i as int] == node@);
            }
            offsets.push(sink.position());
            let placeholders = blank(node);
            match write_node(node, &placeholders, &mut sink) {
                Ok(()) => {},
                Err(e) => {
                    proof {
                        lemma_offset_prefix(full, before, start.position, (i + 1) as nat);
                        lemma_offset_monotone(full, start.position, (i + 1) as nat, full.len());
                        lemma_emitted_len(full, start.position, full.len());
                    }
                    return Err(e);
                },
            }
            proof {
                lemma_model_children(*node);
            }
            let mut r: usize = 0;
            assert(node_models(order@) =~= before + joined(node@.children, 0));
            while r < node.children.len()
                invariant
                    r <= node.children.len(),
                    node@.children == models(node.children),
                    node_models(order@) == before + joined(node@.children, r as nat),
                decreases node.children.len() - r,
            {
                let row = &node.children[r];
                let ghost held = node_models(order@);
                let mut c: usize = 0;
                assert(held =~= held + node@.children[r as int].subrange(0, 0));
                while c < row.len()
                    invariant
                        r < node.children.len(),
                        c <= row.len(),
                        row == node.children[r as int],
                        node@.children == models(node.children),
                        node_models(order@) == held + node@.children[r as int].subrange(
                            0,
                            c as int,
                        ),
                    decreases row.len() - c,
                {
                    let ghost so_far = node_models(order@);
                    order.push(&row[c]);
                    assert(node_models(order@) =~= so_far.push(row[c as int]@));
                    c += 1;
                    assert(node_models(order@) =~= held + node@.children[r as int].subrange(
                        0,
                        c as int,
                    ));
                }
                assert(node@.children[r as int].subrange(0, c as int) =~= node@.children[r as int]);
                assert(before + joined(node@.children, r as nat) + node@.children[r as int]
                    =~= before + joined(node@.children, (r + 1) as nat));
                r += 1;
            }
            proof {
                let now = node_models(order@);
                assert(now == before + flat_children(before[i as int]));
                assert forall|k: int| 0 <= k < i + 1 implies (#[trigger] offsets[k]) == offset_of(
                    now,
                    start.position,
                    k as nat,
                ) by {
                    lemma_offset_prefix(now, before, start.position, k as nat);
                }
                lemma_offset_prefix(now, before, start.position, (i + 1) as nat);
                fuel = (fuel - 1) as nat;
            }
            i += 1;
        }
        proof {
            assert(full == node_models(order@));
            lemma_emitted_len(full, start.position, 0);
            assert(start.written + emitted(full, start.position, 0) =~= start.written);
        }
        let ghost end = sink@.position;
        let mut next: usize = 1;
        let mut k: usize = 0;
        while k < order.len()
            invariant
                k <= order.len(),
                start == old(writer)@,
                full == node_models(order@),
                linked(full, full.len()),
                offsets.len() == order.len(),
                forall|m: int|
                    0 <= m < offsets.len() ==> (#[trigger] offsets[m]) == offset_of(
                        full,
                        start.position,
                        m as nat,
                    ),
                end == offset_of(full, start.position, full.len()),
                end <= usize::MAX,
                next == first_child(full, k as nat),
                next <= order.len(),
                writer@ == start.after(emitted(full, start.position, k as nat), W::keeps()),
            decreases order.len() - k,
        {
            let node = order[k];
            let ghost kids = node@.children;
            proof {
                lemma_model_children(*node);
                assert(full[k as int] == node@);
            }
            let pointers = child_pointers(
                node,
                &offsets,
                next,
                Ghost(full),
                Ghost(start.position),
                Ghost(k as nat),
            );
            next = next + pointers_count(&pointers);
            proof {
                lemma_emit_step(full, start.position, k as nat);
            }
            let ghost so_far = emitted(full, start.position, k as nat);
            let ghost piece = node_bytes(
                offset_of(full, start.position, k as nat),
                node@,
                pointers_of(full, start.position, k as nat),
            );
            write_node(node, &pointers, writer)?;
            assert(start.written + so_far + piece =~= start.written + (so_far + piece));
            k += 1;
        }
        Ok(())
    }
}

} // verus!

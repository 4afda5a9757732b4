//! Walking the nodes of a file that a query region selects.
//!
//! A walk keeps a stack of offsets still to visit, the root at first. It
//! loads no more nodes than the file has bytes: a file holds fewer nodes
//! than bytes, so a walk that needs more has met offsets that lead in a
//! circle, and ends.

use crate::bounds::Region;
use crate::dataset::joined;
use crate::deserialize::reader::Reader;
use crate::deserialize::tree::{
    header_at, payload_at, positions, HeaderModel, PayloadModel, Pointer, TileData, TileNode,
};
use crate::scalar::Scalar;
use std::marker::PhantomData;
use vstd::prelude::*;

verus! {

/// Where a walk stands after it has looked for the next node to yield.
pub ghost struct Step<T, U> {
    /// The payload of the node found, if one was found.
    pub found: Option<PayloadModel<T, U>>,
    /// The offsets still to visit, the next one last.
    pub queue: Seq<nat>,
    /// The number of nodes that may still be loaded.
    pub budget: nat,
    /// Where the reader stands: behind the payload of the node found, else
    /// behind the last header that was read.
    pub position: nat,
}

/// The offsets of a run of pointers.
pub open spec fn pointer_positions<T>(pointers: Seq<Pointer<T>>) -> Seq<nat> {
    Seq::new(pointers.len(), |i: int| pointers[i].position as nat)
}

/// Whether a walk yields the node with this header: the query covers its
/// bounds and, if only leaves are asked for, it has no children.
pub open spec fn yields<Q: Region>(
    query: Q,
    header: HeaderModel,
    leaves_only: bool,
) -> bool {
    query.covers(header.bounds) && (!leaves_only || header.children.len() == 0)
}

/// The next node that a walk yields. It takes the last offset off the
/// stack and loads the node there. A node to yield ends the search. Of a
/// node that the query only touches, the children are put on the stack, in
/// row-major order. Any other node, and one that cannot be read, is dropped.
/// The search ends without a node when the stack or the budget is used up.
pub open spec fn walk_next<T: Scalar, U: Scalar, Q: Region>(
    bytes: Seq<u8>,
    query: Q,
    queue: Seq<nat>,
    budget: nat,
    position: nat,
    leaves_only: bool,
) -> Step<T, U>
    decreases budget,
{
    if queue.len() == 0 || budget == 0 {
        Step { found: None, queue, budget, position }
    } else {
        let rest = queue.drop_last();
        let left = (budget - 1) as nat;
        match header_at(bytes, queue.last()) {
            None => walk_next::<T, U, Q>(bytes, query, rest, left, position, leaves_only),
            Some((header, payload)) => if yields(query, header, leaves_only) {
                match payload_at::<T, U>(bytes, payload) {
                    Some((data, end)) => Step {
                        found: Some(data),
                        queue: rest,
                        budget: left,
                        position: end,
                    },
                    None => walk_next::<T, U, Q>(bytes, query, rest, left, payload, leaves_only),
                }
            } else if query.touches(header.bounds) {
                walk_next::<T, U, Q>(
                    bytes,
                    query,
                    rest + joined(header.children, header.children.len()),
                    left,
                    payload,
                    leaves_only,
                )
            } else {
                walk_next::<T, U, Q>(bytes, query, rest, left, payload, leaves_only)
            },
        }
    }
}

/// All the payloads that a walk yields, in the order in which it yields
/// them.
pub open spec fn walk_all<T: Scalar, U: Scalar, Q: Region>(
    bytes: Seq<u8>,
    query: Q,
    queue: Seq<nat>,
    budget: nat,
    leaves_only: bool,
) -> Seq<PayloadModel<T, U>>
    decreases budget,
{
    if queue.len() == 0 || budget == 0 {
        Seq::empty()
    } else {
        let rest = queue.drop_last();
        let left = (budget - 1) as nat;
        match header_at(bytes, queue.last()) {
            None => walk_all::<T, U, Q>(bytes, query, rest, left, leaves_only),
            Some((header, payload)) => if yields(query, header, leaves_only) {
                match payload_at::<T, U>(bytes, payload) {
                    Some((data, _)) => seq![data] + walk_all::<T, U, Q>(
                        bytes,
                        query,
                        rest,
                        left,
                        leaves_only,
                    ),
                    None => walk_all::<T, U, Q>(bytes, query, rest, left, leaves_only),
                }
            } else if query.touches(header.bounds) {
                walk_all::<T, U, Q>(
                    bytes,
                    query,
                    rest + joined(header.children, header.children.len()),
                    left,
                    leaves_only,
                )
            } else {
                walk_all::<T, U, Q>(bytes, query, rest, left, leaves_only)
            },
        }
    }
}

/// A walk yields its next node and then what the walk from there yields; a
/// node found has used up some of the budget.
pub proof fn lemma_walk_all<T: Scalar, U: Scalar, Q: Region>(
    bytes: Seq<u8>,
    query: Q,
    queue: Seq<nat>,
    budget: nat,
    position: nat,
    leaves_only: bool,
)
    ensures
        ({
            let step = walk_next::<T, U, Q>(bytes, query, queue, budget, position, leaves_only);
            &&& step.budget <= budget
            &&& step.found is Some ==> step.budget < budget
            &&& walk_all::<T, U, Q>(bytes, query, queue, budget, leaves_only) == match step.found {
                Some(data) => seq![data] + walk_all::<T, U, Q>(
                    bytes,
                    query,
                    step.queue,
                    step.budget,
                    leaves_only,
                ),
                None => Seq::empty(),
            }
        }),
    decreases budget,
{
    if queue.len() == 0 || budget == 0 {
    } else {
        let rest = queue.drop_last();
        let left = (budget - 1) as nat;
        match header_at(bytes, queue.last()) {
            None => {
                lemma_walk_all::<T, U, Q>(bytes, query, rest, left, position, leaves_only);
            },
            Some((header, payload)) => {
                if yields(query, header, leaves_only) {
                    match payload_at::<T, U>(bytes, payload) {
                        Some((data, _)) => {},
                        None => {
                            lemma_walk_all::<T, U, Q>(
                                bytes,
                                query,
                                rest,
                                left,
                                payload,
                                leaves_only,
                            );
                        },
                    }
                } else if query.touches(header.bounds) {
                    lemma_walk_all::<T, U, Q>(
                        bytes,
                        query,
                        rest + joined(header.children, header.children.len()),
                        left,
                        payload,
                        leaves_only,
                    );
                } else {
                    lemma_walk_all::<T, U, Q>(bytes, query, rest, left, payload, leaves_only);
                }
            },
        }
    }
}

/// Puts the children of a node on the stack, in row-major order.
fn push_children<T>(node: &TileNode<T>, queue: &mut Vec<Pointer<T>>)
    ensures
        pointer_positions(final(queue)@) == pointer_positions(old(queue)@) + joined(
            node@.children,
            node@.children.len(),
        ),
{
    let ghost before = pointer_positions(queue@);
    let ghost kids = node@.children;
    let mut r: usize = 0;
    assert(before =~= before + joined(kids, 0));
    while r < node.children.len()
        invariant
            r <= node.children.len(),
            kids == positions(node.children),
            pointer_positions(queue@) == before + joined(kids, r as nat),
        decreases node.children.len() - r,
    {
        let row = &node.children[r];
        let ghost held = pointer_positions(queue@);
        let mut c: usize = 0;
        assert(held =~= held + kids[r as int].subrange(0, 0));
        while c < row.len()
            invariant
                r < node.children.len(),
                c <= row.len(),
                row == node.children[r as int],
                kids == positions(node.children),
                pointer_positions(queue@) == held + kids[r as int].subrange(0, c as int),
            decreases row.len() - c,
        {
            let ghost so_far = pointer_positions(queue@);
            queue.push(row[c]);
            assert(pointer_positions(queue@) =~= so_far.push(row[c as int].position as nat));
            c += 1;
            assert(pointer_positions(queue@) =~= held + kids[r as int].subrange(0, c as int));
        }
        assert(kids[r as int].subrange(0, c as int) =~= kids[r as int]);
        assert(before + joined(kids, r as nat) + kids[r as int] =~= before + joined(
            kids,
            (r + 1) as nat,
        ));
        r += 1;
    }
}

/// Looks for the next node that a walk yields.
fn advance<'a, T, U, Q>(
    reader: &mut Reader<'a>,
    query: &Q,
    queue: &mut Vec<Pointer<T>>,
    budget: &mut usize,
    leaves_only: bool,
) -> (r: Option<TileData<T, U>>) where T: Scalar, U: Scalar, Q: Region
    ensures
        final(reader).data@ == old(reader).data@,
        ({
            let step = walk_next::<T, U, Q>(
                old(reader).data@,
                *query,
                pointer_positions(old(queue)@),
                *old(budget) as nat,
                old(reader).position as nat,
                leaves_only,
            );
            &&& match r {
                Some(data) => step.found == Some(data@),
                None => step.found is None,
            }
            &&& pointer_positions(final(queue)@) == step.queue
            &&& *final(budget) == step.budget
            &&& final(reader).position == step.position
        }),
{
    let ghost bytes = reader.data@;
    let ghost target = walk_next::<T, U, Q>(
        bytes,
        *query,
        pointer_positions(queue@),
        *budget as nat,
        reader.position as nat,
        leaves_only,
    );
    while *budget > 0 && queue.len() > 0
        invariant
            reader.data@ == bytes,
            bytes == old(reader).data@,
            target == walk_next::<T, U, Q>(
                bytes,
                *query,
                pointer_positions(old(queue)@),
                *old(budget) as nat,
                old(reader).position as nat,
                leaves_only,
            ),
            target == walk_next::<T, U, Q>(
                bytes,
                *query,
                pointer_positions(queue@),
                *budget as nat,
                reader.position as nat,
                leaves_only,
            ),
        decreases *budget,
    {
        let ghost stack = pointer_positions(queue@);
        let current = match queue.pop() {
            Some(pointer) => pointer,
            None => {
                return None;
            },
        };
        assert(pointer_positions(queue@) =~= stack.drop_last());
        assert(stack.last() == current.position);
        *budget = *budget - 1;
        match reader.load(&current) {
            None => {},
            Some(node) => {
                let covered = query.contains(&node.bounds);
                if covered && (!leaves_only || node.children.len() == 0) {
                    match reader.read::<TileData<T, U>>() {
                        Some(data) => {
                            return Some(data);
                        },
                        None => {},
                    }
                } else if query.intersects(&node.bounds) {
                    push_children(&node, queue);
                }
            },
        }
    }
    None
}

/// A walk that yields every node that the query covers, at whatever depth
/// it is met, and goes no deeper there.
pub struct ContainsIterator<'a, DataType, AggregateType, Query> {
    pub query: Query,
    pub reader: Reader<'a>,
    pub queue: Vec<Pointer<DataType>>,
    /// The number of nodes that may still be loaded.
    pub budget: usize,
    pub _marker: PhantomData<AggregateType>,
    /// The number of nodes yielded so far.
    pub nodes_visited: usize,
}

/// A walk that yields only the leaves that the query covers: it descends to
/// the leaves even below a node that the query covers.
pub struct NaiveIterator<'a, DataType, AggregateType, Query> {
    pub query: Query,
    pub reader: Reader<'a>,
    pub queue: Vec<Pointer<DataType>>,
    /// The number of nodes that may still be loaded.
    pub budget: usize,
    pub _marker: PhantomData<AggregateType>,
    /// The number of nodes yielded so far.
    pub nodes_visited: usize,
}

impl<'a, DataType, AggregateType, Query> ContainsIterator<'a, DataType, AggregateType, Query> {
    /// The count of nodes yielded cannot overflow.
    pub open spec fn wf(&self) -> bool {
        self.nodes_visited + self.budget <= usize::MAX
    }

    /// A walk from the root of the file behind `reader`.
    pub fn new(reader: Reader<'a>, query: Query) -> (r: Self)
        ensures
            r.wf(),
            r.query == query,
            r.reader.data@ == reader.data@,
            pointer_positions(r.queue@) == seq![0nat],
            r.reader.position == reader.position,
            r.budget == reader.data@.len(),
            r.nodes_visited == 0,
    {
        let mut queue: Vec<Pointer<DataType>> = Vec::new();
        queue.push(Pointer::default());
        let budget = reader.data.len();
        assert(pointer_positions(queue@) =~= seq![0nat]);
        ContainsIterator { query, reader, queue, budget, _marker: PhantomData, nodes_visited: 0 }
    }
}

impl<'a, DataType, AggregateType, Query> ContainsIterator<
    'a,
    DataType,
    AggregateType,
    Query,
> where DataType: Scalar, AggregateType: Scalar, Query: Region {
    /// The payload of the next node that the query covers, if there is one.
    pub fn next(&mut self) -> (r: Option<TileData<DataType, AggregateType>>)
        requires
            old(self).wf(),
        ensures
            final(self).wf(),
            final(self).query == old(self).query,
            final(self).reader.data@ == old(self).reader.data@,
            ({
                let step = walk_next::<DataType, AggregateType, Query>(
                    old(self).reader.data@,
                    old(self).query,
                    pointer_positions(old(self).queue@),
                    old(self).budget as nat,
                    old(self).reader.position as nat,
                    false,
                );
                &&& match r {
                    Some(data) => step.found == Some(data@),
                    None => step.found is None,
                }
                &&& pointer_positions(final(self).queue@) == step.queue
                &&& final(self).budget == step.budget
                &&& final(self).reader.position == step.position
                &&& final(self).nodes_visited == old(self).nodes_visited + if r is Some {
                    1nat
                } else {
                    0nat
                }
            }),
    {
        proof {
            lemma_walk_all::<DataType, AggregateType, Query>(
                self.reader.data@,
                self.query,
                pointer_positions(self.queue@),
                self.budget as nat,
                self.reader.position as nat,
                false,
            );
        }
        let found = advance::<DataType, AggregateType, Query>(
            &mut self.reader,
            &self.query,
            &mut self.queue,
            &mut self.budget,
            false,
        );
        if found.is_some() {
            self.nodes_visited = self.nodes_visited + 1;
        }
        found
    }
}

impl<'a, DataType, AggregateType, Query> NaiveIterator<'a, DataType, AggregateType, Query> {
    /// The count of nodes yielded cannot overflow.
    pub open spec fn wf(&self) -> bool {
        self.nodes_visited + self.budget <= usize::MAX
    }

    /// A walk from the root of the file behind `reader`.
    pub fn new(reader: Reader<'a>, query: Query) -> (r: Self)
        ensures
            r.wf(),
            r.query == query,
            r.reader.data@ == reader.data@,
            pointer_positions(r.queue@) == seq![0nat],
            r.reader.position == reader.position,
            r.budget == reader.data@.len(),
            r.nodes_visited == 0,
    {
        let mut queue: Vec<Pointer<DataType>> = Vec::new();
        queue.push(Pointer::default());
        let budget = reader.data.len();
        assert(pointer_positions(queue@) =~= seq![0nat]);
        NaiveIterator { query, reader, queue, budget, _marker: PhantomData, nodes_visited: 0 }
    }
}

impl<'a, DataType, AggregateType, Query> NaiveIterator<
    'a,
    DataType,
    AggregateType,
    Query,
> where DataType: Scalar, AggregateType: Scalar, Query: Region {
    /// The payload of the next leaf that the query covers, if there is one.
    pub fn next(&mut self) -> (r: Option<TileData<DataType, AggregateType>>)
        requires
            old(self).wf(),
        ensures
            final(self).wf(),
            final(self).query == old(self).query,
            final(self).reader.data@ == old(self).reader.data@,
            ({
                let step = walk_next::<DataType, AggregateType, Query>(
                    old(self).reader.data@,
                    old(self).query,
                    pointer_positions(old(self).queue@),
                    old(self).budget as nat,
                    old(self).reader.position as nat,
                    true,
                );
                &&& match r {
                    Some(data) => step.found == Some(data@),
                    None => step.found is None,
                }
                &&& pointer_positions(final(self).queue@) == step.queue
                &&& final(self).budget == step.budget
                &&& final(self).reader.position == step.position
                &&& final(self).nodes_visited == old(self).nodes_visited + if r is Some {
                    1nat
                } else {
                    0nat
                }
            }),
    {
        proof {
            lemma_walk_all::<DataType, AggregateType, Query>(
                self.reader.data@,
                self.query,
                pointer_positions(self.queue@),
                self.budget as nat,
                self.reader.position as nat,
                true,
            );
        }
        let found = advance::<DataType, AggregateType, Query>(
            &mut self.reader,
            &self.query,
            &mut self.queue,
            &mut self.budget,
            true,
        );
        if found.is_some() {
            self.nodes_visited = self.nodes_visited + 1;
        }
        found
    }
}

} // verus!

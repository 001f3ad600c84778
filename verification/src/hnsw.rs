//! Nodes of the HNSW graph: each vector's neighbor lists, one per layer.

use crate::error::VajraError;
use crate::types::VectorId;
use vstd::prelude::*;

verus! {

/// The neighbors of a node at one layer: a `smallvec::SmallVec` that holds
/// up to 32 ids inline.
#[derive(Debug)]
#[verifier::external_body]
pub struct Neighbors {
    list: smallvec::SmallVec<[VectorId; 32]>,
}

/// The ids a neighbor list holds, in order.
pub uninterp spec fn neighbors_of(v: Neighbors) -> Seq<VectorId>;

/// Calls `SmallVec::new`, which makes an empty vector.
#[verifier::external_body]
fn neighbors_new() -> (r: Neighbors)
    ensures
        neighbors_of(r) == Seq::<VectorId>::empty(),
{
    Neighbors { list: smallvec::SmallVec::new() }
}

impl Clone for Neighbors {
    /// Calls `SmallVec::clone`, which copies the elements in order.
    #[verifier::external_body]
    fn clone(&self) -> (r: Self)
        ensures
            neighbors_of(r) == neighbors_of(*self),
    {
        Neighbors { list: self.list.clone() }
    }
}

/// Calls `SmallVec::clear`, which removes every element.
#[verifier::external_body]
fn neighbors_clear(v: &mut Neighbors)
    ensures
        neighbors_of(*final(v)) == Seq::<VectorId>::empty(),
{
    v.list.clear()
}

impl Neighbors {
    /// Remove every neighbor.
    pub fn clear(&mut self)
        ensures
            neighbors_of(*final(self)) == Seq::<VectorId>::empty(),
    {
        neighbors_clear(self)
    }

    /// Append a neighbor.
    pub fn push(&mut self, id: VectorId)
        requires
            neighbors_of(*old(self)).len() < usize::MAX,
        ensures
            neighbors_of(*final(self)) == neighbors_of(*old(self)).push(id),
    {
        neighbors_push(self, id)
    }
}

/// Calls `SmallVec::len`, the number of elements.
#[verifier::external_body]
fn neighbors_len(v: &Neighbors) -> (r: usize)
    ensures
        r == neighbors_of(*v).len(),
{
    v.list.len()
}

/// Indexes a `SmallVec` (its `Index` impl), which returns the element at
/// `i` and panics when `i` is out of range.
#[verifier::external_body]
fn neighbors_get(v: &Neighbors, i: usize) -> (r: VectorId)
    requires
        i < neighbors_of(*v).len(),
    ensures
        r == neighbors_of(*v)[i as int],
{
    v.list[i]
}

/// Calls `SmallVec::push`, which appends `x`; it panics when the length
/// would overflow `usize`.
#[verifier::external_body]
fn neighbors_push(v: &mut Neighbors, x: VectorId)
    requires
        neighbors_of(*old(v)).len() < usize::MAX,
    ensures
        neighbors_of(*final(v)) == neighbors_of(*old(v)).push(x),
{
    v.list.push(x)
}

/// Calls `SmallVec::swap_remove`, which swaps the element at `i` with the
/// last one and removes and returns the last (now the one that was at `i`);
/// it panics when `i` is out of range.
#[verifier::external_body]
fn neighbors_swap_remove(v: &mut Neighbors, i: usize) -> (r: VectorId)
    requires
        i < neighbors_of(*old(v)).len(),
    ensures
        r == neighbors_of(*old(v))[i as int],
        neighbors_of(*final(v)) == neighbors_of(*old(v)).update(
            i as int,
            neighbors_of(*old(v)).last(),
        ).drop_last(),
{
    v.list.swap_remove(i)
}

/// Calls `SmallVec::as_slice`, the elements as a slice.
#[verifier::external_body]
fn neighbors_as_slice(v: &Neighbors) -> (r: &[VectorId])
    ensures
        r@ == neighbors_of(*v),
{
    v.list.as_slice()
}

/// The position of the first `x` in `v`.
fn position_in(v: &Neighbors, x: VectorId) -> (r: Option<usize>)
    ensures
        match neighbors_of(*v).index_of_first(x) {
            Some(k) => r matches Some(j) && j == k,
            None => r is None,
        },
{
    let ghost c = neighbors_of(*v);
    proof {
        c.index_of_first_ensures(x);
    }
    let n = neighbors_len(v);
    let mut i: usize = 0;
    while i < n
        invariant
            i <= n,
            n == c.len(),
            c == neighbors_of(*v),
            forall|j: int| 0 <= j < i ==> c[j] != x,
            match c.index_of_first(x) {
                Some(k) => 0 <= k < c.len() && c[k] == x && forall|j: int| 0 <= j < k ==> c[j] != x,
                None => !c.contains(x),
            },
        decreases n - i,
    {
        if neighbors_get(v, i) == x {
            return Some(i);
        }
        i = i + 1;
    }
    None
}

/// A node in the HNSW graph: one vector and its neighbors at each layer of
/// the hierarchy.
#[derive(Debug, Clone)]
pub struct HnswNode {
    /// The vector ID this node represents
    pub vector_id: VectorId,
    /// The maximum layer this node exists in (0 = bottom only)
    pub max_layer: usize,
    /// Connections at each layer: `connections[i]` holds the neighbors at
    /// layer `i`.
    pub connections: Vec<Neighbors>,
}

/// The neighbor lists after adding `x` at `layer`: appended when the layer
/// exists and does not hold it yet, unchanged otherwise.
pub open spec fn layers_after_add(ls: Seq<Seq<VectorId>>, layer: int, x: VectorId) -> Seq<
    Seq<VectorId>,
> {
    if 0 <= layer < ls.len() && !ls[layer].contains(x) {
        ls.update(layer, ls[layer].push(x))
    } else {
        ls
    }
}

/// The neighbor lists after removing `x` at `layer`: its first occurrence
/// takes the last neighbor, and the list is one shorter; unchanged when the
/// layer does not hold it.
pub open spec fn layers_after_remove(ls: Seq<Seq<VectorId>>, layer: int, x: VectorId) -> Seq<
    Seq<VectorId>,
> {
    if 0 <= layer < ls.len() && ls[layer].contains(x) {
        let c = ls[layer];
        let p = c.index_of_first(x).unwrap();
        ls.update(layer, c.update(p, c.last()).drop_last())
    } else {
        ls
    }
}

/// No layer holds a neighbor twice.
pub open spec fn layers_distinct(ls: Seq<Seq<VectorId>>) -> bool {
    forall|l: int| 0 <= l < ls.len() ==> (#[trigger] ls[l]).no_duplicates()
}

/// Adding and removing connections keeps every layer free of repeated
/// neighbors.
pub proof fn lemma_connections_stay_distinct(ls: Seq<Seq<VectorId>>, layer: int, x: VectorId)
    requires
        layers_distinct(ls),
    ensures
        layers_distinct(layers_after_add(ls, layer, x)),
        layers_distinct(layers_after_remove(ls, layer, x)),
{
    if 0 <= layer < ls.len() && !ls[layer].contains(x) {
        let c = ls[layer].push(x);
        assert forall|i: int, j: int| 0 <= i < c.len() && 0 <= j < c.len() && i != j implies c[i]
            != c[j] by {
            if i == c.len() - 1 {
                assert(ls[layer][j] == c[j]);
            } else if j == c.len() - 1 {
                assert(ls[layer][i] == c[i]);
            }
        }
        assert(c.no_duplicates());
    }
    if 0 <= layer < ls.len() && ls[layer].contains(x) {
        let c = ls[layer];
        c.index_of_first_ensures(x);
        let p = c.index_of_first(x).unwrap();
        let d = c.update(p, c.last()).drop_last();
        assert forall|i: int, j: int| 0 <= i < d.len() && 0 <= j < d.len() && i != j implies d[i]
            != d[j] by {
            let ii = if i == p { c.len() - 1 } else { i };
            let jj = if j == p { c.len() - 1 } else { j };
            assert(d[i] == c[ii]);
            assert(d[j] == c[jj]);
        }
        assert(d.no_duplicates());
    }
}

/// The neighbor lists of a node, layer by layer.
pub open spec fn layers_of(cs: Seq<Neighbors>) -> Seq<Seq<VectorId>> {
    cs.map_values(|c: Neighbors| neighbors_of(c))
}

impl HnswNode {
    /// The node's neighbor lists, layer by layer.
    pub open spec fn layers(&self) -> Seq<Seq<VectorId>> {
        layers_of(self.connections@)
    }

    /// Create a node for `vector_id` present in layers `0..=max_layer`, with
    /// no neighbors yet.
    pub fn new(vector_id: VectorId, max_layer: usize) -> (r: Self)
        requires
            max_layer < usize::MAX,
        ensures
            r.vector_id == vector_id,
            r.max_layer == max_layer,
            r.layers() == Seq::new((max_layer + 1) as nat, |i: int| Seq::<VectorId>::empty()),
    {
        let mut connections: Vec<Neighbors> = Vec::new();
        let mut i: usize = 0;
        while i <= max_layer
            invariant
                i <= max_layer + 1,
                max_layer < usize::MAX,
                connections@.len() == i,
                forall|k: int| 0 <= k < i ==> #[trigger] neighbors_of(connections@[k]) == Seq::<
                    VectorId,
                >::empty(),
            decreases max_layer + 1 - i,
        {
            connections.push(neighbors_new());
            i = i + 1;
        }
        assert(layers_of(connections@) =~= Seq::new(
            (max_layer + 1) as nat,
            |i: int| Seq::<VectorId>::empty(),
        ));
        HnswNode { vector_id, max_layer, connections }
    }

    /// Get connections at a specific layer (none beyond the node's layers).
    pub fn connections_at(&self, layer: usize) -> (r: &[VectorId])
        ensures
            layer < self.layers().len() ==> r@ == self.layers()[layer as int],
            layer >= self.layers().len() ==> r@ == Seq::<VectorId>::empty(),
    {
        if layer < self.connections.len() {
            neighbors_as_slice(&self.connections[layer])
        } else {
            let empty: &[VectorId] = &[];
            assert(empty@ =~= Seq::<VectorId>::empty());
            empty
        }
    }

    /// The neighbor list at a specific layer, to change in place (none
    /// beyond the node's layers).
    pub fn connections_at_mut(&mut self, layer: usize) -> (r: Option<&mut Neighbors>)
        ensures
            (r is Some) == (layer < old(self).connections@.len()),
            match r {
                Some(c) => {
                    &&& *c == old(self).connections@[layer as int]
                    &&& final(self).connections@ == old(self).connections@.update(layer as int, *final(c))
                    &&& final(self).vector_id == old(self).vector_id
                    &&& final(self).max_layer == old(self).max_layer
                },
                None => *final(self) == *old(self),
            },
    {
        if layer < self.connections.len() {
            Some(&mut self.connections[layer])
        } else {
            None
        }
    }

    /// Get the number of connections at a specific layer (0 beyond the
    /// node's layers).
    pub fn connection_count(&self, layer: usize) -> (r: usize)
        ensures
            layer < self.layers().len() ==> r == self.layers()[layer as int].len(),
            layer >= self.layers().len() ==> r == 0,
    {
        if layer < self.connections.len() {
            neighbors_len(&self.connections[layer])
        } else {
            0
        }
    }

    /// Whether `neighbor` is a connection at `layer`.
    fn has_connection(&self, layer: usize, neighbor: VectorId) -> (r: bool)
        requires
            layer < self.layers().len(),
        ensures
            r == self.layers()[layer as int].contains(neighbor),
    {
        let c = &self.connections[layer];
        assert(self.layers()[layer as int] == neighbors_of(*c));
        let n = neighbors_len(c);
        let mut i: usize = 0;
        while i < n
            invariant
                i <= n,
                n == neighbors_of(*c).len(),
                layer < self.layers().len(),
                self.layers()[layer as int] == neighbors_of(*c),
                forall|j: int| 0 <= j < i ==> neighbors_of(*c)[j] != neighbor,
            decreases n - i,
        {
            if neighbors_get(c, i) == neighbor {
                assert(self.layers()[layer as int][i as int] == neighbor);
                return true;
            }
            i = i + 1;
        }
        false
    }

    /// Add a connection at a specific layer. Returns true if the connection
    /// was added: the layer exists and did not hold it yet.
    pub fn add_connection(&mut self, layer: usize, neighbor: VectorId) -> (r: bool)
        requires
            layer < old(self).layers().len() ==> old(self).layers()[layer as int].len() < usize::MAX,
        ensures
            r == (layer < old(self).layers().len() && !old(self).layers()[layer as int].contains(
                neighbor,
            )),
            final(self).vector_id == old(self).vector_id,
            final(self).max_layer == old(self).max_layer,
            final(self).layers() == layers_after_add(old(self).layers(), layer as int, neighbor),
    {
        if layer < self.connections.len() {
            if !self.has_connection(layer, neighbor) {
                let ghost before = self.connections@;
                neighbors_push(&mut self.connections[layer], neighbor);
                assert(self.layers() =~= layers_of(before).update(
                    layer as int,
                    layers_of(before)[layer as int].push(neighbor),
                ));
                return true;
            }
        }
        false
    }

    /// Remove a connection at a specific layer: the last connection takes
    /// its place. Returns true if the connection was removed.
    pub fn remove_connection(&mut self, layer: usize, neighbor: VectorId) -> (r: bool)
        ensures
            r == (layer < old(self).layers().len() && old(self).layers()[layer as int].contains(
                neighbor,
            )),
            final(self).vector_id == old(self).vector_id,
            final(self).max_layer == old(self).max_layer,
            final(self).layers() == layers_after_remove(old(self).layers(), layer as int, neighbor),
    {
        if layer >= self.connections.len() {
            return false;
        }
        let ghost before = self.connections@;
        let ghost c = neighbors_of(before[layer as int]);
        assert(old(self).layers()[layer as int] == c);
        proof {
            c.index_of_first_ensures(neighbor);
        }
        match position_in(&self.connections[layer], neighbor) {
            Some(i) => {
                neighbors_swap_remove(&mut self.connections[layer], i);
                assert(self.layers() =~= layers_of(before).update(
                    layer as int,
                    c.update(i as int, c.last()).drop_last(),
                ));
                true
            },
            None => false,
        }
    }
}

/// Why the index refuses to insert vector `id` of length `actual`, checked
/// in order: a length other than the index's dimension, a full index
/// (`current` vectors of at most `max`), an id already present.
pub open spec fn insert_refusal(
    dimension: usize,
    actual: usize,
    current: usize,
    max: usize,
    id: VectorId,
    present: bool,
) -> Option<VajraError> {
    if actual != dimension {
        Some(VajraError::DimensionMismatch { expected: dimension, actual })
    } else if current >= max {
        Some(VajraError::CapacityExceeded { current, max })
    } else if present {
        Some(VajraError::VectorAlreadyExists { id })
    } else {
        None
    }
}

/// Decide whether the index admits vector `id` of length `actual`, given its
/// dimension, its `current` count, its capacity `max` and whether `id` is
/// already `present`.
pub fn check_insert(
    dimension: usize,
    actual: usize,
    current: usize,
    max: usize,
    id: VectorId,
    present: bool,
) -> (r: Result<(), VajraError>)
    ensures
        match insert_refusal(dimension, actual, current, max, id, present) {
            None => r is Ok,
            Some(e) => r == Err::<(), VajraError>(e),
        },
{
    if actual != dimension {
        return Err(VajraError::DimensionMismatch { expected: dimension, actual });
    }
    if current >= max {
        return Err(VajraError::CapacityExceeded { current, max });
    }
    if present {
        return Err(VajraError::VectorAlreadyExists { id });
    }
    Ok(())
}

/// The entry point of the graph after a node of top layer `layer` joins it:
/// the new node when the graph had none or when the node reaches above the
/// current entry point's layer, the current entry point otherwise.
pub open spec fn entry_point_after(current: Option<(VectorId, usize)>, id: VectorId, layer: usize) -> (
    VectorId,
    usize,
) {
    match current {
        Some((e, l)) => if layer > l {
            (id, layer)
        } else {
            (e, l)
        },
        None => (id, layer),
    }
}

/// The entry point of the graph after node `id` of top layer `layer` joins it.
pub fn next_entry_point(current: Option<(VectorId, usize)>, id: VectorId, layer: usize) -> (r: (
    VectorId,
    usize,
))
    ensures
        r == entry_point_after(current, id, layer),
{
    match current {
        Some((e, l)) => if layer > l {
            (id, layer)
        } else {
            (e, l)
        },
        None => (id, layer),
    }
}

/// Decide whether the index can delete vector `id`: only one that is
/// `present`.
pub fn check_delete(id: VectorId, present: bool) -> (r: Result<(), VajraError>)
    ensures
        present ==> r is Ok,
        !present ==> r == Err::<(), VajraError>(VajraError::VectorNotFound { id }),
{
    if present {
        Ok(())
    } else {
        Err(VajraError::VectorNotFound { id })
    }
}

} // verus!

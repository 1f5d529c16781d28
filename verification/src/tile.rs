//! Tiles: direction-indexed sockets, edge strips, stable tile identifiers and matchers.
use core::marker::PhantomData;

use vstd::prelude::*;
use vstd::std_specs::cmp::PartialEqSpec;
use vstd::std_specs::iter::IteratorSpec;

use crate::topology::{Direction, HexDirection, SquareDirection};
use crate::transform::{
    D4, D6, DirectionTransform, EdgeTransform, d4_apply_direction, d4_inverse, d6_apply_direction, d6_inverse,
    lemma_d4_inverse, lemma_d4_inverse_undoes, lemma_d6_inverse, lemma_d6_inverse_undoes,
};

verus! {

/// Ordered samples along one tile edge.
///
/// Opposite edges must use the same screen-space sample order so compatible
/// facing strips can be compared directly. [`EdgeTransform`] supplies the
/// reversal needed to retain that order after rotations and reflections.
#[derive(Clone, Debug, PartialEq, Eq, Hash)]
pub struct EdgeStrip<T> {
    samples: Vec<T>,
}

impl<T> View for EdgeStrip<T> {
    type V = Seq<T>;

    /// The samples in order.
    closed spec fn view(&self) -> Seq<T> {
        self.samples@
    }
}

impl<T> EdgeStrip<T> {
    pub fn new(samples: Vec<T>) -> (r: Self)
        ensures
            r@ == samples@,
    {
        EdgeStrip { samples }
    }

    pub fn len(&self) -> (r: usize)
        ensures
            r == self@.len(),
    {
        self.samples.len()
    }

    pub fn is_empty(&self) -> (r: bool)
        ensures
            r == (self@.len() == 0),
    {
        self.samples.len() == 0
    }

    pub fn as_slice(&self) -> (r: &[T])
        ensures
            r@ == self@,
    {
        self.samples.as_slice()
    }

    /// Iterates over the samples in order.
    pub fn iter(&self) -> (r: core::slice::Iter<'_, T>)
        ensures
            r.remaining().unref() == self@,
    {
        let r = self.samples.as_slice().iter();
        proof {
            broadcast use vstd::std_specs::slice::axiom_spec_slice_iter;
            assert(r.remaining().unref() =~= self.samples@);
        }
        r
    }

    pub fn into_vec(self) -> (r: Vec<T>)
        ensures
            r@ == self@,
    {
        self.samples
    }
}

impl<T: Clone> EdgeStrip<T> {
    /// The samples in reverse order.
    pub fn reversed(&self) -> (r: Self)
        ensures
            r@.len() == self@.len(),
            forall|i: int| 0 <= i < self@.len() ==> cloned(self@[self@.len() - 1 - i], #[trigger] r@[i]),
    {
        let len = self.samples.len();
        let mut samples: Vec<T> = Vec::with_capacity(len);
        let mut index: usize = 0;
        while index < len
            invariant
                len == self.samples@.len(),
                index <= len,
                samples@.len() == index,
                forall|i: int| 0 <= i < index ==> cloned(self.samples@[len - 1 - i], #[trigger] samples@[i]),
            decreases len - index,
        {
            samples.push(self.samples[len - 1 - index].clone());
            index += 1;
        }
        EdgeStrip { samples }
    }

    /// A sample-by-sample clone that keeps the order.
    fn duplicate(&self) -> (r: Self)
        ensures
            r@.len() == self@.len(),
            forall|i: int| 0 <= i < self@.len() ==> cloned(self@[i], #[trigger] r@[i]),
    {
        let len = self.samples.len();
        let mut samples: Vec<T> = Vec::with_capacity(len);
        let mut index: usize = 0;
        while index < len
            invariant
                len == self.samples@.len(),
                index <= len,
                samples@.len() == index,
                forall|i: int| 0 <= i < index ==> cloned(self.samples@[i], #[trigger] samples@[i]),
            decreases len - index,
        {
            samples.push(self.samples[index].clone());
            index += 1;
        }
        EdgeStrip { samples }
    }
}

impl<T> From<Vec<T>> for EdgeStrip<T> {
    fn from(samples: Vec<T>) -> (r: Self)
        ensures
            r@ == samples@,
    {
        EdgeStrip { samples }
    }
}

impl<T> vstd::std_specs::convert::FromSpecImpl<Vec<T>> for EdgeStrip<T> {
    open spec fn obeys_from_spec() -> bool {
        true
    }

    closed spec fn from_spec(samples: Vec<T>) -> Self {
        EdgeStrip { samples }
    }
}

/// One value for every member of a finite [`Direction`] set, indexed by direction.
#[derive(Debug, PartialEq, Eq, Hash)]
pub struct SocketMap<D: Direction, S> {
    sockets: Vec<S>,
    direction: PhantomData<D>,
}

impl<D: Direction, S> View for SocketMap<D, S> {
    type V = Seq<S>;

    /// The sockets in direction-index order.
    closed spec fn view(&self) -> Seq<S> {
        self.sockets@
    }
}

impl<D: Direction, S> SocketMap<D, S> {
    #[verifier::type_invariant]
    spec fn inv(self) -> bool {
        self.sockets@.len() == D::spec_count()
    }

    /// Constructs a complete map in direction-index order.
    pub fn from_fn(make_socket: impl Fn(D) -> S) -> (r: Self)
        requires
            forall|direction: D| call_requires(make_socket, (direction,)),
        ensures
            r@.len() == D::spec_count(),
            forall|i: int| 0 <= i < D::spec_count() ==> call_ensures(make_socket, (D::spec_from_index(i as nat),), #[trigger] r@[i]),
    {
        proof {
            D::lemma_direction_laws();
        }
        let count = D::count();
        let mut sockets: Vec<S> = Vec::with_capacity(count);
        let mut index: usize = 0;
        while index < count
            invariant
                count == D::spec_count(),
                index <= count,
                sockets@.len() == index,
                forall|direction: D| call_requires(make_socket, (direction,)),
                forall|i: int| 0 <= i < index ==> call_ensures(make_socket, (D::spec_from_index(i as nat),), #[trigger] sockets@[i]),
            decreases count - index,
        {
            let direction = D::from_index(index);
            sockets.push(make_socket(direction));
            index += 1;
        }
        SocketMap { sockets, direction: PhantomData }
    }

    /// The map's size: one socket per direction.
    pub fn len(&self) -> (r: usize)
        ensures
            r == self@.len(),
            r == D::spec_count(),
    {
        proof {
            use_type_invariant(self);
        }
        self.sockets.len()
    }

    pub fn is_empty(&self) -> (r: bool)
        ensures
            r == (self@.len() == 0),
    {
        self.sockets.len() == 0
    }

    /// The socket of a direction; every direction has one.
    pub fn get(&self, direction: D) -> (r: Option<&S>)
        ensures
            r matches Some(socket) && *socket == self@[direction.spec_index() as int],
    {
        proof {
            use_type_invariant(self);
            D::lemma_direction_laws();
        }
        Some(&self.sockets[direction.index()])
    }

    /// Mutable access to the socket of a direction; every direction has one.
    pub fn get_mut(&mut self, direction: D) -> (r: Option<&mut S>)
        ensures
            r matches Some(socket) && *socket == old(self)@[direction.spec_index() as int]
                && final(self)@ == old(self)@.update(direction.spec_index() as int, *final(socket)),
    {
        proof {
            use_type_invariant(&*self);
            D::lemma_direction_laws();
        }
        let index = direction.index();
        Some(&mut self.sockets[index])
    }

    /// Every direction with its socket, in direction-index order.
    pub fn iter(&self) -> (r: Vec<(D, &S)>)
        ensures
            r@.len() == self@.len(),
            forall|i: int| 0 <= i < r@.len() ==> (#[trigger] r@[i]).0 == D::spec_from_index(i as nat)
                && *r@[i].1 == self@[i],
    {
        proof {
            use_type_invariant(self);
            D::lemma_direction_laws();
        }
        let count = self.sockets.len();
        let mut out: Vec<(D, &S)> = Vec::with_capacity(count);
        let mut index: usize = 0;
        while index < count
            invariant
                count == D::spec_count(),
                count == self.sockets@.len(),
                index <= count,
                out@.len() == index,
                forall|i: int| 0 <= i < out@.len() ==> (#[trigger] out@[i]).0 == D::spec_from_index(i as nat)
                    && *out@[i].1 == self.sockets@[i],
            decreases count - index,
        {
            out.push((D::from_index(index), &self.sockets[index]));
            index += 1;
        }
        out
    }
}

impl<D: Direction, S: Clone> Clone for SocketMap<D, S> {
    fn clone(&self) -> (r: Self)
        ensures
            r@.len() == self@.len(),
            forall|i: int| 0 <= i < self@.len() ==> cloned(self@[i], #[trigger] r@[i]),
    {
        proof {
            use_type_invariant(self);
        }
        SocketMap { sockets: self.sockets.clone(), direction: PhantomData }
    }
}

impl<D: Direction, S> core::ops::Index<D> for SocketMap<D, S> {
    type Output = S;

    fn index(&self, direction: D) -> (r: &S)
        ensures
            *r == self@[direction.spec_index() as int],
    {
        proof {
            use_type_invariant(self);
            D::lemma_direction_laws();
        }
        &self.sockets[direction.index()]
    }
}

impl<D: Direction, S> vstd::std_specs::core::IndexSpecImpl<D> for SocketMap<D, S> {
    /// Every direction has a socket.
    open spec fn index_req(&self, direction: &D) -> bool {
        true
    }
}

impl<D: Direction, S> core::ops::IndexMut<D> for SocketMap<D, S> {
    fn index_mut(&mut self, direction: D) -> (r: &mut S)
        ensures
            *r == old(self)@[direction.spec_index() as int],
            final(self)@ == old(self)@.update(direction.spec_index() as int, *final(r)),
    {
        proof {
            use_type_invariant(&*self);
            D::lemma_direction_laws();
        }
        let index = direction.index();
        &mut self.sockets[index]
    }
}

/// Application payload and edge sockets for one canonical tile.
#[derive(Clone, Debug, PartialEq, Eq, Hash)]
pub struct Tile<P, D: Direction, S> {
    pub payload: P,
    pub sockets: SocketMap<D, S>,
}

/// The local direction whose socket a transformed tile presents in a world direction.
pub open spec fn oriented_local_direction<D: Direction, T: DirectionTransform<D>>(transform: T, world_direction: D) -> D {
    transform.spec_inverse().spec_apply_direction(world_direction)
}

impl<P, D: Direction, S> Tile<P, D, S> {
    pub fn new(payload: P, sockets: SocketMap<D, S>) -> (r: Self)
        ensures
            r.payload == payload,
            r.sockets == sockets,
    {
        Tile { payload, sockets }
    }

    /// Looks up the socket presented in a world-space direction after transformation.
    pub fn oriented_socket<T: DirectionTransform<D>>(&self, transform: T, world_direction: D) -> (r: &S)
        ensures
            *r == self.sockets@[oriented_local_direction(transform, world_direction).spec_index() as int],
    {
        let local_direction = transform.inverse().apply_direction(world_direction);
        &self.sockets[local_direction]
    }
}

impl<P, D: Direction, S: Clone> Tile<P, D, EdgeStrip<S>> {
    /// Returns the edge presented in a world-space direction after transformation.
    ///
    /// The returned strip is normalized to the canonical sample order documented
    /// by [`EdgeStrip`], so facing strips can use direct equality matching.
    pub fn oriented_edge<T: EdgeTransform<D>>(&self, transform: T, world_direction: D) -> (r: EdgeStrip<S>)
        ensures
            ({
                let local = oriented_local_direction(transform, world_direction);
                let edge = self.sockets@[local.spec_index() as int]@;
                &&& r@.len() == edge.len()
                &&& forall|i: int| 0 <= i < edge.len() ==> cloned(
                    if transform.spec_reverses_edge(local) { edge[edge.len() - 1 - i] } else { edge[i] },
                    #[trigger] r@[i],
                )
            }),
    {
        let local_direction = transform.inverse().apply_direction(world_direction);
        let edge = &self.sockets[local_direction];
        if transform.reverses_edge(local_direction) {
            edge.reversed()
        } else {
            edge.duplicate()
        }
    }
}

/// A stable identifier for a tile within one [`TileSet`].
#[derive(Clone, Copy, Debug, PartialEq, Eq, PartialOrd, Ord, Hash, Structural)]
pub struct TileId(pub usize);

impl TileId {
    pub fn new(index: usize) -> (r: Self)
        ensures
            r.0 == index,
    {
        TileId(index)
    }

    pub fn index(self) -> (r: usize)
        ensures
            r == self.0,
    {
        self.0
    }
}

/// A base tile paired with an orientation without copying its payload.
#[derive(Clone, Copy, Debug, PartialEq, Eq, PartialOrd, Ord, Hash)]
pub struct OrientedTileId<T> {
    pub tile: TileId,
    pub transform: T,
}

impl<T> OrientedTileId<T> {
    pub fn new(tile: TileId, transform: T) -> (r: Self)
        ensures
            r.tile == tile,
            r.transform == transform,
    {
        OrientedTileId { tile, transform }
    }
}

/// An append-only collection whose tile IDs remain stable.
#[derive(Clone, Debug, PartialEq, Eq, Hash)]
pub struct TileSet<P, D: Direction, S> {
    tiles: Vec<Tile<P, D, S>>,
}

impl<P, D: Direction, S> View for TileSet<P, D, S> {
    type V = Seq<Tile<P, D, S>>;

    /// The tiles in insertion order; a tile's ID is its position.
    closed spec fn view(&self) -> Seq<Tile<P, D, S>> {
        self.tiles@
    }
}

impl<P, D: Direction, S> Default for TileSet<P, D, S> {
    fn default() -> (r: Self)
        ensures
            r@.len() == 0,
    {
        TileSet { tiles: Vec::new() }
    }
}

impl<P, D: Direction, S> TileSet<P, D, S> {
    pub fn new() -> (r: Self)
        ensures
            r@.len() == 0,
    {
        TileSet { tiles: Vec::new() }
    }

    pub fn with_capacity(capacity: usize) -> (r: Self)
        ensures
            r@.len() == 0,
    {
        TileSet { tiles: Vec::with_capacity(capacity) }
    }

    /// Appends a tile; its ID is the number of tiles before it.
    pub fn insert(&mut self, tile: Tile<P, D, S>) -> (r: TileId)
        ensures
            r.0 == old(self)@.len(),
            final(self)@ == old(self)@.push(tile),
    {
        let id = TileId::new(self.tiles.len());
        self.tiles.push(tile);
        id
    }

    pub fn get(&self, id: TileId) -> (r: Option<&Tile<P, D, S>>)
        ensures
            r is Some <==> id.0 < self@.len(),
            r matches Some(tile) ==> *tile == self@[id.0 as int],
    {
        if id.index() < self.tiles.len() {
            Some(&self.tiles[id.index()])
        } else {
            None
        }
    }

    pub fn get_mut(&mut self, id: TileId) -> (r: Option<&mut Tile<P, D, S>>)
        ensures
            r is Some <==> id.0 < old(self)@.len(),
            r matches Some(tile) ==> *tile == old(self)@[id.0 as int]
                && final(self)@ == old(self)@.update(id.0 as int, *final(tile)),
            r is None ==> final(self)@ == old(self)@,
    {
        let index = id.index();
        if index < self.tiles.len() {
            Some(&mut self.tiles[index])
        } else {
            None
        }
    }

    pub fn len(&self) -> (r: usize)
        ensures
            r == self@.len(),
    {
        self.tiles.len()
    }

    pub fn is_empty(&self) -> (r: bool)
        ensures
            r == (self@.len() == 0),
    {
        self.tiles.len() == 0
    }

    /// Every tile with its ID, in insertion order.
    pub fn iter(&self) -> (r: Vec<(TileId, &Tile<P, D, S>)>)
        ensures
            r@.len() == self@.len(),
            forall|i: int| 0 <= i < r@.len() ==> (#[trigger] r@[i]).0 == TileId(i as usize) && *r@[i].1 == self@[i],
    {
        let count = self.tiles.len();
        let mut out: Vec<(TileId, &Tile<P, D, S>)> = Vec::with_capacity(count);
        let mut index: usize = 0;
        while index < count
            invariant
                count == self.tiles@.len(),
                index <= count,
                out@.len() == index,
                forall|i: int| 0 <= i < out@.len() ==> (#[trigger] out@[i]).0 == TileId(i as usize) && *out@[i].1 == self.tiles@[i],
            decreases count - index,
        {
            out.push((TileId::new(index), &self.tiles[index]));
            index += 1;
        }
        out
    }
}

/// Each state of a set that was filled from empty by inserting `inserted`, one tile per step,
/// holds the tiles inserted so far.
proof fn lemma_inserted_prefix<P, D: Direction, S>(states: Seq<TileSet<P, D, S>>, inserted: Seq<Tile<P, D, S>>, k: int)
    requires
        states.len() == inserted.len() + 1,
        states[0]@.len() == 0,
        forall|j: int| 0 < j < states.len() ==> #[trigger] states[j]@ == states[j - 1]@.push(inserted[j - 1]),
        0 <= k < states.len(),
    ensures
        states[k]@ == inserted.take(k),
    decreases k,
{
    if k == 0 {
        assert(states[0]@ =~= inserted.take(0));
    } else {
        lemma_inserted_prefix(states, inserted, k - 1);
        assert(states[k]@ == states[k - 1]@.push(inserted[k - 1]));
        assert(inserted.take(k) =~= inserted.take(k - 1).push(inserted[k - 1]));
    }
}

/// Tile IDs are dense and stable: a set filled from empty by inserting `inserted`, one tile
/// per step, holds after `k` steps exactly the first `k` tiles, the tile with ID `i` being
/// the `i`-th one inserted; an ID valid at one step names the same tile at every later step.
pub proof fn lemma_insert_ids_dense_and_stable<P, D: Direction, S>(
    states: Seq<TileSet<P, D, S>>,
    inserted: Seq<Tile<P, D, S>>,
)
    requires
        states.len() == inserted.len() + 1,
        states[0]@.len() == 0,
        forall|j: int| 0 < j < states.len() ==> #[trigger] states[j]@ == states[j - 1]@.push(inserted[j - 1]),
    ensures
        states.last()@ == inserted,
        forall|k: int| 0 <= k < states.len() ==> (#[trigger] states[k])@.len() == k,
        forall|k: int, i: int| 0 <= k < states.len() && 0 <= i < k ==> #[trigger] states[k]@[i] == inserted[i],
        forall|k: int, m: int, i: int|
            0 <= k <= m < states.len() && 0 <= i < states[k]@.len() ==> #[trigger] states[m]@[i] == #[trigger] states[k]@[i],
{
    assert forall|k: int| 0 <= k < states.len() implies (#[trigger] states[k])@ == inserted.take(k) by {
        lemma_inserted_prefix(states, inserted, k);
    }
    assert(inserted.take(inserted.len() as int) =~= inserted);
}

/// A square tile turned by `transform` presents on each world side the socket of the local
/// side that the transform carries there.
pub proof fn lemma_oriented_square_tile_shows_the_carried_side(transform: D4, world_direction: SquareDirection)
    ensures
        d4_apply_direction(transform, oriented_local_direction::<SquareDirection, D4>(transform, world_direction)) == world_direction,
{
    lemma_d4_inverse(transform);
    lemma_d4_inverse_undoes(d4_inverse(transform), (0, 0), world_direction);
}

/// A hexagonal tile turned by `transform` presents on each world side the socket of the
/// local side that the transform carries there.
pub proof fn lemma_oriented_hex_tile_shows_the_carried_side(transform: D6, world_direction: HexDirection)
    ensures
        d6_apply_direction(transform, oriented_local_direction::<HexDirection, D6>(transform, world_direction)) == world_direction,
{
    lemma_d6_inverse(transform);
    lemma_d6_inverse_undoes(d6_inverse(transform), (0, 0), world_direction);
}

/// Decides whether two facing sockets may touch.
///
/// `direction` points from the first tile (the `outgoing` socket) toward the second tile
/// (the `incoming` socket, normally read at `direction.opposite()`).
pub trait SocketMatcher<D, S> {
    fn matches(&self, direction: D, outgoing: &S, incoming: &S) -> bool;
}

/// A socket matcher that accepts exactly equal values.
#[derive(Clone, Copy, Debug, Default, PartialEq, Eq, Hash)]
pub struct EqualityMatcher;

impl<D, S: PartialEq> SocketMatcher<D, S> for EqualityMatcher {
    fn matches(&self, direction: D, outgoing: &S, incoming: &S) -> (r: bool)
        ensures
            S::obeys_eq_spec() ==> r == outgoing.eq_spec(incoming),
    {
        outgoing == incoming
    }
}

} // verus!

//! Seamlessness assistance for tile catalogs: a union-find structure that groups linked
//! border samples, and the index arithmetic that aligns the sides of one edge family.
use vstd::prelude::*;

use crate::raster::{Rgba, TileSurface};
use crate::spatial::Coord2;
use crate::tile::{EdgeStrip, Tile, TileId, TileSet};
use crate::topology::Direction;
use std::collections::HashMap;

verus! {

broadcast use vstd::std_specs::hash::group_hash_axioms;

/// The number of times `root` occurs in `roots`: the size of its class.
pub open spec fn class_size(roots: Seq<usize>, root: usize) -> nat
    decreases roots.len(),
{
    if roots.len() == 0 {
        0
    } else {
        class_size(roots.drop_last(), root) + if roots.last() == root { 1nat } else { 0nat }
    }
}

/// Every member of class `from` moves to class `into`.
pub open spec fn merge_classes(roots: Seq<usize>, from: usize, into: usize) -> Seq<usize> {
    Seq::new(roots.len(), |i: int| if roots[i] == from { into } else { roots[i] })
}

proof fn lemma_class_size_bound(roots: Seq<usize>, root: usize)
    ensures
        class_size(roots, root) <= roots.len(),
    decreases roots.len(),
{
    if roots.len() > 0 {
        lemma_class_size_bound(roots.drop_last(), root);
    }
}

proof fn lemma_merge_class_sizes(roots: Seq<usize>, from: usize, into: usize, other: usize)
    requires
        from != into,
    ensures
        class_size(merge_classes(roots, from, into), into) == class_size(roots, into) + class_size(roots, from),
        other != from && other != into ==> class_size(merge_classes(roots, from, into), other) == class_size(roots, other),
    decreases roots.len(),
{
    if roots.len() > 0 {
        let merged = merge_classes(roots, from, into);
        assert(merged.drop_last() =~= merge_classes(roots.drop_last(), from, into));
        lemma_merge_class_sizes(roots.drop_last(), from, into, other);
    }
}

/// Disjoint sets over `0..len` with union by rank and path compression.
pub struct DisjointSets {
    parents: Vec<usize>,
    ranks: Vec<u8>,
    roots: Ghost<Seq<usize>>,
}

impl DisjointSets {
    /// The number of elements.
    pub closed spec fn spec_len(&self) -> nat {
        self.parents@.len()
    }

    /// The representative of every element's set.
    pub closed spec fn spec_roots(&self) -> Seq<usize> {
        self.roots@
    }

    /// The ranks of the elements.
    pub closed spec fn spec_ranks(&self) -> Seq<u8> {
        self.ranks@
    }

    /// The rank of an element, which decides which representative a union keeps.
    pub open spec fn spec_rank(&self, node: int) -> nat {
        self.spec_ranks()[node] as nat
    }

    /// Whether two elements lie in the same set.
    pub open spec fn spec_same(&self, left: int, right: int) -> bool {
        self.spec_roots()[left] == self.spec_roots()[right]
    }

    /// The forest is consistent: parents stay in range, ranks rise strictly towards the root,
    /// the recorded representative is the root reached by following parents, and a root of
    /// rank `k` represents at least `2^k` elements.
    pub closed spec fn wf(&self) -> bool {
        let n = self.parents@.len();
        let parents = self.parents@;
        let ranks = self.ranks@;
        let roots = self.roots@;
        &&& n <= usize::MAX
        &&& ranks.len() == n
        &&& roots.len() == n
        &&& forall|i: int| 0 <= i < n ==> #[trigger] parents[i] < n
        &&& forall|i: int| 0 <= i < n && #[trigger] parents[i] != i ==> ranks[i] < ranks[parents[i] as int]
        &&& forall|i: int| 0 <= i < n ==> #[trigger] roots[i] < n && parents[roots[i] as int] == roots[i]
        &&& forall|i: int| 0 <= i < n ==> #[trigger] roots[parents[i] as int] == roots[i]
        &&& forall|i: int| 0 <= i < n && #[trigger] parents[i] == i ==> roots[i] == i
        &&& forall|i: int|
            0 <= i < n && #[trigger] parents[i] == i ==> vstd::arithmetic::power2::pow2(ranks[i] as nat)
                <= class_size(roots, i as usize)
    }

    /// Along the parent chain ranks only grow, so a non-root ranks below its representative.
    proof fn lemma_rank_below_root(&self, node: int)
        requires
            self.wf(),
            0 <= node < self.spec_len(),
            self.parents@[node] != node,
        ensures
            self.ranks@[node] < self.ranks@[self.roots@[node] as int],
        decreases 256 - self.ranks@[node],
    {
        let parent = self.parents@[node] as int;
        if self.parents@[parent] != parent {
            self.lemma_rank_below_root(parent);
        }
    }

    /// A root's rank stays below 64, because a root of rank `k` represents `2^k` elements.
    proof fn lemma_root_rank_bound(&self, root: int)
        requires
            self.wf(),
            0 <= root < self.spec_len(),
            self.parents@[root] == root,
        ensures
            self.ranks@[root] < 64,
    {
        lemma_class_size_bound(self.roots@, root as usize);
        vstd::arithmetic::power2::lemma2_to64();
        let rank = self.ranks@[root] as nat;
        if rank >= 64 {
            if rank > 64 {
                vstd::arithmetic::power2::lemma_pow2_strictly_increases(64, rank);
            }
            assert(vstd::arithmetic::power2::pow2(rank) >= vstd::arithmetic::power2::pow2(64));
            assert(false);
        }
    }

    /// `len` singleton sets.
    pub fn new(len: usize) -> (r: Self)
        ensures
            r.wf(),
            r.spec_len() == len,
            forall|i: int| 0 <= i < len ==> #[trigger] r.spec_roots()[i] == i,
            forall|i: int| 0 <= i < len ==> #[trigger] r.spec_rank(i) == 0,
    {
        let mut parents: Vec<usize> = Vec::with_capacity(len);
        let mut ranks: Vec<u8> = Vec::with_capacity(len);
        let mut index: usize = 0;
        while index < len
            invariant
                index <= len,
                parents@.len() == index,
                ranks@.len() == index,
                forall|i: int| 0 <= i < index ==> #[trigger] parents@[i] == i,
                forall|i: int| 0 <= i < index ==> #[trigger] ranks@[i] == 0,
            decreases len - index,
        {
            parents.push(index);
            ranks.push(0);
            index += 1;
        }
        let ghost roots = parents@;
        let sets = DisjointSets { parents, ranks, roots: Ghost(roots) };
        proof {
            assert forall|i: int| 0 <= i < len && #[trigger] sets.parents@[i] == i implies vstd::arithmetic::power2::pow2(
                sets.ranks@[i] as nat,
            ) <= class_size(roots, i as usize) by {
                vstd::arithmetic::power2::lemma2_to64();
                lemma_single_class(roots, i);
            }
        }
        sets
    }

    /// The representative of `node`'s set. Every element on the way to it is re-pointed
    /// straight at it, which leaves the sets and their representatives unchanged.
    pub fn find(&mut self, node: usize) -> (r: usize)
        requires
            old(self).wf(),
            node < old(self).spec_len(),
        ensures
            final(self).wf(),
            final(self).spec_len() == old(self).spec_len(),
            final(self).spec_roots() == old(self).spec_roots(),
            final(self).spec_ranks() == old(self).spec_ranks(),
            r == old(self).spec_roots()[node as int],
        decreases 256 - old(self).spec_rank(node as int),
    {
        let parent = self.parents[node];
        if parent != node {
            proof {
                self.lemma_rank_below_root(node as int);
            }
            let root = self.find(parent);
            proof {
                self.lemma_rank_below_root(node as int);
            }
            self.parents.set(node, root);
            proof {
                let n = self.parents@.len();
                assert(self.parents@[root as int] == root);
                assert forall|i: int| 0 <= i < n && #[trigger] self.parents@[i] == i implies self.roots@[i] == i by {
                    if i == node {
                        assert(root != node);
                    }
                }
            }
            root
        } else {
            parent
        }
    }

    /// Joins the sets of `left` and `right`. The representative of the higher-ranked set
    /// survives; between equal ranks, the representative of `left`'s set survives and gains
    /// a rank.
    pub fn union(&mut self, left: usize, right: usize)
        requires
            old(self).wf(),
            left < old(self).spec_len(),
            right < old(self).spec_len(),
        ensures
            final(self).wf(),
            final(self).spec_len() == old(self).spec_len(),
            ({
                let a = old(self).spec_roots()[left as int];
                let b = old(self).spec_roots()[right as int];
                let kept = if a != b && old(self).spec_rank(a as int) < old(self).spec_rank(b as int) { b } else { a };
                forall|i: int| 0 <= i < old(self).spec_len() ==> #[trigger] final(self).spec_roots()[i] == if old(self).spec_roots()[i] == a
                    || old(self).spec_roots()[i] == b {
                    kept
                } else {
                    old(self).spec_roots()[i]
                }
            }),
            spec_union_step(*old(self), *final(self), left as int, right as int),
    {
        let left_root = self.find(left);
        let right_root = self.find(right);
        if left_root == right_root {
            return;
        }
        let ghost roots = self.roots@;
        let ghost n = self.parents@.len();
        let ghost mid = *self;
        if self.ranks[left_root] < self.ranks[right_root] {
            self.parents.set(left_root, right_root);
            self.roots = Ghost(merge_classes(roots, left_root, right_root));
            proof {
                self.lemma_after_link(roots, left_root, right_root, n);
            }
        } else if self.ranks[left_root] > self.ranks[right_root] {
            self.parents.set(right_root, left_root);
            self.roots = Ghost(merge_classes(roots, right_root, left_root));
            proof {
                self.lemma_after_link(roots, right_root, left_root, n);
            }
        } else {
            let ghost old_ranks = self.ranks@;
            proof {
                self.lemma_root_rank_bound(left_root as int);
            }
            let raised = self.ranks[left_root] + 1;
            self.parents.set(right_root, left_root);
            self.ranks.set(left_root, raised);
            self.roots = Ghost(merge_classes(roots, right_root, left_root));
            proof {
                let parents = self.parents@;
                let ranks = self.ranks@;
                let merged = self.roots@;
                assert forall|i: int| 0 <= i < n && #[trigger] parents[i] != i implies ranks[i] < ranks[parents[i] as int] by {
                    if i != right_root {
                        assert(mid.parents@[i] == parents[i]);
                    }
                }
                assert forall|i: int| 0 <= i < n && #[trigger] parents[i] == i implies vstd::arithmetic::power2::pow2(ranks[i] as nat)
                    <= class_size(merged, i as usize) by {
                    if i == left_root {
                        vstd::arithmetic::power2::lemma_pow2_unfold(ranks[i] as nat);
                        lemma_merge_class_sizes(roots, right_root, left_root, left_root);
                    } else {
                        lemma_merge_class_sizes(roots, right_root, left_root, i as usize);
                    }
                }
                assert forall|i: int| 0 <= i < n implies #[trigger] merged[i] < n && parents[merged[i] as int] == merged[i] by {}
                assert forall|i: int| 0 <= i < n implies #[trigger] merged[parents[i] as int] == merged[i] by {}
                assert forall|i: int| 0 <= i < n && #[trigger] parents[i] == i implies merged[i] == i by {}
                assert(old_ranks[right_root as int] == old_ranks[left_root as int]);
            }
        }
    }

    /// After pointing root `from` at root `into`, of at least its rank, the forest is
    /// consistent again with the two classes merged.
    proof fn lemma_after_link(&self, roots: Seq<usize>, from: usize, into: usize, n: nat)
        requires
            from != into,
            n <= usize::MAX,
            self.parents@.len() == n,
            self.ranks@.len() == n,
            from < n,
            into < n,
            self.roots@ == merge_classes(roots, from, into),
            self.parents@[from as int] == into,
            self.ranks@[from as int] < self.ranks@[into as int],
            roots.len() == n,
            roots[from as int] == from,
            roots[into as int] == into,
            self.parents@[into as int] == into,
            forall|i: int| 0 <= i < n ==> #[trigger] self.parents@[i] < n,
            forall|i: int| 0 <= i < n && i != from && #[trigger] self.parents@[i] != i ==> self.ranks@[i] < self.ranks@[self.parents@[i] as int],
            forall|i: int| 0 <= i < n ==> #[trigger] roots[i] < n && (roots[i] == from || roots[i] == into || self.parents@[roots[i] as int] == roots[i]),
            forall|i: int| 0 <= i < n ==> #[trigger] roots[self.parents@[i] as int] == roots[i] || i == from,
            forall|i: int| 0 <= i < n && i != from && #[trigger] self.parents@[i] == i ==> roots[i] == i,
            forall|i: int|
                0 <= i < n && i != from && #[trigger] self.parents@[i] == i ==> vstd::arithmetic::power2::pow2(self.ranks@[i] as nat)
                    <= class_size(roots, i as usize),
        ensures
            self.wf(),
    {
        let parents = self.parents@;
        let ranks = self.ranks@;
        let merged = self.roots@;
        assert forall|i: int| 0 <= i < n && #[trigger] parents[i] == i implies vstd::arithmetic::power2::pow2(ranks[i] as nat)
            <= class_size(merged, i as usize) by {
            if i == into {
                lemma_merge_class_sizes(roots, from, into, into);
            } else {
                lemma_merge_class_sizes(roots, from, into, i as usize);
            }
        }
        assert forall|i: int| 0 <= i < n implies #[trigger] merged[i] < n && parents[merged[i] as int] == merged[i] by {}
        assert forall|i: int| 0 <= i < n implies #[trigger] merged[parents[i] as int] == merged[i] by {}
        assert forall|i: int| 0 <= i < n && #[trigger] parents[i] != i implies ranks[i] < ranks[parents[i] as int] by {}
    }
}

/// A class of one element has size at least one.
proof fn lemma_single_class(roots: Seq<usize>, i: int)
    requires
        0 <= i < roots.len(),
    ensures
        class_size(roots, roots[i]) >= 1,
    decreases roots.len(),
{
    if i < roots.len() - 1 {
        assert(roots.drop_last()[i] == roots[i]);
        lemma_single_class(roots.drop_last(), i);
    }
}

/// One side of one catalog tile.
#[derive(Clone, Copy, Debug, PartialEq, Eq, Hash)]
pub struct EdgeRef<D> {
    pub tile: TileId,
    pub direction: D,
}

/// One authoritative sample of one catalog tile's surface.
#[derive(Clone, Copy, Debug, PartialEq, Eq, Hash, Structural)]
pub struct TileSample {
    pub tile: TileId,
    pub coord: Coord2,
}

/// The outcome of copying one side onto another.
#[derive(Clone, Copy, Debug, PartialEq, Eq)]
pub enum EdgeCopyResult {
    Applied,
    NoChange,
    Conflict,
    Invalid,
}

/// Whether `a` sorts before `b` lexicographically, a proper prefix first.
pub open spec fn seq_less(a: Seq<u32>, b: Seq<u32>) -> bool {
    exists|i: int|
        0 <= i <= a.len() && i <= b.len() && #[trigger] a.take(i) == b.take(i) && ((i < a.len() && i < b.len() && a[i] < b[i])
            || (i == a.len() && i < b.len()))
}

/// Lexicographic comparison of two sample sequences.
fn slice_less(a: &[u32], b: &[u32]) -> (r: bool)
    ensures
        r == seq_less(a@, b@),
{
    let mut i: usize = 0;
    while i < a.len() && i < b.len()
        invariant
            i <= a@.len(),
            i <= b@.len(),
            a@.take(i as int) == b@.take(i as int),
        decreases a@.len() - i,
    {
        if a[i] < b[i] {
            assert(a@.take(i as int) == b@.take(i as int));
            return true;
        }
        if a[i] > b[i] {
            proof {
                assert forall|j: int|
                    0 <= j <= a@.len() && j <= b@.len() && #[trigger] a@.take(j) == b@.take(j) implies !((j < a@.len() && j
                    < b@.len() && a@[j] < b@[j]) || (j == a@.len() && j < b@.len())) by {
                    if j > i {
                        assert(a@.take(j)[i as int] == b@.take(j)[i as int]);
                    } else if j < i {
                        assert(a@.take(i as int)[j] == b@.take(i as int)[j]);
                    }
                }
            }
            return false;
        }
        proof {
            assert(a@.take(i as int + 1) =~= a@.take(i as int).push(a@[i as int]));
            assert(b@.take(i as int + 1) =~= b@.take(i as int).push(b@[i as int]));
        }
        i += 1;
    }
    let less = i == a.len() && i < b.len();
    proof {
        if !less {
            assert forall|j: int|
                0 <= j <= a@.len() && j <= b@.len() && #[trigger] a@.take(j) == b@.take(j) implies !((j < a@.len() && j < b@.len()
                && a@[j] < b@[j]) || (j == a@.len() && j < b@.len())) by {
                if j < i {
                    assert(a@.take(i as int)[j] == b@.take(i as int)[j]);
                }
            }
        }
    }
    less
}

/// Whether two sample sequences are equal.
pub fn slices_equal(a: &[u32], b: &[u32]) -> (r: bool)
    ensures
        r == (a@ == b@),
{
    if a.len() != b.len() {
        return false;
    }
    let mut i: usize = 0;
    while i < a.len()
        invariant
            a@.len() == b@.len(),
            i <= a@.len(),
            forall|j: int| 0 <= j < i ==> a@[j] == b@[j],
        decreases a@.len() - i,
    {
        if a[i] != b[i] {
            return false;
        }
        i += 1;
    }
    assert(a@ =~= b@);
    true
}

/// A strip read in the opposite order.
pub open spec fn reversed_samples(samples: Seq<Rgba>) -> Seq<Rgba> {
    Seq::new(samples.len(), |i: int| samples[samples.len() - 1 - i])
}

/// Whether a side must be reversed to read in its family's order.
pub open spec fn reversed_to_key(samples: Seq<Rgba>) -> bool {
    seq_less(reversed_samples(samples), samples)
}

/// The reversal-independent key of a side: the smaller of the strip and its reverse.
pub open spec fn family_key(samples: Seq<Rgba>) -> Seq<Rgba> {
    if reversed_to_key(samples) {
        reversed_samples(samples)
    } else {
        samples
    }
}

/// The strip of side `direction` of tile `tile`.
pub open spec fn side_samples<P, D: Direction>(tiles: Seq<Tile<P, D, EdgeStrip<Rgba>>>, tile: int, direction: D) -> Seq<Rgba> {
    tiles[tile].sockets@[direction.spec_index() as int]@
}

/// The position of a side when the catalog's sides are listed tile by tile, each tile's in
/// direction order.
pub open spec fn side_position<D: Direction>(edge: EdgeRef<D>) -> int {
    edge.tile.0 * D::spec_count() + edge.direction.spec_index()
}

/// All sides whose strips equal or reverse one another, with whether each must be reversed
/// to read in the order of `key`.
pub struct EdgeFamily<D> {
    pub key: EdgeStrip<Rgba>,
    pub members: Vec<(EdgeRef<D>, bool)>,
}

/// Whether some family lists `edge`.
pub open spec fn families_list<D>(families: Seq<EdgeFamily<D>>, edge: EdgeRef<D>) -> bool {
    exists|f: int, m: int| 0 <= f < families.len() && 0 <= m < families[f].members@.len() && #[trigger] families[f].members@[m].0 == edge
}

/// `families` groups the sides of `tiles` by their reversal-independent key: keys are
/// distinct; each family lists, in catalog order, exactly the sides with its key, each with
/// its reversal flag; and families come in the order of their first side.
pub open spec fn spec_groups_sides<P, D: Direction>(
    tiles: Seq<Tile<P, D, EdgeStrip<Rgba>>>,
    families: Seq<EdgeFamily<D>>,
) -> bool {
    &&& forall|f: int, g: int| 0 <= f < g < families.len() ==> families[f].key@ != families[g].key@
    &&& forall|f: int| 0 <= f < families.len() ==> (#[trigger] families[f]).members@.len() > 0
    &&& forall|f: int, m: int|
        0 <= f < families.len() && 0 <= m < families[f].members@.len() ==> {
            let (edge, reversed) = #[trigger] families[f].members@[m];
            &&& edge.tile.0 < tiles.len()
            &&& family_key(side_samples(tiles, edge.tile.0 as int, edge.direction)) == families[f].key@
            &&& reversed == reversed_to_key(side_samples(tiles, edge.tile.0 as int, edge.direction))
        }
    &&& forall|f: int, m: int, n: int|
        0 <= f < families.len() && 0 <= m < n < families[f].members@.len() ==> side_position(#[trigger] families[f].members@[m].0)
            < side_position(#[trigger] families[f].members@[n].0)
    &&& forall|t: int, direction: D|
        0 <= t < tiles.len() ==> #[trigger] families_list(families, EdgeRef { tile: TileId(t as usize), direction })
    &&& forall|f: int, g: int| 0 <= f < g < families.len() ==> side_position(families[f].members@[0].0) < side_position(
        families[g].members@[0].0,
    )
}

/// A copy of the samples, forwards or backwards.
fn copy_samples(samples: &[Rgba], backwards: bool) -> (r: Vec<Rgba>)
    ensures
        r@ == if backwards { reversed_samples(samples@) } else { samples@ },
{
    let len = samples.len();
    let mut out: Vec<Rgba> = Vec::with_capacity(len);
    let mut i: usize = 0;
    while i < len
        invariant
            len == samples@.len(),
            i <= len,
            out@.len() == i,
            forall|j: int| 0 <= j < i ==> #[trigger] out@[j] == if backwards { samples@[len - 1 - j] } else { samples@[j] },
        decreases len - i,
    {
        let sample = if backwards { samples[len - 1 - i] } else { samples[i] };
        out.push(sample);
        i += 1;
    }
    assert(out@ =~= if backwards { reversed_samples(samples@) } else { samples@ });
    out
}

/// The family whose key is `key`, if any.
fn find_family<D>(families: &Vec<EdgeFamily<D>>, key: &[Rgba]) -> (r: Option<usize>)
    ensures
        r matches Some(f) ==> f < families@.len() && families@[f as int].key@ == key@,
        r is None ==> forall|f: int| 0 <= f < families@.len() ==> #[trigger] families@[f].key@ != key@,
{
    let mut f: usize = 0;
    while f < families.len()
        invariant
            f <= families@.len(),
            forall|g: int| 0 <= g < f ==> #[trigger] families@[g].key@ != key@,
        decreases families@.len() - f,
    {
        if slices_equal(families[f].key.as_slice(), key) {
            return Some(f);
        }
        f += 1;
    }
    None
}

/// Groups every side of the catalog by its reversal-independent strip: the key is the
/// smaller of the strip and its reverse, and each member records whether it must be
/// reversed to read in the key's order. Families come in the order of their first side.
pub fn edge_families<P, D: Direction>(tiles: &TileSet<P, D, EdgeStrip<Rgba>>) -> (r: Vec<EdgeFamily<D>>)
    ensures
        spec_groups_sides(tiles@, r@),
{
    proof {
        D::lemma_direction_laws();
    }
    let count = D::count();
    let tile_count = tiles.len();
    let mut families: Vec<EdgeFamily<D>> = Vec::new();
    let mut t: usize = 0;
    while t < tile_count
        invariant
            tile_count == tiles@.len(),
            count == D::spec_count(),
            t <= tile_count,
            spec_groups_partial(tiles@, families@, t as int * count),
        decreases tile_count - t,
    {
        let tile = tiles.get(TileId::new(t)).unwrap();
        let mut di: usize = 0;
        while di < count
            invariant
                tile_count == tiles@.len(),
                count == D::spec_count(),
                t < tile_count,
                di <= count,
                *tile == tiles@[t as int],
                spec_groups_partial(tiles@, families@, t as int * count + di),
            decreases count - di,
        {
            proof {
                D::lemma_direction_laws();
            }
            let direction = D::from_index(di);
            let edge = &tile.sockets[direction];
            let reversed = copy_samples(edge.as_slice(), true);
            let flip = slice_less(reversed.as_slice(), edge.as_slice());
            let key = copy_samples(edge.as_slice(), flip);
            let member = (EdgeRef { tile: TileId::new(t), direction }, flip);
            let ghost position = t as int * count + di;
            proof {
                assert(side_position(member.0) == position);
                assert(edge@ == side_samples(tiles@, t as int, direction));
                assert(key@ == family_key(edge@));
            }
            let ghost before = families@;
            match find_family(&families, key.as_slice()) {
                Some(f) => {
                    let ghost old_members = families@[f as int].members@;
                    families[f].members.push(member);
                    proof {
                        lemma_extend_family(tiles@, before, families@, f as int, member, position);
                    }
                },
                None => {
                    let mut members: Vec<(EdgeRef<D>, bool)> = Vec::new();
                    members.push(member);
                    families.push(EdgeFamily { key: EdgeStrip::new(key), members });
                    proof {
                        lemma_open_family(tiles@, before, families@, member, position);
                    }
                },
            }
            di += 1;
        }
        proof {
            assert(t as int * count + count == (t as int + 1) * count) by (nonlinear_arith);
        }
        t += 1;
    }
    proof {
        assert forall|tt: int, direction: D| 0 <= tt < tiles@.len() implies #[trigger] families_list(
            families@,
            EdgeRef { tile: TileId(tt as usize), direction },
        ) by {
            D::lemma_direction_laws();
            let index = direction.spec_index() as int;
            assert(tt * count + index < tile_count * count) by (nonlinear_arith)
                requires
                    0 <= tt < tile_count,
                    0 <= index < count,
            ;
        }
    }
    families
}

/// [`spec_groups_sides`] for the sides before position `done`.
pub open spec fn spec_groups_partial<P, D: Direction>(
    tiles: Seq<Tile<P, D, EdgeStrip<Rgba>>>,
    families: Seq<EdgeFamily<D>>,
    done: int,
) -> bool {
    &&& forall|f: int, g: int| 0 <= f < g < families.len() ==> families[f].key@ != families[g].key@
    &&& forall|f: int| 0 <= f < families.len() ==> (#[trigger] families[f]).members@.len() > 0
    &&& forall|f: int, m: int|
        0 <= f < families.len() && 0 <= m < families[f].members@.len() ==> {
            let (edge, reversed) = #[trigger] families[f].members@[m];
            &&& edge.tile.0 < tiles.len()
            &&& family_key(side_samples(tiles, edge.tile.0 as int, edge.direction)) == families[f].key@
            &&& reversed == reversed_to_key(side_samples(tiles, edge.tile.0 as int, edge.direction))
            &&& side_position(edge) < done
        }
    &&& forall|f: int, m: int, n: int|
        0 <= f < families.len() && 0 <= m < n < families[f].members@.len() ==> side_position(#[trigger] families[f].members@[m].0)
            < side_position(#[trigger] families[f].members@[n].0)
    &&& forall|edge: EdgeRef<D>|
        0 <= side_position(edge) < done && edge.tile.0 < tiles.len() ==> #[trigger] families_list(families, edge)
    &&& forall|f: int, g: int| 0 <= f < g < families.len() ==> side_position(families[f].members@[0].0) < side_position(
        families[g].members@[0].0,
    )
}

/// Adding the next side to the family with its key keeps the grouping.
proof fn lemma_extend_family<P, D: Direction>(
    tiles: Seq<Tile<P, D, EdgeStrip<Rgba>>>,
    before: Seq<EdgeFamily<D>>,
    after: Seq<EdgeFamily<D>>,
    f: int,
    member: (EdgeRef<D>, bool),
    position: int,
)
    requires
        spec_groups_partial(tiles, before, position),
        0 <= f < before.len(),
        after.len() == before.len(),
        forall|g: int| 0 <= g < before.len() && g != f ==> #[trigger] after[g] == before[g],
        after[f].key@ == before[f].key@,
        after[f].members@ == before[f].members@.push(member),
        side_position(member.0) == position,
        member.0.tile.0 < tiles.len(),
        family_key(side_samples(tiles, member.0.tile.0 as int, member.0.direction)) == before[f].key@,
        member.1 == reversed_to_key(side_samples(tiles, member.0.tile.0 as int, member.0.direction)),
        0 <= member.0.direction.spec_index() < D::spec_count(),
    ensures
        spec_groups_partial(tiles, after, position + 1),
{
    D::lemma_direction_laws();
    assert forall|edge: EdgeRef<D>| 0 <= side_position(edge) < position + 1 && edge.tile.0 < tiles.len() implies #[trigger] families_list(
        after,
        edge,
    ) by {
        if side_position(edge) < position {
            assert(families_list(before, edge));
            let (g, m) = choose|g: int, m: int|
                0 <= g < before.len() && 0 <= m < before[g].members@.len() && #[trigger] before[g].members@[m].0 == edge;
            assert(after[g].members@[m] == before[g].members@[m]);
        } else {
            lemma_position_determines_side(edge, member.0);
            assert(after[f].members@[before[f].members@.len() as int].0 == edge);
        }
    }
    assert forall|g: int, m: int|
        0 <= g < after.len() && 0 <= m < after[g].members@.len() implies {
        let (edge, reversed) = #[trigger] after[g].members@[m];
        &&& edge.tile.0 < tiles.len()
        &&& family_key(side_samples(tiles, edge.tile.0 as int, edge.direction)) == after[g].key@
        &&& reversed == reversed_to_key(side_samples(tiles, edge.tile.0 as int, edge.direction))
        &&& side_position(edge) < position + 1
    } by {
        if g != f || m < before[f].members@.len() {
            assert(after[g].members@[m] == before[g].members@[m]);
        }
    }
    assert forall|g: int, m: int, n: int|
        0 <= g < after.len() && 0 <= m < n < after[g].members@.len() implies side_position(#[trigger] after[g].members@[m].0)
        < side_position(#[trigger] after[g].members@[n].0) by {
        if g != f || n < before[f].members@.len() {
            assert(after[g].members@[m] == before[g].members@[m]);
            assert(after[g].members@[n] == before[g].members@[n]);
        } else {
            assert(after[g].members@[m] == before[g].members@[m]);
        }
    }
    assert forall|g: int, h: int| 0 <= g < h < after.len() implies side_position(after[g].members@[0].0) < side_position(
        after[h].members@[0].0,
    ) by {
        assert(after[g].members@[0] == before[g].members@[0]);
        assert(after[h].members@[0] == before[h].members@[0]);
    }
}

/// Opening a family for the next side, whose key no family has, keeps the grouping.
proof fn lemma_open_family<P, D: Direction>(
    tiles: Seq<Tile<P, D, EdgeStrip<Rgba>>>,
    before: Seq<EdgeFamily<D>>,
    after: Seq<EdgeFamily<D>>,
    member: (EdgeRef<D>, bool),
    position: int,
)
    requires
        spec_groups_partial(tiles, before, position),
        after.len() == before.len() + 1,
        forall|g: int| 0 <= g < before.len() ==> #[trigger] after[g] == before[g],
        forall|g: int| 0 <= g < before.len() ==> #[trigger] before[g].key@ != after[before.len() as int].key@,
        after[before.len() as int].members@ == seq![member],
        side_position(member.0) == position,
        member.0.tile.0 < tiles.len(),
        family_key(side_samples(tiles, member.0.tile.0 as int, member.0.direction)) == after[before.len() as int].key@,
        member.1 == reversed_to_key(side_samples(tiles, member.0.tile.0 as int, member.0.direction)),
        0 <= member.0.direction.spec_index() < D::spec_count(),
    ensures
        spec_groups_partial(tiles, after, position + 1),
{
    D::lemma_direction_laws();
    let last = before.len() as int;
    assert forall|edge: EdgeRef<D>| 0 <= side_position(edge) < position + 1 && edge.tile.0 < tiles.len() implies #[trigger] families_list(
        after,
        edge,
    ) by {
        if side_position(edge) < position {
            assert(families_list(before, edge));
            let (g, m) = choose|g: int, m: int|
                0 <= g < before.len() && 0 <= m < before[g].members@.len() && #[trigger] before[g].members@[m].0 == edge;
            assert(after[g].members@[m] == before[g].members@[m]);
        } else {
            lemma_position_determines_side(edge, member.0);
            assert(after[last].members@[0].0 == edge);
        }
    }
    assert forall|g: int, h: int| 0 <= g < h < after.len() implies side_position(after[g].members@[0].0) < side_position(
        after[h].members@[0].0,
    ) by {
        assert(after[g].members@[0] == before[g].members@[0]);
        if h < last {
            assert(after[h].members@[0] == before[h].members@[0]);
        } else {
            assert(before[g].members@.len() > 0);
        }
    }
    assert forall|g: int, h: int| 0 <= g < h < after.len() implies after[g].key@ != after[h].key@ by {
        if h == last {
            assert(before[g].key@ != after[last].key@);
        }
    }
}

/// Two sides at the same position are the same side.
proof fn lemma_position_determines_side<D: Direction>(a: EdgeRef<D>, b: EdgeRef<D>)
    requires
        side_position(a) == side_position(b),
        0 <= a.direction.spec_index() < D::spec_count(),
        0 <= b.direction.spec_index() < D::spec_count(),
    ensures
        a == b,
{
    D::lemma_direction_laws();
    let count = D::spec_count() as int;
    vstd::arithmetic::div_mod::lemma_fundamental_div_mod_converse(
        side_position(a),
        count,
        a.tile.0 as int,
        a.direction.spec_index() as int,
    );
    vstd::arithmetic::div_mod::lemma_fundamental_div_mod_converse(
        side_position(b),
        count,
        b.tile.0 as int,
        b.direction.spec_index() as int,
    );
    assert(D::spec_from_index(a.direction.spec_index()) == a.direction);
    assert(D::spec_from_index(b.direction.spec_index()) == b.direction);
}

/// The largest number of sides any editor mode's cell shape has.
pub const MAX_TILE_SIDES: usize = 6;

/// Per-side orphan flags for one tile, indexed by direction index; slots past the mode's own
/// side count stay `false`.
pub type OrphanEdges = [bool; 6];

/// Whether some other side of the catalog can face `edge`: its strip equals `edge`'s strip
/// or its reverse.
pub open spec fn has_partner<P, D: Direction>(tiles: Seq<Tile<P, D, EdgeStrip<Rgba>>>, edge: EdgeRef<D>) -> bool {
    exists|other: EdgeRef<D>|
        other != edge && other.tile.0 < tiles.len() && #[trigger] family_key(side_samples(tiles, other.tile.0 as int, other.direction))
            == family_key(side_samples(tiles, edge.tile.0 as int, edge.direction))
}

/// The orphan flags of tile `tile`: a side is an orphan when no other side can face it.
pub open spec fn spec_orphan_flags<P, D: Direction>(tiles: Seq<Tile<P, D, EdgeStrip<Rgba>>>, tile: int, flags: [bool; 6]) -> bool {
    forall|side: int|
        0 <= side < MAX_TILE_SIDES ==> #[trigger] flags@[side] == (side < D::spec_count() && !has_partner(
            tiles,
            EdgeRef { tile: TileId(tile as usize), direction: D::spec_from_index(side as nat) },
        ))
}

/// In a grouping of the catalog, a side has a partner exactly when its family has another
/// member.
proof fn lemma_partner_iff_family_shared<P, D: Direction>(
    tiles: Seq<Tile<P, D, EdgeStrip<Rgba>>>,
    families: Seq<EdgeFamily<D>>,
    f: int,
    m: int,
)
    requires
        spec_groups_sides(tiles, families),
        0 <= f < families.len(),
        0 <= m < families[f].members@.len(),
    ensures
        has_partner(tiles, families[f].members@[m].0) <==> families[f].members@.len() >= 2,
{
    D::lemma_direction_laws();
    let edge = families[f].members@[m].0;
    let key = families[f].key@;
    assert(family_key(side_samples(tiles, edge.tile.0 as int, edge.direction)) == key);
    if families[f].members@.len() >= 2 {
        let n = if m == 0 { 1int } else { 0int };
        let other = families[f].members@[n].0;
        assert(family_key(side_samples(tiles, other.tile.0 as int, other.direction)) == key);
        if n < m {
            assert(side_position(families[f].members@[n].0) < side_position(families[f].members@[m].0));
        } else {
            assert(side_position(families[f].members@[m].0) < side_position(families[f].members@[n].0));
        }
        assert(other != edge);
    }
    if has_partner(tiles, edge) {
        let other = choose|other: EdgeRef<D>|
            other != edge && other.tile.0 < tiles.len() && #[trigger] family_key(side_samples(tiles, other.tile.0 as int, other.direction))
                == family_key(side_samples(tiles, edge.tile.0 as int, edge.direction));
        assert(families_list(families, EdgeRef { tile: TileId(other.tile.0 as usize), direction: other.direction }));
        let (g, n) = choose|g: int, n: int|
            0 <= g < families.len() && 0 <= n < families[g].members@.len() && #[trigger] families[g].members@[n].0 == other;
        assert(family_key(side_samples(tiles, other.tile.0 as int, other.direction)) == families[g].key@);
        if g != f {
            if g < f {
                assert(families[g].key@ != families[f].key@);
            } else {
                assert(families[f].key@ != families[g].key@);
            }
        }
        assert(n != m);
    }
}

/// Reports, per tile, the sides that have no partner to match.
pub fn orphan_edges<P, D: Direction>(tiles: &TileSet<P, D, EdgeStrip<Rgba>>) -> (r: Vec<(TileId, OrphanEdges)>)
    requires
        D::spec_count() <= MAX_TILE_SIDES,
        tiles@.len() * MAX_TILE_SIDES <= usize::MAX,
    ensures
        r@.len() == tiles@.len(),
        forall|t: int| 0 <= t < r@.len() ==> (#[trigger] r@[t]).0 == TileId(t as usize) && spec_orphan_flags(tiles@, t, r@[t].1),
{
    proof {
        D::lemma_direction_laws();
    }
    let count = D::count();
    let tile_count = tiles.len();
    let families = edge_families(tiles);
    let slots = tile_count * MAX_TILE_SIDES;
    let mut sizes: Vec<usize> = Vec::with_capacity(slots);
    let mut i: usize = 0;
    while i < slots
        invariant
            i <= slots,
            sizes@.len() == i,
        decreases slots - i,
    {
        sizes.push(0);
        i += 1;
    }
    let mut f: usize = 0;
    while f < families.len()
        invariant
            spec_groups_sides(tiles@, families@),
            tile_count == tiles@.len(),
            count == D::spec_count(),
            count <= MAX_TILE_SIDES,
            slots == tile_count * MAX_TILE_SIDES,
            sizes@.len() == slots,
            f <= families@.len(),
            forall|g: int, m: int|
                0 <= g < f && 0 <= m < families@[g].members@.len() ==> sizes@[side_slot(#[trigger] families@[g].members@[m].0)]
                    == families@[g].members@.len(),
        decreases families@.len() - f,
    {
        let len = families[f].members.len();
        let mut m: usize = 0;
        while m < len
            invariant
                spec_groups_sides(tiles@, families@),
                tile_count == tiles@.len(),
                count == D::spec_count(),
                count <= MAX_TILE_SIDES,
                slots == tile_count * MAX_TILE_SIDES,
                sizes@.len() == slots,
                f < families@.len(),
                len == families@[f as int].members@.len(),
                m <= len,
                forall|g: int, n: int|
                    0 <= g < f && 0 <= n < families@[g].members@.len() ==> sizes@[side_slot(#[trigger] families@[g].members@[n].0)]
                        == families@[g].members@.len(),
                forall|n: int| 0 <= n < m ==> sizes@[side_slot(#[trigger] families@[f as int].members@[n].0)] == len,
            decreases len - m,
        {
            let edge = families[f].members[m].0;
            proof {
                lemma_slot_in_range::<P, D>(tiles@, families@, f as int, m as int);
            }
            let slot = edge.tile.index() * MAX_TILE_SIDES + edge.direction.index();
            let ghost before = sizes@;
            sizes.set(slot, len);
            proof {
                assert(slot as int == side_slot(families@[f as int].members@[m as int].0));
                assert(sizes@ == before.update(slot as int, len));
                assert forall|g: int, n: int|
                    0 <= g < f && 0 <= n < families@[g].members@.len() implies sizes@[side_slot(#[trigger] families@[g].members@[n].0)]
                    == families@[g].members@.len() by {
                    lemma_distinct_members_distinct_slots::<P, D>(tiles@, families@, g, n, f as int, m as int);
                    lemma_slot_in_range::<P, D>(tiles@, families@, g, n);
                    assert(before[side_slot(families@[g].members@[n].0)] == families@[g].members@.len());
                }
                assert forall|n: int| 0 <= n < m + 1 implies sizes@[side_slot(#[trigger] families@[f as int].members@[n].0)] == len by {
                    if n < m {
                        lemma_distinct_members_distinct_slots::<P, D>(tiles@, families@, f as int, n, f as int, m as int);
                        lemma_slot_in_range::<P, D>(tiles@, families@, f as int, n);
                        assert(before[side_slot(families@[f as int].members@[n].0)] == len);
                    }
                }
            }
            m += 1;
        }
        f += 1;
    }
    let mut result: Vec<(TileId, OrphanEdges)> = Vec::with_capacity(tile_count);
    let mut t: usize = 0;
    while t < tile_count
        invariant
            spec_groups_sides(tiles@, families@),
            tile_count == tiles@.len(),
            count == D::spec_count(),
            count <= MAX_TILE_SIDES,
            slots == tile_count * MAX_TILE_SIDES,
            sizes@.len() == slots,
            t <= tile_count,
            result@.len() == t,
            forall|g: int, m: int|
                0 <= g < families@.len() && 0 <= m < families@[g].members@.len() ==> sizes@[side_slot(#[trigger] families@[g].members@[m].0)]
                    == families@[g].members@.len(),
            forall|k: int| 0 <= k < t ==> (#[trigger] result@[k]).0 == TileId(k as usize) && spec_orphan_flags(tiles@, k, result@[k].1),
        decreases tile_count - t,
    {
        let mut flags: OrphanEdges = [false; 6];
        let mut side: usize = 0;
        while side < MAX_TILE_SIDES
            invariant
                spec_groups_sides(tiles@, families@),
                tile_count == tiles@.len(),
                count == D::spec_count(),
                count <= MAX_TILE_SIDES,
                slots == tile_count * MAX_TILE_SIDES,
                sizes@.len() == slots,
                t < tile_count,
                side <= MAX_TILE_SIDES,
                forall|g: int, m: int|
                    0 <= g < families@.len() && 0 <= m < families@[g].members@.len() ==> sizes@[side_slot(#[trigger] families@[g].members@[m].0)]
                        == families@[g].members@.len(),
                forall|k: int| 0 <= k < side ==> #[trigger] flags@[k] == (k < D::spec_count() && !has_partner(
                    tiles@,
                    EdgeRef { tile: TileId(t as usize), direction: D::spec_from_index(k as nat) },
                )),
                forall|k: int| side <= k < MAX_TILE_SIDES ==> !#[trigger] flags@[k],
            decreases MAX_TILE_SIDES - side,
        {
            if side < count {
                let ghost edge = EdgeRef { tile: TileId(t), direction: D::spec_from_index(side as nat) };
                proof {
                    lemma_side_size::<P, D>(tiles@, families@, edge, sizes@);
                    assert(t * MAX_TILE_SIDES + side < slots) by (nonlinear_arith)
                        requires
                            t < tile_count,
                            side < MAX_TILE_SIDES,
                            slots == tile_count * MAX_TILE_SIDES,
                    ;
                }
                let orphan = sizes[t * MAX_TILE_SIDES + side] < 2;
                let ghost before = flags;
                flags[side] = orphan;
                proof {
                    D::lemma_direction_laws();
                    assert(side_slot(edge) == t * MAX_TILE_SIDES + side);
                    assert(flags@ == before@.update(side as int, orphan));
                }
            }
            side += 1;
        }
        proof {
            assert(spec_orphan_flags(tiles@, t as int, flags));
        }
        result.push((TileId::new(t), flags));
        t += 1;
    }
    result
}

/// The slot of a side in a table with room for every tile's sides.
pub open spec fn side_slot<D: Direction>(edge: EdgeRef<D>) -> int {
    edge.tile.0 * MAX_TILE_SIDES + edge.direction.spec_index()
}

/// Members of a grouping have slots inside the table.
proof fn lemma_slot_in_range<P, D: Direction>(tiles: Seq<Tile<P, D, EdgeStrip<Rgba>>>, families: Seq<EdgeFamily<D>>, f: int, m: int)
    requires
        spec_groups_sides(tiles, families),
        0 <= f < families.len(),
        0 <= m < families[f].members@.len(),
        D::spec_count() <= MAX_TILE_SIDES,
    ensures
        0 <= side_slot(families[f].members@[m].0) < tiles.len() * MAX_TILE_SIDES,
{
    D::lemma_direction_laws();
    let edge = families[f].members@[m].0;
    let tile = edge.tile.0 as int;
    let index = edge.direction.spec_index() as int;
    assert(tile * 6 + index < tiles.len() * 6) by (nonlinear_arith)
        requires
            0 <= tile < tiles.len(),
            0 <= index < 6,
    ;
}

/// Two different members of a grouping occupy different slots.
proof fn lemma_distinct_members_distinct_slots<P, D: Direction>(
    tiles: Seq<Tile<P, D, EdgeStrip<Rgba>>>,
    families: Seq<EdgeFamily<D>>,
    f: int,
    m: int,
    g: int,
    n: int,
)
    requires
        spec_groups_sides(tiles, families),
        0 <= f < families.len(),
        0 <= m < families[f].members@.len(),
        0 <= g < families.len(),
        0 <= n < families[g].members@.len(),
        f != g || m != n,
        D::spec_count() <= MAX_TILE_SIDES,
    ensures
        side_slot(families[f].members@[m].0) != side_slot(families[g].members@[n].0),
{
    D::lemma_direction_laws();
    let a = families[f].members@[m].0;
    let b = families[g].members@[n].0;
    if f == g {
        if m < n {
            assert(side_position(a) < side_position(b));
        } else {
            assert(side_position(b) < side_position(a));
        }
    } else {
        assert(family_key(side_samples(tiles, a.tile.0 as int, a.direction)) == families[f].key@);
        assert(family_key(side_samples(tiles, b.tile.0 as int, b.direction)) == families[g].key@);
        if f < g {
            assert(families[f].key@ != families[g].key@);
        } else {
            assert(families[g].key@ != families[f].key@);
        }
    }
    if side_slot(a) == side_slot(b) {
        vstd::arithmetic::div_mod::lemma_fundamental_div_mod_converse(side_slot(a), 6, a.tile.0 as int, a.direction.spec_index() as int);
        vstd::arithmetic::div_mod::lemma_fundamental_div_mod_converse(side_slot(b), 6, b.tile.0 as int, b.direction.spec_index() as int);
        assert(D::spec_from_index(a.direction.spec_index()) == a.direction);
        assert(D::spec_from_index(b.direction.spec_index()) == b.direction);
        assert(a == b);
    }
}

/// The table entry of a side is the size of its family, which is at least two exactly when
/// the side has a partner.
proof fn lemma_side_size<P, D: Direction>(
    tiles: Seq<Tile<P, D, EdgeStrip<Rgba>>>,
    families: Seq<EdgeFamily<D>>,
    edge: EdgeRef<D>,
    sizes: Seq<usize>,
)
    requires
        spec_groups_sides(tiles, families),
        edge.tile.0 < tiles.len(),
        forall|g: int, m: int|
            0 <= g < families.len() && 0 <= m < families[g].members@.len() ==> sizes[side_slot(#[trigger] families[g].members@[m].0)]
                == families[g].members@.len(),
    ensures
        (sizes[side_slot(edge)] < 2) == !has_partner(tiles, edge),
{
    assert(families_list(families, EdgeRef { tile: TileId(edge.tile.0 as usize), direction: edge.direction }));
    let (f, m) = choose|f: int, m: int|
        0 <= f < families.len() && 0 <= m < families[f].members@.len() && #[trigger] families[f].members@[m].0 == edge;
    lemma_partner_iff_family_shared(tiles, families, f, m);
}

/// Translates a canonical family index into one member's own sample order.
pub open spec fn spec_aligned_edge_index(edge_samples: int, canonical_index: int, reversed_to_key: bool) -> int {
    if reversed_to_key {
        edge_samples - 1 - canonical_index
    } else {
        canonical_index
    }
}

/// Translates a canonical family index into one member's own sample order: a member read
/// reversed relative to its family key counts from the other end.
pub fn aligned_edge_index<S: TileSurface>(canonical_index: usize, reversed_to_key: bool) -> (r: usize)
    requires
        canonical_index < S::spec_edge_samples(),
    ensures
        r == spec_aligned_edge_index(S::spec_edge_samples() as int, canonical_index as int, reversed_to_key),
        r < S::spec_edge_samples(),
{
    if reversed_to_key {
        S::edge_samples() - 1 - canonical_index
    } else {
        canonical_index
    }
}

/// The samples of every side of a surface, side by side in direction order, each side in its
/// own order.
pub open spec fn border_sequence<S: TileSurface>() -> Seq<Coord2> {
    let per_side = S::spec_edge_samples() as int;
    Seq::new(
        (S::Direction::spec_count() * S::spec_edge_samples()) as nat,
        |k: int| S::spec_edge_sample(S::Direction::spec_from_index((k / per_side) as nat), k % per_side),
    )
}

/// The first occurrence of every element, in order.
pub open spec fn first_occurrences(items: Seq<Coord2>) -> Seq<Coord2>
    decreases items.len(),
{
    if items.len() == 0 {
        Seq::empty()
    } else {
        let kept = first_occurrences(items.drop_last());
        if kept.contains(items.last()) {
            kept
        } else {
            kept.push(items.last())
        }
    }
}

/// Keeping first occurrences leaves every element once and nothing else.
pub proof fn lemma_first_occurrences(items: Seq<Coord2>)
    ensures
        first_occurrences(items).no_duplicates(),
        forall|c: Coord2| first_occurrences(items).contains(c) <==> items.contains(c),
        first_occurrences(items).len() <= items.len(),
    decreases items.len(),
{
    if items.len() > 0 {
        let rest = items.drop_last();
        lemma_first_occurrences(rest);
        assert forall|c: Coord2| items.contains(c) <==> rest.contains(c) || c == items.last() by {
            if items.contains(c) && c != items.last() {
                let i = choose|i: int| 0 <= i < items.len() && items[i] == c;
                assert(rest[i] == c);
            }
            if rest.contains(c) {
                let i = choose|i: int| 0 <= i < rest.len() && rest[i] == c;
                assert(items[i] == c);
            }
            if c == items.last() {
                assert(items[items.len() - 1] == c);
            }
        }
        let kept = first_occurrences(rest);
        if !kept.contains(items.last()) {
            let pushed = kept.push(items.last());
            assert forall|i: int, j: int| 0 <= i < j < pushed.len() implies pushed[i] != pushed[j] by {
                if j == kept.len() {
                    assert(kept[i] == pushed[i]);
                }
            }
            assert forall|c: Coord2| pushed.contains(c) <==> kept.contains(c) || c == items.last() by {
                if pushed.contains(c) && c != items.last() {
                    let i = choose|i: int| 0 <= i < pushed.len() && pushed[i] == c;
                    assert(kept[i] == c);
                }
                if kept.contains(c) {
                    let i = choose|i: int| 0 <= i < kept.len() && kept[i] == c;
                    assert(pushed[i] == c);
                }
                if c == items.last() {
                    assert(pushed[kept.len() as int] == c);
                }
            }
        }
    }
}

/// The position of `coord` in `items`, if it occurs.
fn position_of(items: &Vec<Coord2>, coord: Coord2) -> (r: Option<usize>)
    ensures
        r matches Some(i) ==> i < items@.len() && items@[i as int] == coord,
        r is None <==> !items@.contains(coord),
{
    let mut i: usize = 0;
    while i < items.len()
        invariant
            i <= items@.len(),
            forall|j: int| 0 <= j < i ==> items@[j] != coord,
        decreases items@.len() - i,
    {
        if items[i] == coord {
            return Some(i);
        }
        i += 1;
    }
    None
}

/// Every distinct border sample of one surface, in direction and index order: corners appear
/// once, under the first side that reaches them.
pub fn border_coordinates<S: TileSurface>() -> (r: Vec<Coord2>)
    ensures
        r@ == first_occurrences(border_sequence::<S>()),
{
    proof {
        S::Direction::lemma_direction_laws();
    }
    let count = S::Direction::count();
    let per_side = S::edge_samples();
    let ghost all = border_sequence::<S>();
    let mut border: Vec<Coord2> = Vec::new();
    let mut di: usize = 0;
    while di < count
        invariant
            count == S::Direction::spec_count(),
            per_side == S::spec_edge_samples(),
            per_side > 0,
            all == border_sequence::<S>(),
            di <= count,
            border@ == first_occurrences(all.take(di * per_side)),
        decreases count - di,
    {
        let direction = S::Direction::from_index(di);
        let mut index: usize = 0;
        while index < per_side
            invariant
                count == S::Direction::spec_count(),
                per_side == S::spec_edge_samples(),
                per_side > 0,
                all == border_sequence::<S>(),
                di < count,
                direction == S::Direction::spec_from_index(di as nat),
                index <= per_side,
                border@ == first_occurrences(all.take(di * per_side + index)),
            decreases per_side - index,
        {
            let coord = S::edge_sample(direction, index);
            let ghost k = di * per_side + index;
            proof {
                assert(k < all.len()) by (nonlinear_arith)
                    requires
                        k == di * per_side + index,
                        di < count,
                        index < per_side,
                        all.len() == count * per_side,
                ;
                vstd::arithmetic::div_mod::lemma_fundamental_div_mod_converse(k, per_side as int, di as int, index as int);
                assert(all[k] == coord);
                assert(all.take(k + 1).drop_last() =~= all.take(k));
                assert(all.take(k + 1).last() == coord);
            }
            if position_of(&border, coord).is_none() {
                border.push(coord);
            }
            index += 1;
        }
        proof {
            assert(di * per_side + per_side == (di + 1) * per_side) by (nonlinear_arith);
        }
        di += 1;
    }
    proof {
        assert(all.take(count * per_side) =~= all);
    }
    border
}

/// The position of a border coordinate in the border list.
pub open spec fn border_slot(border: Seq<Coord2>, coord: Coord2) -> int {
    choose|i: int| 0 <= i < border.len() && border[i] == coord
}

/// The union-find node of a tile's border sample: tiles side by side, each with one node per
/// border sample.
pub open spec fn border_node(border: Seq<Coord2>, tile: TileId, coord: Coord2) -> int {
    tile.0 * border.len() + border_slot(border, coord)
}

/// The sample at canonical index `canonical` of side `member`, read in its family's order.
pub open spec fn aligned_sample<S: TileSurface>(member: (EdgeRef<S::Direction>, bool), canonical: int) -> Coord2 {
    S::spec_edge_sample(
        member.0.direction,
        spec_aligned_edge_index(S::spec_edge_samples() as int, canonical, member.1),
    )
}

/// The nodes that the `m`-th member of family `f` links at canonical index `canonical`: the
/// family's first member's sample and the member's own.
pub open spec fn star_link<S: TileSurface>(
    families: Seq<EdgeFamily<S::Direction>>,
    border: Seq<Coord2>,
    f: int,
    canonical: int,
    m: int,
) -> (int, int) {
    let first = families[f].members@[0];
    let member = families[f].members@[m];
    (
        border_node(border, first.0.tile, aligned_sample::<S>(first, canonical)),
        border_node(border, member.0.tile, aligned_sample::<S>(member, canonical)),
    )
}

/// Whether link `(f2, c2, m2)` is one of the links made before link `(f, c, m)`.
pub open spec fn link_done<D>(families: Seq<EdgeFamily<D>>, samples: int, f: int, c: int, m: int, f2: int, c2: int, m2: int) -> bool {
    &&& 0 <= f2 < families.len()
    &&& 0 <= c2 < samples
    &&& 1 <= m2 < families[f2].members@.len()
    &&& (f2 < f || (f2 == f && c2 < c) || (f2 == f && c2 == c && m2 < m))
}

/// Whether a labeling of nodes gives both ends of every link made before `(f, c, m)` the
/// same label.
pub open spec fn respects_links<S: TileSurface>(
    labels: spec_fn(int) -> int,
    families: Seq<EdgeFamily<S::Direction>>,
    border: Seq<Coord2>,
    f: int,
    c: int,
    m: int,
) -> bool {
    forall|f2: int, c2: int, m2: int|
        #[trigger] link_done(families, S::spec_edge_samples() as int, f, c, m, f2, c2, m2) ==> labels(
            star_link::<S>(families, border, f2, c2, m2).0,
        ) == labels(star_link::<S>(families, border, f2, c2, m2).1)
}

/// The union-find state after the links before `(f, c, m)`: each of them joins its ends,
/// and every labeling that respects them is constant on each set, so no set is larger than
/// the links force.
pub open spec fn links_joined<S: TileSurface>(
    roots: Seq<usize>,
    nodes: int,
    families: Seq<EdgeFamily<S::Direction>>,
    border: Seq<Coord2>,
    f: int,
    c: int,
    m: int,
) -> bool {
    &&& forall|f2: int, c2: int, m2: int|
        #[trigger] link_done(families, S::spec_edge_samples() as int, f, c, m, f2, c2, m2) ==> roots[star_link::<S>(
            families,
            border,
            f2,
            c2,
            m2,
        ).0] == roots[star_link::<S>(families, border, f2, c2, m2).1]
    &&& forall|labels: spec_fn(int) -> int|
        #[trigger] respects_links::<S>(labels, families, border, f, c, m) ==> forall|i: int, j: int|
            0 <= i < nodes && 0 <= j < nodes && roots[i] == roots[j] ==> labels(i) == labels(j)
}

/// Both ends of every link are nodes.
pub open spec fn links_in_range<S: TileSurface>(families: Seq<EdgeFamily<S::Direction>>, border: Seq<Coord2>, nodes: int) -> bool {
    forall|f2: int, c2: int, m2: int|
        #[trigger] link_done(families, S::spec_edge_samples() as int, families.len() as int, 0, 0, f2, c2, m2) ==> {
            &&& 0 <= star_link::<S>(families, border, f2, c2, m2).0 < nodes
            &&& 0 <= star_link::<S>(families, border, f2, c2, m2).1 < nodes
        }
}

/// One more union keeps [`links_joined`], with one more link made.
proof fn lemma_union_joins_link<S: TileSurface>(
    before: Seq<usize>,
    after: Seq<usize>,
    nodes: int,
    families: Seq<EdgeFamily<S::Direction>>,
    border: Seq<Coord2>,
    f: int,
    c: int,
    m: int,
    kept: usize,
)
    requires
        links_joined::<S>(before, nodes, families, border, f, c, m),
        links_in_range::<S>(families, border, nodes),
        link_done(families, S::spec_edge_samples() as int, f, c, m + 1, f, c, m),
        before.len() == nodes,
        after.len() == nodes,
        0 <= star_link::<S>(families, border, f, c, m).0 < nodes,
        0 <= star_link::<S>(families, border, f, c, m).1 < nodes,
        kept == before[star_link::<S>(families, border, f, c, m).0] || kept == before[star_link::<S>(families, border, f, c, m).1],
        ({
            let (a, b) = star_link::<S>(families, border, f, c, m);
            forall|i: int| 0 <= i < nodes ==> #[trigger] after[i] == if before[i] == before[a] || before[i] == before[b] {
                kept
            } else {
                before[i]
            }
        }),
    ensures
        links_joined::<S>(after, nodes, families, border, f, c, m + 1),
{
    let (a, b) = star_link::<S>(families, border, f, c, m);
    let samples = S::spec_edge_samples() as int;
    assert forall|f2: int, c2: int, m2: int| #[trigger] link_done(families, samples, f, c, m + 1, f2, c2, m2) implies after[star_link::<S>(
        families,
        border,
        f2,
        c2,
        m2,
    ).0] == after[star_link::<S>(families, border, f2, c2, m2).1] by {
        let (x, y) = star_link::<S>(families, border, f2, c2, m2);
        if !(f2 == f && c2 == c && m2 == m) {
            assert(link_done(families, samples, f, c, m, f2, c2, m2));
        }
        assert(link_done(families, samples, families.len() as int, 0, 0, f2, c2, m2));
    }
    assert forall|labels: spec_fn(int) -> int| #[trigger] respects_links::<S>(labels, families, border, f, c, m + 1) implies forall|
        i: int,
        j: int,
    | 0 <= i < nodes && 0 <= j < nodes && after[i] == after[j] ==> labels(i) == labels(j) by {
        assert(respects_links::<S>(labels, families, border, f, c, m)) by {
            assert forall|f2: int, c2: int, m2: int| #[trigger] link_done(families, samples, f, c, m, f2, c2, m2) implies labels(
                star_link::<S>(families, border, f2, c2, m2).0,
            ) == labels(star_link::<S>(families, border, f2, c2, m2).1) by {
                assert(link_done(families, samples, f, c, m + 1, f2, c2, m2));
            }
        }
        assert(labels(a) == labels(b));
        assert forall|i: int, j: int| 0 <= i < nodes && 0 <= j < nodes && after[i] == after[j] implies labels(i) == labels(j) by {
            if before[i] == before[j] {
            } else {
                assert(before[i] == before[a] || before[i] == before[b]);
                assert(before[j] == before[a] || before[j] == before[b]);
                if before[i] == before[a] || before[i] == before[b] {
                    if before[i] == before[a] {
                        assert(labels(i) == labels(a));
                    } else {
                        assert(labels(i) == labels(b));
                    }
                    if before[j] == before[a] {
                        assert(labels(j) == labels(a));
                    } else {
                        assert(before[j] == before[b]);
                        assert(labels(j) == labels(b));
                    }
                }
            }
        }
    }
}

/// In a list without duplicates, an element's slot is its position.
proof fn lemma_border_slot(border: Seq<Coord2>, i: int)
    requires
        border.no_duplicates(),
        0 <= i < border.len(),
    ensures
        border_slot(border, border[i]) == i,
{
    let coord = border[i];
    assert(exists|j: int| 0 <= j < border.len() && border[j] == coord);
    let j = border_slot(border, coord);
    assert(border[j] == coord);
}

/// Every sample of every side is a border coordinate.
proof fn lemma_edge_sample_on_border<S: TileSurface>(direction: S::Direction, index: int)
    requires
        0 <= index < S::spec_edge_samples(),
    ensures
        first_occurrences(border_sequence::<S>()).contains(S::spec_edge_sample(direction, index)),
{
    S::Direction::lemma_direction_laws();
    let per_side = S::spec_edge_samples() as int;
    let all = border_sequence::<S>();
    let di = direction.spec_index() as int;
    let k = di * per_side + index;
    assert(k < all.len()) by (nonlinear_arith)
        requires
            0 <= di < S::Direction::spec_count(),
            0 <= index < per_side,
            k == di * per_side + index,
            all.len() == S::Direction::spec_count() * per_side,
    ;
    vstd::arithmetic::div_mod::lemma_fundamental_div_mod_converse(k, per_side, di, index);
    assert(S::Direction::spec_from_index(direction.spec_index()) == direction);
    assert(all[k] == S::spec_edge_sample(direction, index));
    assert(all.contains(S::spec_edge_sample(direction, index)));
    lemma_first_occurrences(all);
}

/// The node of a tile's border sample.
fn node_of(border: &Vec<Coord2>, tile: TileId, coord: Coord2) -> (r: usize)
    requires
        border@.no_duplicates(),
        border@.contains(coord),
        (tile.0 + 1) * border@.len() <= usize::MAX,
    ensures
        r == border_node(border@, tile, coord),
        r < (tile.0 + 1) * border@.len(),
{
    let slot = position_of(border, coord).unwrap();
    proof {
        lemma_border_slot(border@, slot as int);
        assert(tile.0 * border@.len() + slot < (tile.0 + 1) * border@.len()) by (nonlinear_arith)
            requires
                slot < border@.len(),
        ;
    }
    tile.index() * border.len() + slot
}

/// A node below `tiles * per_tile` whose tile is below `tiles`.
proof fn lemma_node_bound(tile: int, tiles: int, per_tile: int, slot: int)
    requires
        0 <= tile < tiles,
        0 <= slot < per_tile,
    ensures
        0 <= tile * per_tile + slot < tiles * per_tile,
        (tile + 1) * per_tile <= tiles * per_tile,
{
    assert(0 <= tile * per_tile + slot < tiles * per_tile) by (nonlinear_arith)
        requires
            0 <= tile < tiles,
            0 <= slot < per_tile,
    ;
    assert((tile + 1) * per_tile <= tiles * per_tile) by (nonlinear_arith)
        requires
            0 <= tile < tiles,
            0 <= slot < per_tile,
    ;
}

/// Joins, for every family and canonical index, each member's sample with the first member's.
fn link_families<S: TileSurface, P>(
    tiles: &TileSet<P, S::Direction, EdgeStrip<Rgba>>,
    border: &Vec<Coord2>,
    families: &Vec<EdgeFamily<S::Direction>>,
) -> (r: DisjointSets)
    requires
        border@ == first_occurrences(border_sequence::<S>()),
        spec_groups_sides(tiles@, families@),
        tiles@.len() * border@.len() <= usize::MAX,
    ensures
        r.wf(),
        r.spec_len() == tiles@.len() * border@.len(),
        links_in_range::<S>(families@, border@, (tiles@.len() * border@.len()) as int),
        links_joined::<S>(r.spec_roots(), (tiles@.len() * border@.len()) as int, families@, border@, families@.len() as int, 0, 0),
{
    let ghost nodes = (tiles@.len() * border@.len()) as int;
    let ghost samples = S::spec_edge_samples() as int;
    proof {
        lemma_first_occurrences(border_sequence::<S>());
        assert forall|f2: int, c2: int, m2: int|
            #[trigger] link_done(families@, samples, families@.len() as int, 0, 0, f2, c2, m2) implies {
            &&& 0 <= star_link::<S>(families@, border@, f2, c2, m2).0 < nodes
            &&& 0 <= star_link::<S>(families@, border@, f2, c2, m2).1 < nodes
        } by {
            let first = families@[f2].members@[0];
            let member = families@[f2].members@[m2];
            let e = S::spec_edge_samples() as int;
            lemma_edge_sample_on_border::<S>(first.0.direction, spec_aligned_edge_index(e, c2, first.1));
            lemma_edge_sample_on_border::<S>(member.0.direction, spec_aligned_edge_index(e, c2, member.1));
            let a = aligned_sample::<S>(first, c2);
            let b = aligned_sample::<S>(member, c2);
            assert(border@.contains(a));
            assert(border@.contains(b));
            let sa = border_slot(border@, a);
            let sb = border_slot(border@, b);
            assert(0 <= sa < border@.len());
            assert(0 <= sb < border@.len());
            lemma_node_bound(first.0.tile.0 as int, tiles@.len() as int, border@.len() as int, sa);
            lemma_node_bound(member.0.tile.0 as int, tiles@.len() as int, border@.len() as int, sb);
        }
    }
    let node_count = tiles.len() * border.len();
    let mut sets = DisjointSets::new(node_count);
    let per_side = S::edge_samples();
    let mut f: usize = 0;
    while f < families.len()
        invariant
            border@ == first_occurrences(border_sequence::<S>()),
            border@.no_duplicates(),
            spec_groups_sides(tiles@, families@),
            tiles@.len() * border@.len() <= usize::MAX,
            nodes == tiles@.len() * border@.len(),
            node_count == nodes,
            samples == S::spec_edge_samples(),
            per_side == samples,
            sets.wf(),
            sets.spec_len() == nodes,
            f <= families@.len(),
            links_in_range::<S>(families@, border@, nodes),
            links_joined::<S>(sets.spec_roots(), nodes, families@, border@, f as int, 0, 0),
        decreases families@.len() - f,
    {
        let first = families[f].members[0];
        let len = families[f].members.len();
        proof {
            lemma_links_joined_same::<S>(sets.spec_roots(), nodes, families@, border@, f as int, 0, 0, f as int, 0, 1);
        }
        let mut c: usize = 0;
        while c < per_side
            invariant
                border@ == first_occurrences(border_sequence::<S>()),
                border@.no_duplicates(),
                spec_groups_sides(tiles@, families@),
                tiles@.len() * border@.len() <= usize::MAX,
                nodes == tiles@.len() * border@.len(),
                node_count == nodes,
                samples == S::spec_edge_samples(),
                per_side == samples,
                sets.wf(),
                sets.spec_len() == nodes,
                f < families@.len(),
                first == families@[f as int].members@[0],
                len == families@[f as int].members@.len(),
                c <= per_side,
                links_in_range::<S>(families@, border@, nodes),
                links_joined::<S>(sets.spec_roots(), nodes, families@, border@, f as int, c as int, 1),
            decreases per_side - c,
        {
            let first_index = aligned_edge_index::<S>(c, first.1);
            let first_coord = S::edge_sample(first.0.direction, first_index);
            proof {
                lemma_edge_sample_on_border::<S>(first.0.direction, first_index as int);
                let slot = border_slot(border@, first_coord);
                lemma_node_bound(first.0.tile.0 as int, tiles@.len() as int, border@.len() as int, 0);
            }
            let first_node = node_of(border, first.0.tile, first_coord);
            let mut m: usize = 1;
            while m < len
                invariant
                    border@ == first_occurrences(border_sequence::<S>()),
                    border@.no_duplicates(),
                    spec_groups_sides(tiles@, families@),
                    tiles@.len() * border@.len() <= usize::MAX,
                    nodes == tiles@.len() * border@.len(),
                    node_count == nodes,
                    samples == S::spec_edge_samples(),
                    per_side == samples,
                    sets.wf(),
                    sets.spec_len() == nodes,
                    f < families@.len(),
                    first == families@[f as int].members@[0],
                    len == families@[f as int].members@.len(),
                    c < per_side,
                    1 <= m <= len,
                    first_node == star_link::<S>(families@, border@, f as int, c as int, 1).0,
                    links_in_range::<S>(families@, border@, nodes),
                    links_joined::<S>(sets.spec_roots(), nodes, families@, border@, f as int, c as int, m as int),
                decreases len - m,
            {
                let member = families[f].members[m];
                let member_index = aligned_edge_index::<S>(c, member.1);
                let member_coord = S::edge_sample(member.0.direction, member_index);
                proof {
                    lemma_edge_sample_on_border::<S>(member.0.direction, member_index as int);
                    lemma_node_bound(member.0.tile.0 as int, tiles@.len() as int, border@.len() as int, 0);
                }
                let other = node_of(border, member.0.tile, member_coord);
                let ghost before = sets.spec_roots();
                proof {
                    assert(link_done(families@, samples, families@.len() as int, 0, 0, f as int, c as int, m as int));
                    assert(star_link::<S>(families@, border@, f as int, c as int, m as int) == (first_node as int, other as int));
                }
                sets.union(first_node, other);
                proof {
                    let ra = before[first_node as int];
                    let rb = before[other as int];
                    let kept = if ra != rb && sets.spec_rank(ra as int) < sets.spec_rank(rb as int) { rb } else { ra };
                    lemma_union_joins_link::<S>(
                        before,
                        sets.spec_roots(),
                        nodes,
                        families@,
                        border@,
                        f as int,
                        c as int,
                        m as int,
                        sets.spec_roots()[first_node as int],
                    );
                }
                m += 1;
            }
            proof {
                lemma_links_joined_same::<S>(sets.spec_roots(), nodes, families@, border@, f as int, c as int, len as int, f as int, c as int + 1, 1);
            }
            c += 1;
        }
        proof {
            lemma_links_joined_same::<S>(sets.spec_roots(), nodes, families@, border@, f as int, per_side as int, 1, f as int + 1, 0, 0);
        }
        f += 1;
    }
    sets
}

/// [`links_joined`] at two points that have made the same links.
proof fn lemma_links_joined_same<S: TileSurface>(
    roots: Seq<usize>,
    nodes: int,
    families: Seq<EdgeFamily<S::Direction>>,
    border: Seq<Coord2>,
    f: int,
    c: int,
    m: int,
    f2: int,
    c2: int,
    m2: int,
)
    requires
        links_joined::<S>(roots, nodes, families, border, f, c, m),
        forall|f3: int, c3: int, m3: int|
            link_done(families, S::spec_edge_samples() as int, f2, c2, m2, f3, c3, m3) ==> link_done(
                families,
                S::spec_edge_samples() as int,
                f,
                c,
                m,
                f3,
                c3,
                m3,
            ),
        forall|f3: int, c3: int, m3: int|
            link_done(families, S::spec_edge_samples() as int, f, c, m, f3, c3, m3) ==> link_done(
                families,
                S::spec_edge_samples() as int,
                f2,
                c2,
                m2,
                f3,
                c3,
                m3,
            ),
    ensures
        links_joined::<S>(roots, nodes, families, border, f2, c2, m2),
{
    let samples = S::spec_edge_samples() as int;
    assert forall|f3: int, c3: int, m3: int| #[trigger] link_done(families, samples, f2, c2, m2, f3, c3, m3) implies roots[star_link::<S>(
        families,
        border,
        f3,
        c3,
        m3,
    ).0] == roots[star_link::<S>(families, border, f3, c3, m3).1] by {
        assert(link_done(families, samples, f, c, m, f3, c3, m3));
    }
    assert forall|labels: spec_fn(int) -> int| #[trigger] respects_links::<S>(labels, families, border, f2, c2, m2) implies forall|
        i: int,
        j: int,
    | 0 <= i < nodes && 0 <= j < nodes && roots[i] == roots[j] ==> labels(i) == labels(j) by {
        assert forall|f3: int, c3: int, m3: int| #[trigger] link_done(families, samples, f, c, m, f3, c3, m3) implies labels(
            star_link::<S>(families, border, f3, c3, m3).0,
        ) == labels(star_link::<S>(families, border, f3, c3, m3).1) by {
            assert(link_done(families, samples, f2, c2, m2, f3, c3, m3));
        }
        assert(respects_links::<S>(labels, families, border, f, c, m));
    }
}

/// Whether the catalog's edge families make samples `a` and `b` share a color: two sides
/// whose strips equal or reverse one another, read in their family's order, meet at the same
/// canonical index.
pub open spec fn family_link<S: TileSurface, P>(
    tiles: Seq<Tile<P, S::Direction, EdgeStrip<Rgba>>>,
    a: TileSample,
    b: TileSample,
) -> bool {
    exists|e1: EdgeRef<S::Direction>, e2: EdgeRef<S::Direction>, c: int|
        #![trigger side_link::<S, P>(tiles, e1, e2, c, a, b)]
        side_link::<S, P>(tiles, e1, e2, c, a, b)
}

/// Sides `e1` and `e2` share a family, and `a` and `b` are their samples at canonical index
/// `c`.
pub open spec fn side_link<S: TileSurface, P>(
    tiles: Seq<Tile<P, S::Direction, EdgeStrip<Rgba>>>,
    e1: EdgeRef<S::Direction>,
    e2: EdgeRef<S::Direction>,
    c: int,
    a: TileSample,
    b: TileSample,
) -> bool {
    let side1 = side_samples(tiles, e1.tile.0 as int, e1.direction);
    let side2 = side_samples(tiles, e2.tile.0 as int, e2.direction);
    &&& e1.tile.0 < tiles.len()
    &&& e2.tile.0 < tiles.len()
    &&& 0 <= c < S::spec_edge_samples()
    &&& family_key(side1) == family_key(side2)
    &&& a == TileSample { tile: e1.tile, coord: aligned_sample::<S>((e1, reversed_to_key(side1)), c) }
    &&& b == TileSample { tile: e2.tile, coord: aligned_sample::<S>((e2, reversed_to_key(side2)), c) }
}

/// Whether a labeling of samples gives the two samples of every family link the same label.
pub open spec fn respects_family_links<S: TileSurface, P>(
    tiles: Seq<Tile<P, S::Direction, EdgeStrip<Rgba>>>,
    labels: spec_fn(TileSample) -> int,
) -> bool {
    forall|a: TileSample, b: TileSample| #[trigger] family_link::<S, P>(tiles, a, b) ==> labels(a) == labels(b)
}

/// Whether every labeling that respects the family links gives `a` and `b` the same label:
/// the family links force the two samples to share a color.
pub open spec fn forced_equal<S: TileSurface, P>(tiles: Seq<Tile<P, S::Direction, EdgeStrip<Rgba>>>, a: TileSample, b: TileSample) -> bool {
    forall|labels: spec_fn(TileSample) -> int| #[trigger] respects_family_links::<S, P>(tiles, labels) ==> labels(a) == labels(b)
}

/// The border sample at a node.
pub open spec fn node_sample(border: Seq<Coord2>, node: int) -> TileSample {
    TileSample { tile: TileId((node / border.len() as int) as usize), coord: border[node % border.len() as int] }
}

/// Border samples of the whole catalog, grouped into components that must always hold the
/// same color.
pub struct EdgeLinkIndex {
    border: Vec<Coord2>,
    tile_count: usize,
    component_of: Vec<usize>,
    components: Vec<Vec<TileSample>>,
}

impl EdgeLinkIndex {
    /// The distinct border coordinates of one surface.
    pub closed spec fn spec_border(&self) -> Seq<Coord2> {
        self.border@
    }

    /// The number of catalog tiles.
    pub closed spec fn spec_tile_count(&self) -> nat {
        self.tile_count as nat
    }

    /// The component of every node.
    pub closed spec fn spec_component_of(&self) -> Seq<usize> {
        self.component_of@
    }

    /// Whether `sample` is a border sample of a catalog tile.
    pub open spec fn spec_is_border_sample(&self, sample: TileSample) -> bool {
        sample.tile.0 < self.spec_tile_count() && self.spec_border().contains(sample.coord)
    }

    /// Whether two border samples must always hold the same color.
    pub open spec fn spec_linked(&self, a: TileSample, b: TileSample) -> bool {
        &&& self.spec_is_border_sample(a)
        &&& self.spec_is_border_sample(b)
        &&& self.spec_component_of()[border_node(self.spec_border(), a.tile, a.coord)]
            == self.spec_component_of()[border_node(self.spec_border(), b.tile, b.coord)]
    }

    /// The components list their samples: each component lists, tile by tile in row-major
    /// order, exactly the samples whose node it holds.
    pub closed spec fn wf(&self) -> bool {
        let border = self.border@;
        let nodes = self.tile_count * border.len();
        &&& border.no_duplicates()
        &&& nodes <= usize::MAX
        &&& self.component_of@.len() == nodes
        &&& forall|i: int| 0 <= i < nodes ==> #[trigger] self.component_of@[i] < self.components@.len()
        &&& forall|k: int, m: int|
            0 <= k < self.components@.len() && 0 <= m < self.components@[k]@.len() ==> {
                let node = border_node(border, (#[trigger] self.components@[k]@[m]).tile, self.components@[k]@[m].coord);
                &&& self.spec_is_border_sample(self.components@[k]@[m])
                &&& self.component_of@[node] == k
            }
        &&& forall|k: int, m: int, n: int|
            0 <= k < self.components@.len() && 0 <= m < n < self.components@[k]@.len() ==> sample_precedes(
                #[trigger] self.components@[k]@[m],
                #[trigger] self.components@[k]@[n],
            )
        &&& forall|i: int| 0 <= i < nodes ==> #[trigger] self.components@[self.component_of@[i] as int]@.contains(node_sample(border, i))
    }
}

/// Nodes and border samples correspond one to one.
proof fn lemma_node_sample(border: Seq<Coord2>, tiles: int, node: int)
    requires
        border.no_duplicates(),
        border.len() > 0,
        0 <= node < tiles * border.len(),
        tiles * border.len() <= usize::MAX,
    ensures
        border_node(border, node_sample(border, node).tile, node_sample(border, node).coord) == node,
        node_sample(border, node).tile.0 < tiles,
        border.contains(node_sample(border, node).coord),
{
    let b = border.len() as int;
    vstd::arithmetic::div_mod::lemma_fundamental_div_mod(node, b);
    vstd::arithmetic::div_mod::lemma_mod_pos_bound(node, b);
    assert(0 <= node / b < tiles) by (nonlinear_arith)
        requires
            0 <= node < tiles * b,
            b > 0,
            node == b * (node / b) + node % b,
            0 <= node % b < b,
    ;
    lemma_border_slot(border, node % b);
    assert(border.contains(border[node % b]));
    assert(node / b <= node) by (nonlinear_arith)
        requires
            0 <= node,
            b > 0,
            node == b * (node / b) + node % b,
            0 <= node % b,
    ;
    assert(node_sample(border, node).tile.0 == node / b);
    vstd::arithmetic::mul::lemma_mul_is_commutative(b, node / b);
    assert(border_slot(border, border[node % b]) == node % b);
    assert(border_node(border, node_sample(border, node).tile, node_sample(border, node).coord) == (node / b) * b + node % b);
}

/// A border sample's node maps back to it.
proof fn lemma_sample_node(border: Seq<Coord2>, tiles: int, sample: TileSample)
    requires
        border.no_duplicates(),
        sample.tile.0 < tiles,
        border.contains(sample.coord),
    ensures
        0 <= border_node(border, sample.tile, sample.coord) < tiles * border.len(),
        node_sample(border, border_node(border, sample.tile, sample.coord)) == sample,
{
    let b = border.len() as int;
    let slot = border_slot(border, sample.coord);
    assert(0 <= slot < b && border[slot] == sample.coord);
    let node = border_node(border, sample.tile, sample.coord);
    lemma_node_bound(sample.tile.0 as int, tiles, b, slot);
    vstd::arithmetic::div_mod::lemma_fundamental_div_mod_converse(node, b, sample.tile.0 as int, slot);
}

/// Whether `a` comes before `b` tile by tile, then row by row, then along the row.
pub open spec fn sample_precedes(a: TileSample, b: TileSample) -> bool {
    ||| a.tile.0 < b.tile.0
    ||| a.tile.0 == b.tile.0 && a.coord.y < b.coord.y
    ||| a.tile.0 == b.tile.0 && a.coord.y == b.coord.y && a.coord.x < b.coord.x
}

/// Whether `a` comes before `b` tile by tile, then row by row, then along the row.
fn precedes(a: TileSample, b: TileSample) -> (r: bool)
    ensures
        r == sample_precedes(a, b),
{
    if a.tile.index() != b.tile.index() {
        a.tile.index() < b.tile.index()
    } else if a.coord.y != b.coord.y {
        a.coord.y < b.coord.y
    } else {
        a.coord.x < b.coord.x
    }
}

/// Whether `map` maps `root` to `component`.
spec fn maps_root_to(map: Map<usize, usize>, root: usize, component: usize) -> bool {
    map.contains_key(root) && map[root] == component
}

/// The samples of `list`, each once, tile by tile in row-major order.
fn sorted_samples(list: &Vec<TileSample>) -> (r: Vec<TileSample>)
    ensures
        forall|t: TileSample| r@.contains(t) <==> list@.contains(t),
        forall|m: int, n: int| 0 <= m < n < r@.len() ==> sample_precedes(#[trigger] r@[m], #[trigger] r@[n]),
{
    let mut r: Vec<TileSample> = Vec::new();
    let mut i: usize = 0;
    while i < list.len()
        invariant
            i <= list@.len(),
            forall|t: TileSample| r@.contains(t) <==> list@.take(i as int).contains(t),
            forall|m: int, n: int| 0 <= m < n < r@.len() ==> sample_precedes(#[trigger] r@[m], #[trigger] r@[n]),
        decreases list@.len() - i,
    {
        let x = list[i];
        let mut p: usize = 0;
        while p < r.len() && precedes(r[p], x)
            invariant
                p <= r@.len(),
                forall|q: int| 0 <= q < p ==> sample_precedes(#[trigger] r@[q], x),
            decreases r@.len() - p,
        {
            p += 1;
        }
        let ghost before = r@;
        let ghost prefix = list@.take(i as int);
        let ghost next = list@.take(i + 1);
        proof {
            assert(next =~= prefix.push(x));
        }
        if p < r.len() && r[p] == x {
            proof {
                assert forall|t: TileSample| r@.contains(t) <==> next.contains(t) by {
                    if t == x {
                        assert(r@[p as int] == x);
                    }
                    if next.contains(t) && t != x {
                        let w = choose|w: int| 0 <= w < i + 1 && next[w] == t;
                        assert(prefix[w] == t);
                    }
                    if r@.contains(t) && t != x {
                        assert(prefix.contains(t));
                        let w = choose|w: int| 0 <= w < i && prefix[w] == t;
                        assert(next[w] == t);
                    }
                }
            }
        } else {
            proof {
                assert forall|q: int| p <= q < before.len() implies sample_precedes(x, #[trigger] before[q]) by {
                    assert(!sample_precedes(before[p as int], x));
                    assert(before[p as int] != x);
                    if q > p {
                        assert(sample_precedes(before[p as int], before[q]));
                    }
                }
            }
            r.insert(p, x);
            proof {
                assert forall|m: int, n: int| 0 <= m < n < r@.len() implies sample_precedes(#[trigger] r@[m], #[trigger] r@[n]) by {
                    if n < p {
                        assert(r@[m] == before[m] && r@[n] == before[n]);
                    } else if n == p {
                        assert(r@[m] == before[m]);
                    } else if m < p {
                        assert(r@[m] == before[m] && r@[n] == before[n - 1]);
                        assert(sample_precedes(before[m], x));
                    } else if m == p {
                        assert(r@[n] == before[n - 1]);
                    } else {
                        assert(r@[m] == before[m - 1] && r@[n] == before[n - 1]);
                    }
                }
                assert forall|t: TileSample| r@.contains(t) <==> next.contains(t) by {
                    if t == x {
                        assert(r@[p as int] == x);
                        assert(next[i as int] == x);
                    }
                    if next.contains(t) && t != x {
                        let w = choose|w: int| 0 <= w < i + 1 && next[w] == t;
                        assert(prefix[w] == t);
                        assert(before.contains(t));
                        let v = choose|v: int| 0 <= v < before.len() && before[v] == t;
                        if v < p {
                            assert(r@[v] == t);
                        } else {
                            assert(r@[v + 1] == t);
                        }
                    }
                    if r@.contains(t) && t != x {
                        let v = choose|v: int| 0 <= v < r@.len() && r@[v] == t;
                        if v < p {
                            assert(before[v] == t);
                        } else {
                            assert(before[v - 1] == t);
                        }
                        assert(before.contains(t));
                        assert(prefix.contains(t));
                        let w = choose|w: int| 0 <= w < i && prefix[w] == t;
                        assert(next[w] == t);
                    }
                }
            }
        }
        i += 1;
    }
    proof {
        assert(list@.take(i as int) =~= list@);
    }
    r
}

/// Numbers the sets of `sets` in order of their first node and lists every set's samples,
/// tile by tile in row-major order.
fn group_components(sets: &mut DisjointSets, border: &Vec<Coord2>, tile_count: usize) -> (r: (Vec<usize>, Vec<Vec<TileSample>>))
    requires
        old(sets).wf(),
        border@.no_duplicates(),
        border@.len() > 0,
        old(sets).spec_len() == tile_count * border@.len(),
        tile_count * border@.len() <= usize::MAX,
    ensures
        final(sets).wf(),
        final(sets).spec_len() == old(sets).spec_len(),
        final(sets).spec_roots() == old(sets).spec_roots(),
        ({
            let index = EdgeLinkIndex { border: *border, tile_count, component_of: r.0, components: r.1 };
            &&& index.wf()
            &&& forall|i: int, j: int|
                0 <= i < old(sets).spec_len() && 0 <= j < old(sets).spec_len() ==> (r.0@[i] == r.0@[j] <==> old(
                    sets,
                ).spec_roots()[i] == old(sets).spec_roots()[j])
        }),
{
    let ghost roots = sets.spec_roots();
    let node_count = tile_count * border.len();
    let mut component_by_root: HashMap<usize, usize> = HashMap::new();
    let ghost mut component_root: Seq<usize> = Seq::empty();
    let mut component_of: Vec<usize> = Vec::with_capacity(node_count);
    let mut components: Vec<Vec<TileSample>> = Vec::new();
    let mut node: usize = 0;
    while node < node_count
        invariant
            sets.wf(),
            sets.spec_len() == node_count,
            sets.spec_roots() == roots,
            border@.no_duplicates(),
            border@.len() > 0,
            node_count == tile_count * border@.len(),
            node <= node_count,
            component_of@.len() == node,
            component_root.len() == components@.len(),
            forall|j: int| 0 <= j < node ==> #[trigger] component_of@[j] < components@.len(),
            forall|j: int| 0 <= j < node ==> maps_root_to(component_by_root@, roots[j], #[trigger] component_of@[j]),
            forall|k: int| 0 <= k < components@.len() ==> component_by_root@.contains_key(#[trigger] component_root[k])
                && component_by_root@[component_root[k]] == k as usize,
            forall|r: usize| #[trigger] component_by_root@.contains_key(r) ==> component_by_root@[r] < components@.len()
                && component_root[component_by_root@[r] as int] == r,
            forall|j: int| 0 <= j < node ==> component_root[#[trigger] component_of@[j] as int] == roots[j],
            forall|k: int, m: int|
                0 <= k < components@.len() && 0 <= m < components@[k]@.len() ==> {
                    let sample = #[trigger] components@[k]@[m];
                    let at = border_node(border@, sample.tile, sample.coord);
                    &&& sample.tile.0 < tile_count
                    &&& border@.contains(sample.coord)
                    &&& 0 <= at < node
                    &&& component_of@[at] == k
                },
            forall|j: int| 0 <= j < node ==> #[trigger] components@[component_of@[j] as int]@.contains(node_sample(border@, j)),
        decreases node_count - node,
    {
        let root = sets.find(node);
        let tile = node / border.len();
        let slot = node % border.len();
        proof {
            lemma_node_sample(border@, tile_count as int, node as int);
        }
        let sample = TileSample { tile: TileId::new(tile), coord: border[slot] };
        proof {
            assert(sample == node_sample(border@, node as int));
        }
        let ghost before_components = components@;
        let ghost before_of = component_of@;
        match component_by_root.get(&root) {
            Some(found) => {
                let k = *found;
                components[k].push(sample);
                component_of.push(k);
                proof {
                    assert forall|j: int| 0 <= j < node + 1 implies maps_root_to(component_by_root@, roots[j], #[trigger] component_of@[j]) by {
                        if j < node {
                            assert(component_of@[j] == before_of[j]);
                            assert(maps_root_to(component_by_root@, roots[j], before_of[j]));
                        }
                    }
                    assert forall|j: int| 0 <= j < node + 1 implies #[trigger] components@[component_of@[j] as int]@.contains(
                        node_sample(border@, j),
                    ) by {
                        if j < node {
                            let kk = component_of@[j] as int;
                            assert(before_components[kk]@.contains(node_sample(border@, j)));
                            let w = choose|w: int| 0 <= w < before_components[kk]@.len() && before_components[kk]@[w] == node_sample(border@, j);
                            assert(components@[kk]@[w] == node_sample(border@, j));
                        } else {
                            assert(components@[k as int]@[components@[k as int]@.len() - 1] == sample);
                        }
                    }
                }
            },
            None => {
                let k = components.len();
                let mut list: Vec<TileSample> = Vec::new();
                list.push(sample);
                components.push(list);
                let ghost map_before = component_by_root@;
                component_by_root.insert(root, k);
                component_of.push(k);
                proof {
                    assert(!map_before.contains_key(root));
                    assert forall|j: int| 0 <= j < node + 1 implies maps_root_to(component_by_root@, roots[j], #[trigger] component_of@[j]) by {
                        if j < node {
                            assert(component_of@[j] == before_of[j]);
                            assert(maps_root_to(map_before, roots[j], before_of[j]));
                            assert(roots[j] != root);
                        }
                    }
                    component_root = component_root.push(root);
                    assert forall|j: int| 0 <= j < node + 1 implies #[trigger] components@[component_of@[j] as int]@.contains(
                        node_sample(border@, j),
                    ) by {
                        if j < node {
                            let kk = component_of@[j] as int;
                            assert(components@[kk] == before_components[kk]);
                        } else {
                            assert(components@[k as int]@[0] == sample);
                        }
                    }
                }
            },
        }
        node += 1;
    }
    let ghost grouped = components@;
    let mut ordered: Vec<Vec<TileSample>> = Vec::with_capacity(components.len());
    let mut k: usize = 0;
    while k < components.len()
        invariant
            k <= components@.len(),
            components@ == grouped,
            ordered@.len() == k,
            forall|j: int, t: TileSample| 0 <= j < k ==> (#[trigger] ordered@[j]@.contains(t) <==> grouped[j]@.contains(t)),
            forall|j: int, m: int, n: int|
                0 <= j < k && 0 <= m < n < ordered@[j]@.len() ==> sample_precedes(
                    #[trigger] ordered@[j]@[m],
                    #[trigger] ordered@[j]@[n],
                ),
        decreases components@.len() - k,
    {
        let list = sorted_samples(&components[k]);
        ordered.push(list);
        proof {
            assert forall|j: int, t: TileSample| 0 <= j < k + 1 implies (#[trigger] ordered@[j]@.contains(t) <==> grouped[j]@.contains(t)) by {
                if j == k {
                    assert(ordered@[j] == list);
                }
            }
        }
        k += 1;
    }
    proof {
        let index = EdgeLinkIndex { border: *border, tile_count, component_of, components: ordered };
        assert forall|j: int, m: int|
            0 <= j < ordered@.len() && 0 <= m < ordered@[j]@.len() implies {
                let node = border_node(border@, (#[trigger] ordered@[j]@[m]).tile, ordered@[j]@[m].coord);
                &&& index.spec_is_border_sample(ordered@[j]@[m])
                &&& component_of@[node] == j
            } by {
            assert(ordered@[j]@.contains(ordered@[j]@[m]));
            let w = choose|w: int| 0 <= w < grouped[j]@.len() && grouped[j]@[w] == ordered@[j]@[m];
            assert(grouped[j]@[w] == ordered@[j]@[m]);
        }
        assert forall|i: int| 0 <= i < node_count implies #[trigger] ordered@[component_of@[i] as int]@.contains(node_sample(border@, i)) by {
            assert(grouped[component_of@[i] as int]@.contains(node_sample(border@, i)));
        }
    }
    (component_of, ordered)
}

/// Every member of a family is joined with the family's first member at each canonical
/// index.
proof fn lemma_member_joined<S: TileSurface>(
    roots: Seq<usize>,
    nodes: int,
    families: Seq<EdgeFamily<S::Direction>>,
    border: Seq<Coord2>,
    f: int,
    c: int,
    m: int,
)
    requires
        links_joined::<S>(roots, nodes, families, border, families.len() as int, 0, 0),
        0 <= f < families.len(),
        0 <= c < S::spec_edge_samples(),
        0 <= m < families[f].members@.len(),
    ensures
        roots[border_node(border, families[f].members@[m].0.tile, aligned_sample::<S>(families[f].members@[m], c))]
            == roots[border_node(border, families[f].members@[0].0.tile, aligned_sample::<S>(families[f].members@[0], c))],
{
    if m > 0 {
        assert(link_done(families, S::spec_edge_samples() as int, families.len() as int, 0, 0, f, c, m));
    }
}

impl EdgeLinkIndex {
    /// Groups the border samples of the whole catalog into components that must always hold
    /// the same color: two samples are linked when the catalog's edge families link them,
    /// directly or through other samples, and in no other case.
    pub fn new<S: TileSurface, P>(tiles: &TileSet<P, S::Direction, EdgeStrip<Rgba>>) -> (r: Self)
        requires
            tiles@.len() * (S::Direction::spec_count() * S::spec_edge_samples()) <= usize::MAX,
        ensures
            r.wf(),
            r.spec_border() == first_occurrences(border_sequence::<S>()),
            r.spec_tile_count() == tiles@.len(),
            forall|a: TileSample, b: TileSample| #[trigger] family_link::<S, P>(tiles@, a, b) ==> r.spec_linked(a, b),
            forall|labels: spec_fn(TileSample) -> int|
                #[trigger] respects_family_links::<S, P>(tiles@, labels) ==> forall|a: TileSample, b: TileSample|
                    r.spec_linked(a, b) ==> labels(a) == labels(b),
            forall|a: TileSample, b: TileSample|
                #[trigger] r.spec_linked(a, b) <==> r.spec_is_border_sample(a) && r.spec_is_border_sample(b) && forced_equal::<S, P>(
                    tiles@,
                    a,
                    b,
                ),
    {
        let border = border_coordinates::<S>();
        let tile_count = tiles.len();
        let _per_side = S::edge_samples();
        proof {
            S::Direction::lemma_direction_laws();
            lemma_first_occurrences(border_sequence::<S>());
            lemma_edge_sample_on_border::<S>(S::Direction::spec_from_index(0), 0);
            assert(border@.len() > 0);
            let total = S::Direction::spec_count() * S::spec_edge_samples();
            assert(tile_count * border@.len() <= tile_count * total) by (nonlinear_arith)
                requires
                    border@.len() <= total,
                    tile_count >= 0,
            ;
        }
        let families = edge_families(tiles);
        let mut sets = link_families::<S, P>(tiles, &border, &families);
        let ghost roots = sets.spec_roots();
        let ghost nodes = (tile_count * border@.len()) as int;
        let (component_of, components) = group_components(&mut sets, &border, tile_count);
        let index = EdgeLinkIndex { border, tile_count, component_of, components };
        proof {
            let b = index.border@;
            lemma_first_occurrences(border_sequence::<S>());
            // Family links are linked.
            assert forall|a: TileSample, c: TileSample| #[trigger] family_link::<S, P>(tiles@, a, c) implies index.spec_linked(a, c) by {
                let (e1, e2, k) = choose|e1: EdgeRef<S::Direction>, e2: EdgeRef<S::Direction>, k: int|
                    #[trigger] side_link::<S, P>(tiles@, e1, e2, k, a, c);
                lemma_linked_sides::<S, P>(tiles@, families@, roots, nodes, b, e1, e2, k, a, c);
                let e = S::spec_edge_samples() as int;
                let side1 = side_samples(tiles@, e1.tile.0 as int, e1.direction);
                let side2 = side_samples(tiles@, e2.tile.0 as int, e2.direction);
                lemma_edge_sample_on_border::<S>(e1.direction, spec_aligned_edge_index(e, k, reversed_to_key(side1)));
                lemma_edge_sample_on_border::<S>(e2.direction, spec_aligned_edge_index(e, k, reversed_to_key(side2)));
                lemma_sample_node(b, tile_count as int, a);
                lemma_sample_node(b, tile_count as int, c);
            }
            // Links are the finest grouping that the family links force.
            assert forall|labels: spec_fn(TileSample) -> int| #[trigger] respects_family_links::<S, P>(tiles@, labels) implies forall|
                a: TileSample,
                c: TileSample,
            | index.spec_linked(a, c) ==> labels(a) == labels(c) by {
                let node_labels = |node: int| labels(node_sample(b, node));
                lemma_node_labels_respect_links::<S, P>(tiles@, families@, b, labels, tile_count as int);
                assert(respects_links::<S>(node_labels, families@, b, families@.len() as int, 0, 0));
                assert forall|a: TileSample, c: TileSample| index.spec_linked(a, c) implies labels(a) == labels(c) by {
                    lemma_sample_node(b, tile_count as int, a);
                    lemma_sample_node(b, tile_count as int, c);
                    let na = border_node(b, a.tile, a.coord);
                    let nc = border_node(b, c.tile, c.coord);
                    assert(roots[na] == roots[nc]);
                    assert(node_labels(na) == node_labels(nc));
                }
            }
            // The component labeling respects the family links, so forced samples share a
            // component.
            let components = |t: TileSample|
                if index.spec_is_border_sample(t) {
                    index.component_of@[border_node(b, t.tile, t.coord)] as int
                } else {
                    -1
                };
            assert(respects_family_links::<S, P>(tiles@, components)) by {
                assert forall|a: TileSample, c: TileSample| #[trigger] family_link::<S, P>(tiles@, a, c) implies components(a) == components(
                    c,
                ) by {
                    assert(index.spec_linked(a, c));
                }
            }
            assert forall|a: TileSample, c: TileSample|
                #[trigger] index.spec_linked(a, c) <==> index.spec_is_border_sample(a) && index.spec_is_border_sample(c)
                    && forced_equal::<S, P>(tiles@, a, c) by {
                if index.spec_linked(a, c) {
                    assert forall|labels: spec_fn(TileSample) -> int| #[trigger] respects_family_links::<S, P>(tiles@, labels) implies labels(a)
                        == labels(c) by {
                        assert(forall|x: TileSample, y: TileSample| index.spec_linked(x, y) ==> labels(x) == labels(y));
                    }
                }
                if index.spec_is_border_sample(a) && index.spec_is_border_sample(c) && forced_equal::<S, P>(tiles@, a, c) {
                    assert(components(a) == components(c));
                }
            }
        }
        index
    }

    /// Every sample that must share `sample`'s color, tile by tile in row-major order, or
    /// `None` for a sample that is not a border sample of a catalog tile.
    pub fn linked_samples(&self, sample: TileSample) -> (r: Option<&[TileSample]>)
        requires
            self.wf(),
        ensures
            r is Some <==> self.spec_is_border_sample(sample),
            r matches Some(list) ==> {
                &&& forall|t: TileSample| list@.contains(t) <==> self.spec_linked(sample, t)
                &&& forall|m: int, n: int| 0 <= m < n < list@.len() ==> sample_precedes(#[trigger] list@[m], #[trigger] list@[n])
            },
    {
        if sample.tile.index() >= self.tile_count {
            return None;
        }
        let slot = match position_of(&self.border, sample.coord) {
            Some(slot) => slot,
            None => return None,
        };
        proof {
            lemma_border_slot(self.border@, slot as int);
            lemma_sample_node(self.border@, self.tile_count as int, sample);
        }
        let node = sample.tile.index() * self.border.len() + slot;
        let k = self.component_of[node];
        let list = self.components[k].as_slice();
        proof {
            let b = self.border@;
            assert forall|t: TileSample| list@.contains(t) <==> self.spec_linked(sample, t) by {
                if list@.contains(t) {
                    let m = choose|m: int| 0 <= m < list@.len() && list@[m] == t;
                    assert(self.components@[k as int]@[m] == t);
                }
                if self.spec_linked(sample, t) {
                    lemma_sample_node(b, self.tile_count as int, t);
                    let nt = border_node(b, t.tile, t.coord);
                    assert(self.components@[self.component_of@[nt] as int]@.contains(node_sample(b, nt)));
                }
            }
            assert forall|m: int, n: int| 0 <= m < n < list@.len() implies sample_precedes(#[trigger] list@[m], #[trigger] list@[n]) by {
                assert(list@[m] == self.components@[k as int]@[m]);
                assert(list@[n] == self.components@[k as int]@[n]);
            }
        }
        Some(list)
    }
}

/// Two sides of one family meet, at each canonical index, in joined nodes.
proof fn lemma_linked_sides<S: TileSurface, P>(
    tiles: Seq<Tile<P, S::Direction, EdgeStrip<Rgba>>>,
    families: Seq<EdgeFamily<S::Direction>>,
    roots: Seq<usize>,
    nodes: int,
    border: Seq<Coord2>,
    e1: EdgeRef<S::Direction>,
    e2: EdgeRef<S::Direction>,
    c: int,
    a: TileSample,
    b: TileSample,
)
    requires
        spec_groups_sides(tiles, families),
        links_joined::<S>(roots, nodes, families, border, families.len() as int, 0, 0),
        side_link::<S, P>(tiles, e1, e2, c, a, b),
    ensures
        roots[border_node(border, a.tile, a.coord)] == roots[border_node(border, b.tile, b.coord)],
        border.len() > 0 ==> true,
{
    assert(families_list(families, EdgeRef { tile: TileId(e1.tile.0 as usize), direction: e1.direction }));
    assert(families_list(families, EdgeRef { tile: TileId(e2.tile.0 as usize), direction: e2.direction }));
    let (f1, m1) = choose|f: int, m: int| 0 <= f < families.len() && 0 <= m < families[f].members@.len() && #[trigger] families[f].members@[m].0 == e1;
    let (f2, m2) = choose|f: int, m: int| 0 <= f < families.len() && 0 <= m < families[f].members@.len() && #[trigger] families[f].members@[m].0 == e2;
    let member1 = families[f1].members@[m1];
    let member2 = families[f2].members@[m2];
    assert(family_key(side_samples(tiles, e1.tile.0 as int, e1.direction)) == families[f1].key@);
    assert(family_key(side_samples(tiles, e2.tile.0 as int, e2.direction)) == families[f2].key@);
    if f1 != f2 {
        if f1 < f2 {
            assert(families[f1].key@ != families[f2].key@);
        } else {
            assert(families[f2].key@ != families[f1].key@);
        }
    }
    lemma_member_joined::<S>(roots, nodes, families, border, f1, c, m1);
    lemma_member_joined::<S>(roots, nodes, families, border, f1, c, m2);
}

/// Labels of samples that respect the family links respect the links that
/// [`link_families`] makes between nodes.
proof fn lemma_node_labels_respect_links<S: TileSurface, P>(
    tiles: Seq<Tile<P, S::Direction, EdgeStrip<Rgba>>>,
    families: Seq<EdgeFamily<S::Direction>>,
    border: Seq<Coord2>,
    labels: spec_fn(TileSample) -> int,
    tile_count: int,
)
    requires
        spec_groups_sides(tiles, families),
        respects_family_links::<S, P>(tiles, labels),
        border == first_occurrences(border_sequence::<S>()),
        tile_count == tiles.len(),
    ensures
        respects_links::<S>(|node: int| labels(node_sample(border, node)), families, border, families.len() as int, 0, 0),
{
    lemma_first_occurrences(border_sequence::<S>());
    let node_labels = |node: int| labels(node_sample(border, node));
    assert forall|f2: int, c2: int, m2: int|
        #[trigger] link_done(families, S::spec_edge_samples() as int, families.len() as int, 0, 0, f2, c2, m2) implies node_labels(
        star_link::<S>(families, border, f2, c2, m2).0,
    ) == node_labels(star_link::<S>(families, border, f2, c2, m2).1) by {
        let first = families[f2].members@[0];
        let member = families[f2].members@[m2];
        let e = S::spec_edge_samples() as int;
        let a = TileSample { tile: first.0.tile, coord: aligned_sample::<S>(first, c2) };
        let b = TileSample { tile: member.0.tile, coord: aligned_sample::<S>(member, c2) };
        lemma_edge_sample_on_border::<S>(first.0.direction, spec_aligned_edge_index(e, c2, first.1));
        lemma_edge_sample_on_border::<S>(member.0.direction, spec_aligned_edge_index(e, c2, member.1));
        lemma_sample_node(border, tile_count, a);
        lemma_sample_node(border, tile_count, b);
        assert(side_link::<S, P>(tiles, first.0, member.0, c2, a, b));
        assert(family_link::<S, P>(tiles, a, b));
    }
}

/// The sample at `index` along side `direction` of tile `tile`.
pub open spec fn side_sample<S: TileSurface>(tile: TileId, direction: S::Direction, index: int) -> TileSample {
    TileSample { tile, coord: S::spec_edge_sample(direction, index) }
}

/// The colors a copy writes: the source strip, reversed when asked.
pub open spec fn copy_colors(side: Seq<Rgba>, reverse: bool) -> Seq<Rgba> {
    if reverse {
        reversed_samples(side)
    } else {
        side
    }
}

/// Whether a copy would assign two colors to one linked sample: two target samples that the
/// family links force to share a color receive different colors.
pub open spec fn copy_conflicts<S: TileSurface, P>(
    tiles: Seq<Tile<P, S::Direction, EdgeStrip<Rgba>>>,
    desired: Seq<Rgba>,
    tile: TileId,
    direction: S::Direction,
) -> bool {
    exists|i: int, j: int|
        0 <= i < desired.len() && 0 <= j < desired.len() && #[trigger] forced_equal::<S, P>(
            tiles,
            side_sample::<S>(tile, direction, i),
            side_sample::<S>(tile, direction, j),
        ) && desired[i] != desired[j]
}

/// Whether a copy may write `entry`: its sample is forced to share a color with some target
/// sample, and its color is the one copied there.
pub open spec fn copy_assigns<S: TileSurface, P>(
    tiles: Seq<Tile<P, S::Direction, EdgeStrip<Rgba>>>,
    desired: Seq<Rgba>,
    tile: TileId,
    direction: S::Direction,
    entry: (TileSample, Rgba),
) -> bool {
    exists|i: int|
        0 <= i < desired.len() && #[trigger] forced_equal::<S, P>(tiles, side_sample::<S>(tile, direction, i), entry.0) && entry.1
            == desired[i]
}

/// Whether `sample` is a border sample of one of `tiles` tiles.
pub open spec fn is_catalog_border_sample<S: TileSurface>(tiles: nat, sample: TileSample) -> bool {
    sample.tile.0 < tiles && first_occurrences(border_sequence::<S>()).contains(sample.coord)
}

/// The color planned for `sample`, if any.
fn planned_color(plan: &Vec<(TileSample, Rgba)>, sample: TileSample) -> (r: Option<Rgba>)
    ensures
        r matches Some(color) ==> exists|m: int| 0 <= m < plan@.len() && #[trigger] plan@[m] == (sample, color),
        r is None <==> forall|m: int| 0 <= m < plan@.len() ==> (#[trigger] plan@[m]).0 != sample,
{
    let mut m: usize = 0;
    while m < plan.len()
        invariant
            m <= plan@.len(),
            forall|k: int| 0 <= k < m ==> (#[trigger] plan@[k]).0 != sample,
        decreases plan@.len() - m,
    {
        if plan[m].0 == sample {
            assert(plan@[m as int] == (sample, plan@[m as int].1));
            return Some(plan[m].1);
        }
        m += 1;
    }
    None
}

/// Plans a copy of one side onto another, or reports why it cannot apply. Every write is
/// collected before any is made: each target sample, and every sample linked to it, gets the
/// source color at its index, and a plan that would give two colors to one linked sample is
/// refused.
pub fn plan_edge_copy<S: TileSurface, P>(
    tiles: &TileSet<P, S::Direction, EdgeStrip<Rgba>>,
    source: EdgeRef<S::Direction>,
    target_tile: TileId,
    target_direction: S::Direction,
    reverse: bool,
) -> (r: Result<Vec<(TileSample, Rgba)>, EdgeCopyResult>)
    requires
        tiles@.len() * (S::Direction::spec_count() * S::spec_edge_samples()) <= usize::MAX,
        source.tile.0 < tiles@.len() ==> side_samples(tiles@, source.tile.0 as int, source.direction).len() <= S::spec_edge_samples(),
    ensures
        !(source.tile.0 < tiles@.len() && target_tile.0 < tiles@.len()) ==> r == Err::<Vec<(TileSample, Rgba)>, EdgeCopyResult>(
            EdgeCopyResult::Invalid,
        ),
        source.tile.0 < tiles@.len() && target_tile.0 < tiles@.len() ==> {
            let desired = copy_colors(side_samples(tiles@, source.tile.0 as int, source.direction), reverse);
            &&& (r is Err <==> copy_conflicts::<S, P>(tiles@, desired, target_tile, target_direction))
            &&& r is Err ==> r == Err::<Vec<(TileSample, Rgba)>, EdgeCopyResult>(EdgeCopyResult::Conflict)
            &&& r matches Ok(plan) ==> {
                &&& forall|m: int, n: int| 0 <= m < n < plan@.len() ==> plan@[m].0 != plan@[n].0
                &&& forall|m: int|
                    0 <= m < plan@.len() ==> is_catalog_border_sample::<S>(tiles@.len(), (#[trigger] plan@[m]).0)
                        && copy_assigns::<S, P>(tiles@, desired, target_tile, target_direction, plan@[m])
                &&& forall|i: int, sample: TileSample|
                    0 <= i < desired.len() && is_catalog_border_sample::<S>(tiles@.len(), sample) && #[trigger] forced_equal::<S, P>(
                        tiles@,
                        side_sample::<S>(target_tile, target_direction, i),
                        sample,
                    ) ==> plan@.contains((sample, desired[i]))
            }
        },
{
    if source.tile.index() >= tiles.len() || target_tile.index() >= tiles.len() {
        return Err(EdgeCopyResult::Invalid);
    }
    let source_tile = tiles.get(source.tile).unwrap();
    let edge = &source_tile.sockets[source.direction];
    let desired = copy_samples(edge.as_slice(), reverse);
    let links = EdgeLinkIndex::new::<S, P>(tiles);
    let ghost n = tiles@.len();
    let ghost targets = |i: int| side_sample::<S>(target_tile, target_direction, i);
    let ghost wanted = copy_colors(side_samples(tiles@, source.tile.0 as int, source.direction), reverse);
    proof {
        assert(edge@ == side_samples(tiles@, source.tile.0 as int, source.direction));
        assert forall|k: int| 0 <= k < desired@.len() implies links.spec_is_border_sample(#[trigger] targets(k)) by {
            lemma_edge_sample_on_border::<S>(target_direction, k);
        }
    }
    let mut plan: Vec<(TileSample, Rgba)> = Vec::new();
    let mut i: usize = 0;
    while i < desired.len()
        invariant
            source.tile.0 < tiles@.len(),
            desired@ == wanted,
            wanted == copy_colors(side_samples(tiles@, source.tile.0 as int, source.direction), reverse),
            links.wf(),
            links.spec_border() == first_occurrences(border_sequence::<S>()),
            links.spec_tile_count() == n,
            n == tiles@.len(),
            target_tile.0 < n,
            desired@.len() <= S::spec_edge_samples(),
            forall|a: TileSample, b: TileSample|
                #[trigger] links.spec_linked(a, b) <==> links.spec_is_border_sample(a) && links.spec_is_border_sample(b)
                    && forced_equal::<S, P>(tiles@, a, b),
            targets == (|k: int| side_sample::<S>(target_tile, target_direction, k)),
            i <= desired@.len(),
            forall|m: int, o: int| 0 <= m < o < plan@.len() ==> plan@[m].0 != plan@[o].0,
            forall|m: int|
                0 <= m < plan@.len() ==> exists|k: int| 0 <= k < i && links.spec_linked(targets(k), (#[trigger] plan@[m]).0) && plan@[m].1 == desired@[k],
            forall|k: int, sample: TileSample| 0 <= k < i && #[trigger] links.spec_linked(targets(k), sample) ==> plan@.contains((sample, desired@[k])),
            forall|k1: int, k2: int| 0 <= k1 < i && 0 <= k2 < i && #[trigger] links.spec_linked(targets(k1), targets(k2)) ==> desired@[k1] == desired@[k2],
            forall|k: int| 0 <= k < desired@.len() ==> links.spec_is_border_sample(#[trigger] targets(k)),
        decreases desired@.len() - i,
    {
        let target = TileSample { tile: target_tile, coord: S::edge_sample(target_direction, i) };
        proof {
            assert(target == targets(i as int));
        }
        let linked = match links.linked_samples(target) {
            Some(list) => list,
            None => return Err(EdgeCopyResult::Invalid),
        };
        let color = desired[i];
        let ghost before = plan@;
        let mut m: usize = 0;
        while m < linked.len()
            invariant
                source.tile.0 < tiles@.len(),
                target_tile.0 < n,
                n == tiles@.len(),
                desired@ == wanted,
                wanted == copy_colors(side_samples(tiles@, source.tile.0 as int, source.direction), reverse),
                links.wf(),
                forall|a: TileSample, b: TileSample|
                    #[trigger] links.spec_linked(a, b) <==> links.spec_is_border_sample(a) && links.spec_is_border_sample(b)
                        && forced_equal::<S, P>(tiles@, a, b),
                targets == (|k: int| side_sample::<S>(target_tile, target_direction, k)),
                i < desired@.len(),
                target == targets(i as int),
                color == desired@[i as int],
                forall|t: TileSample| linked@.contains(t) <==> links.spec_linked(target, t),
                m <= linked@.len(),
                forall|a: int, o: int| 0 <= a < o < plan@.len() ==> plan@[a].0 != plan@[o].0,
                forall|a: int|
                    0 <= a < plan@.len() ==> exists|k: int| 0 <= k < i + 1 && links.spec_linked(targets(k), (#[trigger] plan@[a]).0) && plan@[a].1 == desired@[k],
                forall|k: int, sample: TileSample| 0 <= k < i && #[trigger] links.spec_linked(targets(k), sample) ==> plan@.contains((sample, desired@[k])),
                forall|k1: int, k2: int| 0 <= k1 < i && 0 <= k2 < i && #[trigger] links.spec_linked(targets(k1), targets(k2)) ==> desired@[k1] == desired@[k2],
                forall|a: int| 0 <= a < m ==> plan@.contains((#[trigger] linked@[a], color)),
                forall|k: int| 0 <= k < desired@.len() ==> links.spec_is_border_sample(#[trigger] targets(k)),
            decreases linked@.len() - m,
        {
            let sample = linked[m];
            proof {
                assert(linked@.contains(sample));
            }
            match planned_color(&plan, sample) {
                Some(existing) => {
                    proof {
                        let w = choose|w: int| 0 <= w < plan@.len() && #[trigger] plan@[w] == (sample, existing);
                        assert(plan@[w] == (linked@[m as int], existing));
                    }
                    if existing != color {
                        proof {
                            lemma_copy_conflict_found::<S, P>(tiles@, links, plan@, desired@, target_tile, target_direction, i as int, sample, existing);
                        }
                        return Err(EdgeCopyResult::Conflict);
                    }
                },
                None => {
                    let ghost old_plan = plan@;
                    plan.push((sample, color));
                    proof {
                        assert(plan@[plan@.len() - 1] == (sample, color));
                        assert forall|x: (TileSample, Rgba)| old_plan.contains(x) implies plan@.contains(x) by {
                            let w = choose|w: int| 0 <= w < old_plan.len() && old_plan[w] == x;
                            assert(plan@[w] == x);
                        }
                        assert forall|a: int| 0 <= a < m + 1 implies plan@.contains((#[trigger] linked@[a], color)) by {
                            if a < m {
                                assert(old_plan.contains((linked@[a], color)));
                            }
                        }
                        assert forall|k: int, t: TileSample| 0 <= k < i && #[trigger] links.spec_linked(targets(k), t) implies plan@.contains(
                            (t, desired@[k]),
                        ) by {
                            assert(old_plan.contains((t, desired@[k])));
                        }
                    }
                },
            }
            m += 1;
        }
        proof {
            assert(links.spec_linked(target, target));
            assert(linked@.contains(target));
            let w = choose|w: int| 0 <= w < linked@.len() && linked@[w] == target;
            assert(plan@.contains((linked@[w], color)));
            assert forall|k1: int, k2: int| 0 <= k1 < i + 1 && 0 <= k2 < i + 1 && #[trigger] links.spec_linked(targets(k1), targets(k2))
                implies desired@[k1] == desired@[k2] by {
                if k1 < i && k2 == i {
                    assert(plan@.contains((target, desired@[k1])));
                    let a = choose|a: int| 0 <= a < plan@.len() && plan@[a] == (target, desired@[k1]);
                    let b = choose|b: int| 0 <= b < plan@.len() && plan@[b] == (target, color);
                    assert(a == b);
                } else if k1 == i && k2 < i {
                    assert(links.spec_linked(targets(k2), targets(k1)));
                    assert(plan@.contains((target, desired@[k2])));
                    let a = choose|a: int| 0 <= a < plan@.len() && plan@[a] == (target, desired@[k2]);
                    let b = choose|b: int| 0 <= b < plan@.len() && plan@[b] == (target, color);
                    assert(a == b);
                }
            }
        }
        i += 1;
    }
    proof {
        assert(!copy_conflicts::<S, P>(tiles@, desired@, target_tile, target_direction)) by {
            assert forall|a: int, b: int|
                0 <= a < desired@.len() && 0 <= b < desired@.len() && #[trigger] forced_equal::<S, P>(
                    tiles@,
                    side_sample::<S>(target_tile, target_direction, a),
                    side_sample::<S>(target_tile, target_direction, b),
                ) implies desired@[a] == desired@[b] by {
                assert(links.spec_linked(targets(a), targets(b)));
            }
        }
        assert forall|m: int| 0 <= m < plan@.len() implies is_catalog_border_sample::<S>(tiles@.len(), (#[trigger] plan@[m]).0)
            && copy_assigns::<S, P>(tiles@, desired@, target_tile, target_direction, plan@[m]) by {
            let k = choose|k: int| 0 <= k < i && links.spec_linked(targets(k), (#[trigger] plan@[m]).0) && plan@[m].1 == desired@[k];
            assert(links.spec_linked(targets(k), plan@[m].0));
            assert(links.spec_is_border_sample(plan@[m].0));
            assert(is_catalog_border_sample::<S>(tiles@.len(), plan@[m].0));
            assert(forced_equal::<S, P>(tiles@, side_sample::<S>(target_tile, target_direction, k), plan@[m].0));
        }
        assert forall|k: int, sample: TileSample|
            0 <= k < desired@.len() && is_catalog_border_sample::<S>(tiles@.len(), sample) && #[trigger] forced_equal::<S, P>(
                tiles@,
                side_sample::<S>(target_tile, target_direction, k),
                sample,
            ) implies plan@.contains((sample, desired@[k])) by {
            assert(links.spec_linked(targets(k), sample));
        }
    }
    Ok(plan)
}

/// A sample planned earlier with another color than the current target's is a conflict.
proof fn lemma_copy_conflict_found<S: TileSurface, P>(
    tiles: Seq<Tile<P, S::Direction, EdgeStrip<Rgba>>>,
    links: EdgeLinkIndex,
    plan: Seq<(TileSample, Rgba)>,
    desired: Seq<Rgba>,
    tile: TileId,
    direction: S::Direction,
    i: int,
    sample: TileSample,
    existing: Rgba,
)
    requires
        forall|a: TileSample, b: TileSample|
            #[trigger] links.spec_linked(a, b) <==> links.spec_is_border_sample(a) && links.spec_is_border_sample(b)
                && forced_equal::<S, P>(tiles, a, b),
        0 <= i < desired.len(),
        links.spec_linked(side_sample::<S>(tile, direction, i), sample),
        exists|m: int| 0 <= m < plan.len() && #[trigger] plan[m] == (sample, existing),
        forall|a: int|
            0 <= a < plan.len() ==> exists|k: int| 0 <= k < i + 1 && links.spec_linked(side_sample::<S>(tile, direction, k), (#[trigger] plan[a]).0) && plan[a].1 == desired[k],
        existing != desired[i],
    ensures
        copy_conflicts::<S, P>(tiles, desired, tile, direction),
{
    let m = choose|m: int| 0 <= m < plan.len() && #[trigger] plan[m] == (sample, existing);
    let k = choose|k: int| 0 <= k < i + 1 && links.spec_linked(side_sample::<S>(tile, direction, k), plan[m].0) && plan[m].1 == desired[k];
    let tk = side_sample::<S>(tile, direction, k);
    let ti = side_sample::<S>(tile, direction, i);
    assert(links.spec_linked(tk, ti));
    assert(forced_equal::<S, P>(tiles, tk, ti));
    assert(desired[k] != desired[i]);
}

/// Whether a stroke over `source` writes `sample`: the source itself, or a border sample
/// linked to a border source.
pub open spec fn stroke_reaches<S: TileSurface, P>(
    tiles: Seq<Tile<P, S::Direction, EdgeStrip<Rgba>>>,
    source: TileSample,
    sample: TileSample,
) -> bool {
    ||| sample == source
    ||| is_catalog_border_sample::<S>(tiles.len(), source) && is_catalog_border_sample::<S>(tiles.len(), sample)
        && forced_equal::<S, P>(tiles, source, sample)
}

/// Appends every sample of `samples`, each with `color`.
fn push_all(plan: &mut Vec<(TileSample, Rgba)>, samples: &[TileSample], color: Rgba)
    ensures
        final(plan)@ == old(plan)@ + samples@.map_values(|t: TileSample| (t, color)),
{
    let ghost start = plan@;
    let mut m: usize = 0;
    while m < samples.len()
        invariant
            m <= samples@.len(),
            plan@ == start + samples@.take(m as int).map_values(|t: TileSample| (t, color)),
        decreases samples@.len() - m,
    {
        plan.push((samples[m], color));
        m += 1;
        proof {
            assert(plan@ =~= start + samples@.take(m as int).map_values(|t: TileSample| (t, color)));
        }
    }
    proof {
        assert(samples@.take(m as int) =~= samples@);
    }
}

/// Whether `plan` has an entry for `sample`.
pub open spec fn plans_sample(plan: Seq<(TileSample, Rgba)>, sample: TileSample) -> bool {
    exists|n: int| 0 <= n < plan.len() && plan[n].0 == sample
}

/// The entries of `plan`, one for each sample: the first entry for a sample stays and later
/// ones are dropped.
fn first_entries(plan: &Vec<(TileSample, Rgba)>) -> (r: Vec<(TileSample, Rgba)>)
    ensures
        forall|m: int| 0 <= m < r@.len() ==> plan@.contains(#[trigger] r@[m]),
        forall|m: int| 0 <= m < plan@.len() ==> plans_sample(r@, (#[trigger] plan@[m]).0),
        forall|m: int, n: int| 0 <= m < n < r@.len() ==> r@[m].0 != r@[n].0,
{
    let mut r: Vec<(TileSample, Rgba)> = Vec::new();
    let mut i: usize = 0;
    while i < plan.len()
        invariant
            i <= plan@.len(),
            forall|m: int| 0 <= m < r@.len() ==> plan@.contains(#[trigger] r@[m]),
            forall|m: int| 0 <= m < i ==> plans_sample(r@, (#[trigger] plan@[m]).0),
            forall|m: int, n: int| 0 <= m < n < r@.len() ==> r@[m].0 != r@[n].0,
        decreases plan@.len() - i,
    {
        let entry = plan[i];
        let ghost before = r@;
        match planned_color(&r, entry.0) {
            Some(_) => {
                proof {
                    let w = choose|w: int| 0 <= w < r@.len() && #[trigger] r@[w] == (entry.0, r@[w].1);
                    assert(r@[w].0 == plan@[i as int].0);
                    assert(plans_sample(r@, plan@[i as int].0));
                }
            },
            None => {
                r.push(entry);
                proof {
                    assert(plan@.contains(plan@[i as int]));
                    assert forall|m: int| 0 <= m < i + 1 implies plans_sample(r@, (#[trigger] plan@[m]).0) by {
                        if m < i {
                            assert(plans_sample(before, plan@[m].0));
                            let n = choose|n: int| 0 <= n < before.len() && before[n].0 == plan@[m].0;
                            assert(r@[n] == before[n]);
                        } else {
                            assert(r@[before.len() as int] == entry);
                            assert(plans_sample(r@, plan@[m].0));
                        }
                    }
                    assert forall|m: int| 0 <= m < r@.len() implies plan@.contains(#[trigger] r@[m]) by {
                        if m < before.len() {
                            assert(r@[m] == before[m]);
                        }
                    }
                }
            },
        }
        i += 1;
    }
    proof {
        assert forall|m: int| 0 <= m < plan@.len() implies plans_sample(r@, (#[trigger] plan@[m]).0) by {
            assert(m < i);
        }
    }
    r
}

/// Plans a brush stroke over tile `tile`: every stroke sample gets `color`, and a border
/// sample carries it to every sample the catalog's edge families link it to, so that painting
/// one edge repaints every edge that must match it.
pub fn plan_stroke<S: TileSurface, P>(
    tiles: &TileSet<P, S::Direction, EdgeStrip<Rgba>>,
    tile: TileId,
    stroke: &Vec<Coord2>,
    color: Rgba,
) -> (r: Vec<(TileSample, Rgba)>)
    requires
        tiles@.len() * (S::Direction::spec_count() * S::spec_edge_samples()) <= usize::MAX,
    ensures
        forall|m: int, n: int| 0 <= m < n < r@.len() ==> r@[m].0 != r@[n].0,
        forall|m: int| 0 <= m < r@.len() ==> (#[trigger] r@[m]).1 == color && exists|k: int| 0 <= k < stroke@.len()
            && #[trigger] stroke_reaches::<S, P>(tiles@, TileSample { tile, coord: stroke@[k] }, r@[m].0),
        forall|k: int| 0 <= k < stroke@.len() && !is_catalog_border_sample::<S>(tiles@.len(), TileSample { tile, coord: #[trigger] stroke@[k] })
            ==> r@.contains((TileSample { tile, coord: stroke@[k] }, color)),
        forall|k: int, sample: TileSample|
            0 <= k < stroke@.len() && is_catalog_border_sample::<S>(tiles@.len(), TileSample { tile, coord: #[trigger] stroke@[k] })
                && is_catalog_border_sample::<S>(tiles@.len(), sample) && #[trigger] forced_equal::<S, P>(
                tiles@,
                TileSample { tile, coord: stroke@[k] },
                sample,
            ) ==> r@.contains((sample, color)),
{
    let links = EdgeLinkIndex::new::<S, P>(tiles);
    let ghost n = tiles@.len();
    let ghost sources = |k: int| TileSample { tile, coord: stroke@[k] };
    let ghost mut origin: Seq<int> = Seq::empty();
    let mut plan: Vec<(TileSample, Rgba)> = Vec::new();
    let mut k: usize = 0;
    while k < stroke.len()
        invariant
            links.wf(),
            links.spec_border() == first_occurrences(border_sequence::<S>()),
            links.spec_tile_count() == n,
            n == tiles@.len(),
            sources == (|k: int| TileSample { tile, coord: stroke@[k] }),
            forall|a: TileSample, b: TileSample|
                #[trigger] links.spec_linked(a, b) <==> links.spec_is_border_sample(a) && links.spec_is_border_sample(b)
                    && forced_equal::<S, P>(tiles@, a, b),
            k <= stroke@.len(),
            origin.len() == plan@.len(),
            forall|m: int| 0 <= m < plan@.len() ==> (#[trigger] plan@[m]).1 == color && 0 <= origin[m] < k && stroke_reaches::<S, P>(
                tiles@,
                sources(origin[m]),
                plan@[m].0,
            ),
            forall|j: int| 0 <= j < k && !links.spec_is_border_sample(#[trigger] sources(j)) ==> plan@.contains((sources(j), color)),
            forall|j: int, sample: TileSample| 0 <= j < k && #[trigger] links.spec_linked(sources(j), sample) ==> plan@.contains((sample, color)),
        decreases stroke@.len() - k,
    {
        let source = TileSample { tile, coord: stroke[k] };
        assert(source == sources(k as int));
        let ghost before = plan@;
        let ghost j = k as int;
        let linked = links.linked_samples(source);
        let ghost added: nat;
        if let Some(list) = linked {
            push_all(&mut plan, list, color);
            proof {
                added = list@.len();
                assert forall|a: int| 0 <= a < list@.len() implies stroke_reaches::<S, P>(tiles@, source, #[trigger] list@[a]) by {
                    assert(list@.contains(list@[a]));
                }
                assert forall|t: TileSample| #[trigger] links.spec_linked(source, t) implies plan@.contains((t, color)) by {
                    assert(list@.contains(t));
                    let w = choose|w: int| 0 <= w < list@.len() && list@[w] == t;
                    assert(plan@[before.len() + w] == (list@[w], color));
                }
            }
        } else {
            plan.push((source, color));
            proof {
                added = 1;
                assert(plan@[before.len() as int] == (source, color));
            }
        }
        proof {
            origin = origin + Seq::new(added, |a: int| j);
            assert(plan@.len() == before.len() + added);
            assert forall|a: int| 0 <= a < before.len() implies plan@[a] == #[trigger] before[a] by {}
            assert forall|x: (TileSample, Rgba)| before.contains(x) implies plan@.contains(x) by {
                let w = choose|w: int| 0 <= w < before.len() && before[w] == x;
                assert(plan@[w] == before[w]);
            }
        }
        k += 1;
        proof {
            assert forall|m: int| 0 <= m < plan@.len() implies (#[trigger] plan@[m]).1 == color && 0 <= origin[m] < k
                && stroke_reaches::<S, P>(tiles@, sources(origin[m]), plan@[m].0) by {
                if m < before.len() {
                    assert(plan@[m] == before[m]);
                } else {
                    let b = m - before.len();
                    assert(origin[m] == j);
                    match linked {
                        Some(list) => {
                            assert(plan@[m] == (list@[b], color));
                            assert(stroke_reaches::<S, P>(tiles@, source, list@[b]));
                        },
                        None => {},
                    }
                }
            }
            assert forall|i: int, sample: TileSample| 0 <= i < k && #[trigger] links.spec_linked(sources(i), sample) implies plan@.contains(
                (sample, color),
            ) by {
                if i < j {
                    assert(before.contains((sample, color)));
                }
            }
            assert forall|i: int| 0 <= i < k && !links.spec_is_border_sample(#[trigger] sources(i)) implies plan@.contains(
                (sources(i), color),
            ) by {
                if i < j {
                    assert(before.contains((sources(i), color)));
                }
            }
        }
    }
    proof {
        assert forall|m: int| 0 <= m < plan@.len() implies (#[trigger] plan@[m]).1 == color && exists|i: int| 0 <= i < stroke@.len()
            && #[trigger] stroke_reaches::<S, P>(tiles@, TileSample { tile, coord: stroke@[i] }, plan@[m].0) by {
            let i = origin[m];
            assert(stroke_reaches::<S, P>(tiles@, sources(i), plan@[m].0));
            assert(sources(i) == TileSample { tile, coord: stroke@[i] });
        }
        assert forall|i: int| 0 <= i < stroke@.len() && !is_catalog_border_sample::<S>(tiles@.len(), TileSample { tile, coord: #[trigger] stroke@[i] })
            implies plan@.contains((TileSample { tile, coord: stroke@[i] }, color)) by {
            assert(!links.spec_is_border_sample(sources(i)));
        }
        assert forall|i: int, sample: TileSample|
            0 <= i < stroke@.len() && is_catalog_border_sample::<S>(tiles@.len(), TileSample { tile, coord: #[trigger] stroke@[i] })
                && is_catalog_border_sample::<S>(tiles@.len(), sample) && #[trigger] forced_equal::<S, P>(
                tiles@,
                TileSample { tile, coord: stroke@[i] },
                sample,
            ) implies plan@.contains((sample, color)) by {
            assert(links.spec_linked(sources(i), sample));
        }
    }
    let once = first_entries(&plan);
    proof {
        assert forall|m: int| 0 <= m < once@.len() implies (#[trigger] once@[m]).1 == color && exists|i: int| 0 <= i < stroke@.len()
            && #[trigger] stroke_reaches::<S, P>(tiles@, TileSample { tile, coord: stroke@[i] }, once@[m].0) by {
            assert(plan@.contains(once@[m]));
            let w = choose|w: int| 0 <= w < plan@.len() && plan@[w] == once@[m];
            assert(plan@[w].1 == color);
        }
        assert forall|x: (TileSample, Rgba)| x.1 == color && #[trigger] plan@.contains(x) implies once@.contains(x) by {
            let w = choose|w: int| 0 <= w < plan@.len() && plan@[w] == x;
            assert(plans_sample(once@, plan@[w].0));
            let n = choose|n: int| 0 <= n < once@.len() && once@[n].0 == plan@[w].0;
            assert(plan@.contains(once@[n]));
            let v = choose|v: int| 0 <= v < plan@.len() && plan@[v] == once@[n];
            assert(plan@[v].1 == color);
            assert(once@[n] == x);
        }
    }
    once
}

/// The color sample `coord` of surface `tile` holds after the first `k` writes of `plan`,
/// starting from `start`: a write replaces the color of a sample, and a write to a
/// coordinate that is not a sample changes nothing.
pub open spec fn written_sample(
    plan: Seq<(TileSample, Rgba)>,
    k: int,
    tile: int,
    coord: Coord2,
    start: Option<Rgba>,
) -> Option<Rgba>
    decreases k,
{
    if k <= 0 {
        start
    } else {
        let before = written_sample(plan, k - 1, tile, coord, start);
        if plan[k - 1].0.tile.0 == tile && plan[k - 1].0.coord == coord && before is Some {
            Some(plan[k - 1].1)
        } else {
            before
        }
    }
}

/// Whether write `m` of `plan` gives a sample of surface `tile`, which started as `start`, a
/// new color.
pub open spec fn write_changes<S: TileSurface>(plan: Seq<(TileSample, Rgba)>, m: int, tile: int, start: S) -> bool {
    &&& plan[m].0.tile.0 == tile
    &&& match written_sample(plan, m, tile, plan[m].0.coord, start.spec_sample(plan[m].0.coord)) {
        Some(before) => before != plan[m].1,
        None => false,
    }
}

/// Whether one of the first `k` writes of `plan` gave a sample of surface `tile`, which
/// started as `start`, a new color.
pub open spec fn plan_changes<S: TileSurface>(plan: Seq<(TileSample, Rgba)>, k: int, tile: int, start: S) -> bool {
    exists|m: int| 0 <= m < k && #[trigger] write_changes(plan, m, tile, start)
}

/// Whether `tile`'s sockets are the side strips read from `surface`.
pub open spec fn sockets_read<S: TileSurface, P>(tile: Tile<P, S::Direction, EdgeStrip<Rgba>>, surface: S) -> bool {
    &&& tile.sockets@.len() == S::Direction::spec_count()
    &&& forall|d: int| 0 <= d < S::Direction::spec_count() ==> (#[trigger] tile.sockets@[d])@.len() == S::spec_edge_samples()
    &&& forall|d: int, i: int|
        0 <= d < S::Direction::spec_count() && 0 <= i < S::spec_edge_samples() ==> Some(#[trigger] tile.sockets@[d]@[i])
            == surface.spec_sample(S::spec_edge_sample(S::Direction::spec_from_index(d as nat), i))
}

/// Writes the samples of `plan` in order into the surfaces of the catalog's tiles, skipping
/// writes to tiles the catalog does not have, then re-reads the sockets of every tile whose
/// samples changed. Returns whether any sample changed.
pub fn apply_plan<S: TileSurface, P>(
    tiles: &mut TileSet<P, S::Direction, EdgeStrip<Rgba>>,
    surfaces: &mut Vec<S>,
    plan: &Vec<(TileSample, Rgba)>,
) -> (r: bool)
    requires
        old(surfaces)@.len() == old(tiles)@.len(),
        forall|t: int| 0 <= t < old(surfaces)@.len() ==> (#[trigger] old(surfaces)@[t]).surface_wf(),
    ensures
        final(surfaces)@.len() == old(surfaces)@.len(),
        final(tiles)@.len() == old(tiles)@.len(),
        forall|t: int| 0 <= t < final(surfaces)@.len() ==> (#[trigger] final(surfaces)@[t]).surface_wf(),
        forall|t: int, c: Coord2|
            0 <= t < old(surfaces)@.len() ==> #[trigger] final(surfaces)@[t].spec_sample(c) == written_sample(
                plan@,
                plan@.len() as int,
                t,
                c,
                old(surfaces)@[t].spec_sample(c),
            ),
        r == exists|t: int| 0 <= t < old(surfaces)@.len() && #[trigger] plan_changes(plan@, plan@.len() as int, t, old(surfaces)@[t]),
        forall|t: int|
            0 <= t < old(tiles)@.len() ==> if plan_changes(plan@, plan@.len() as int, t, old(surfaces)@[t]) {
                (#[trigger] final(tiles)@[t]).payload == old(tiles)@[t].payload && sockets_read::<S, P>(final(tiles)@[t], final(surfaces)@[t])
            } else {
                final(tiles)@[t] == old(tiles)@[t]
            },
{
    let ghost start = surfaces@;
    let ghost start_tiles = tiles@;
    let n = surfaces.len();
    let mut changed: Vec<bool> = Vec::with_capacity(n);
    let mut t: usize = 0;
    while t < n
        invariant
            t <= n,
            changed@.len() == t,
            forall|u: int| 0 <= u < t ==> !#[trigger] changed@[u],
        decreases n - t,
    {
        changed.push(false);
        t += 1;
    }
    let mut k: usize = 0;
    while k < plan.len()
        invariant
            n == start.len(),
            surfaces@.len() == n,
            k <= plan@.len(),
            changed@.len() == n,
            forall|u: int| 0 <= u < n ==> (#[trigger] surfaces@[u]).surface_wf(),
            forall|u: int, c: Coord2| 0 <= u < n ==> #[trigger] surfaces@[u].spec_sample(c) == written_sample(
                plan@,
                k as int,
                u,
                c,
                start[u].spec_sample(c),
            ),
            forall|u: int| 0 <= u < n ==> #[trigger] changed@[u] == plan_changes(plan@, k as int, u, start[u]),
        decreases plan@.len() - k,
    {
        let (sample, color) = plan[k];
        let ghost before = surfaces@;
        let ghost before_changed = changed@;
        let target = sample.tile.index();
        if target < n {
            let wrote = surfaces[target].set_sample(sample.coord, color);
            if wrote {
                changed.set(target, true);
            }
            proof {
                assert forall|u: int, c: Coord2| 0 <= u < n implies #[trigger] surfaces@[u].spec_sample(c) == written_sample(
                    plan@,
                    k + 1,
                    u,
                    c,
                    start[u].spec_sample(c),
                ) by {
                    assert(before[u].spec_sample(c) == written_sample(plan@, k as int, u, c, start[u].spec_sample(c)));
                    if u != target {
                        assert(surfaces@[u] == before[u]);
                    }
                }
                assert forall|u: int| 0 <= u < n implies #[trigger] changed@[u] == plan_changes(plan@, k + 1, u, start[u]) by {
                    assert(before[u].spec_sample(sample.coord) == written_sample(
                        plan@,
                        k as int,
                        u,
                        sample.coord,
                        start[u].spec_sample(sample.coord),
                    ));
                    if plan_changes(plan@, k + 1, u, start[u]) && !plan_changes(plan@, k as int, u, start[u]) {
                        let m = choose|m: int| 0 <= m < k + 1 && #[trigger] write_changes(plan@, m, u, start[u]);
                        assert(m == k);
                    }
                    if u == target && wrote {
                        assert(write_changes(plan@, k as int, u, start[u]));
                    }
                    if u == target && !wrote {
                        assert(!write_changes(plan@, k as int, u, start[u]));
                    }
                }
            }
        } else {
            proof {
                assert forall|u: int, c: Coord2| 0 <= u < n implies #[trigger] surfaces@[u].spec_sample(c) == written_sample(
                    plan@,
                    k + 1,
                    u,
                    c,
                    start[u].spec_sample(c),
                ) by {
                    assert(before[u].spec_sample(c) == written_sample(plan@, k as int, u, c, start[u].spec_sample(c)));
                }
                assert forall|u: int| 0 <= u < n implies #[trigger] changed@[u] == plan_changes(plan@, k + 1, u, start[u]) by {
                    if plan_changes(plan@, k + 1, u, start[u]) && !plan_changes(plan@, k as int, u, start[u]) {
                        let m = choose|m: int| 0 <= m < k + 1 && #[trigger] write_changes(plan@, m, u, start[u]);
                        assert(m == k);
                    }
                }
            }
        }
        k += 1;
    }
    let mut any = false;
    let mut t: usize = 0;
    while t < n
        invariant
            n == start.len(),
            n == start_tiles.len(),
            surfaces@.len() == n,
            tiles@.len() == n,
            changed@.len() == n,
            t <= n,
            forall|u: int| 0 <= u < n ==> (#[trigger] surfaces@[u]).surface_wf(),
            forall|u: int| 0 <= u < n ==> #[trigger] changed@[u] == plan_changes(plan@, plan@.len() as int, u, start[u]),
            any == exists|u: int| 0 <= u < t && #[trigger] plan_changes(plan@, plan@.len() as int, u, start[u]),
            forall|u: int|
                0 <= u < n ==> if u < t && plan_changes(plan@, plan@.len() as int, u, start[u]) {
                    (#[trigger] tiles@[u]).payload == start_tiles[u].payload && sockets_read::<S, P>(tiles@[u], surfaces@[u])
                } else {
                    tiles@[u] == start_tiles[u]
                },
        decreases n - t,
    {
        if changed[t] {
            any = true;
            let strips = surfaces[t].edge_strips();
            let ghost before = tiles@;
            match tiles.get_mut(TileId(t)) {
                Some(tile) => {
                    tile.sockets = strips;
                },
                None => {},
            }
            proof {
                assert(plan_changes(plan@, plan@.len() as int, t as int, start[t as int]));
                assert forall|u: int| 0 <= u < n && u != t implies #[trigger] tiles@[u] == before[u] by {}
            }
        }
        t += 1;
    }
    any
}

/// How a union of `left` and `right` changes which elements share a set: two elements share
/// one afterwards exactly when they did before, or one shared `left`'s set and the other
/// `right`'s.
pub open spec fn spec_union_step(before: DisjointSets, after: DisjointSets, left: int, right: int) -> bool {
    &&& after.spec_len() == before.spec_len()
    &&& forall|i: int, j: int|
        0 <= i < before.spec_len() && 0 <= j < before.spec_len() ==> (#[trigger] after.spec_same(i, j) <==> #[trigger] before.spec_same(i, j)
            || (before.spec_same(i, left) && before.spec_same(j, right))
            || (before.spec_same(i, right) && before.spec_same(j, left)))
}

/// Whether `x` and `y` are joined by the reflexive, symmetric and transitive closure of
/// `pairs`, the pairs taken one at a time.
pub open spec fn joined(pairs: Seq<(int, int)>, x: int, y: int) -> bool
    decreases pairs.len(),
{
    if pairs.len() == 0 {
        x == y
    } else {
        let rest = pairs.drop_last();
        let (a, b) = pairs.last();
        ||| joined(rest, x, y)
        ||| joined(rest, x, a) && joined(rest, b, y)
        ||| joined(rest, x, b) && joined(rest, a, y)
    }
}

/// Whether the sets of `sets` are exactly the classes that `pairs` join.
pub open spec fn partitions(sets: DisjointSets, pairs: Seq<(int, int)>) -> bool {
    forall|x: int, y: int| 0 <= x < sets.spec_len() && 0 <= y < sets.spec_len() ==> (#[trigger] sets.spec_same(x, y) <==> joined(pairs, x, y))
}

/// Union-find computes the equivalence closure of its unions: starting from singletons,
/// after the unions `pairs[0]`, `pairs[1]`, ... (each state the one the union left), two
/// elements share a set exactly when the pairs join them. `find` leaves the representatives
/// as they are, so it keeps this partition.
pub proof fn lemma_unions_partition(states: Seq<DisjointSets>, pairs: Seq<(int, int)>)
    requires
        states.len() == pairs.len() + 1,
        forall|i: int| 0 <= i < states[0].spec_len() ==> #[trigger] states[0].spec_roots()[i] == i,
        forall|k: int|
            0 <= k < pairs.len() ==> 0 <= (#[trigger] pairs[k]).0 < states[k].spec_len() && 0 <= pairs[k].1 < states[k].spec_len()
                && spec_union_step(states[k], states[k + 1], pairs[k].0, pairs[k].1),
    ensures
        partitions(states.last(), pairs),
    decreases pairs.len(),
{
    if pairs.len() == 0 {
        let first = states[0];
        assert forall|x: int, y: int| 0 <= x < first.spec_len() && 0 <= y < first.spec_len() implies (#[trigger] first.spec_same(x, y)
            <==> joined(pairs, x, y)) by {
            assert(first.spec_roots()[x] == x);
            assert(first.spec_roots()[y] == y);
        }
    } else {
        let k = pairs.len() - 1;
        let rest = pairs.drop_last();
        let earlier = states.drop_last();
        assert forall|m: int| 0 <= m < rest.len() implies 0 <= (#[trigger] rest[m]).0 < earlier[m].spec_len() && 0 <= rest[m].1
            < earlier[m].spec_len() && spec_union_step(earlier[m], earlier[m + 1], rest[m].0, rest[m].1) by {
            assert(rest[m] == pairs[m]);
            assert(earlier[m] == states[m]);
            assert(earlier[m + 1] == states[m + 1]);
            assert(0 <= pairs[m].0 < states[m].spec_len());
        }
        lemma_unions_partition(earlier, rest);
        let before = states[k];
        let after = states[k + 1];
        assert(earlier.last() == before);
        assert(0 <= pairs[k].0 < states[k].spec_len());
        let (a, b) = pairs.last();
        assert(pairs.last() == pairs[k]);
        assert forall|x: int, y: int| 0 <= x < after.spec_len() && 0 <= y < after.spec_len() implies (#[trigger] after.spec_same(x, y)
            <==> joined(pairs, x, y)) by {
            assert(before.spec_same(x, y) <==> joined(rest, x, y));
            assert(before.spec_same(x, a) <==> joined(rest, x, a));
            assert(before.spec_same(x, b) <==> joined(rest, x, b));
            assert(before.spec_same(b, y) <==> joined(rest, b, y));
            assert(before.spec_same(a, y) <==> joined(rest, a, y));
            assert(after.spec_same(x, y) <==> before.spec_same(x, y) || (before.spec_same(x, a) && before.spec_same(y, b))
                || (before.spec_same(x, b) && before.spec_same(y, a)));
        }
        assert(states.last() == after);
    }
}


/// Lexicographic order never holds both ways.
proof fn lemma_seq_less_asymmetric(a: Seq<u32>, b: Seq<u32>)
    ensures
        !(seq_less(a, b) && seq_less(b, a)),
{
    if seq_less(a, b) && seq_less(b, a) {
        let i = choose|i: int|
            0 <= i <= a.len() && i <= b.len() && #[trigger] a.take(i) == b.take(i) && ((i < a.len() && i < b.len() && a[i] < b[i])
                || (i == a.len() && i < b.len()));
        let j = choose|j: int|
            0 <= j <= b.len() && j <= a.len() && #[trigger] b.take(j) == a.take(j) && ((j < b.len() && j < a.len() && b[j] < a[j])
                || (j == b.len() && j < a.len()));
        if i < j {
            assert(a.take(j)[i] == b.take(j)[i]);
        } else if j < i {
            assert(a.take(i)[j] == b.take(i)[j]);
        }
    }
}

/// Two different sequences are ordered one way or the other, given that they agree on their
/// first `n` elements.
proof fn lemma_seq_less_total_from(a: Seq<u32>, b: Seq<u32>, n: int)
    requires
        a != b,
        0 <= n <= a.len(),
        n <= b.len(),
        a.take(n) == b.take(n),
    ensures
        seq_less(a, b) || seq_less(b, a),
    decreases a.len() - n,
{
    if n == a.len() && n == b.len() {
        assert(a =~= a.take(n));
        assert(b =~= b.take(n));
    } else if n == a.len() {
        assert(seq_less(a, b));
    } else if n == b.len() {
        assert(b.take(n) == a.take(n));
        assert(seq_less(b, a));
    } else if a[n] < b[n] {
        assert(seq_less(a, b));
    } else if b[n] < a[n] {
        assert(b.take(n) == a.take(n));
        assert(seq_less(b, a));
    } else {
        let next_a = a.take(n + 1);
        let next_b = b.take(n + 1);
        assert(next_a =~= next_b) by {
            assert forall|k: int| 0 <= k < n implies #[trigger] next_a[k] == next_b[k] by {
                assert(a.take(n)[k] == b.take(n)[k]);
            }
        }
        lemma_seq_less_total_from(a, b, n + 1);
    }
}

/// Two sides share a family key exactly when their strips are equal or one is the other
/// read backwards; the key is the strip or its reverse, whichever sorts first.
pub proof fn lemma_family_keys_match_equal_or_reversed_strips(a: Seq<Rgba>, b: Seq<Rgba>)
    ensures
        family_key(a) == family_key(b) <==> (b == a || b == reversed_samples(a)),
        family_key(a) == a || family_key(a) == reversed_samples(a),
        !seq_less(reversed_samples(family_key(a)), family_key(a)),
{
    assert(reversed_samples(reversed_samples(a)) =~= a);
    assert(reversed_samples(reversed_samples(b)) =~= b);
    lemma_seq_less_asymmetric(a, reversed_samples(a));
    if a != reversed_samples(a) {
        assert(a.take(0) =~= reversed_samples(a).take(0));
        lemma_seq_less_total_from(a, reversed_samples(a), 0);
    }
    if family_key(a) == family_key(b) {
        if reversed_to_key(b) {
            if reversed_to_key(a) {
                assert(reversed_samples(reversed_samples(b)) == reversed_samples(reversed_samples(a)));
            }
        } else {
            if reversed_to_key(a) {
                assert(b == reversed_samples(a));
            }
        }
    }
    if b == reversed_samples(a) {
        lemma_seq_less_asymmetric(b, reversed_samples(b));
    }
}

/// Reading a member of a family at the aligned index gives the family key's sample at the
/// canonical index, whichever way the member runs.
pub proof fn lemma_aligned_index_reads_the_key_sample(samples: Seq<Rgba>, canonical: int)
    requires
        0 <= canonical < samples.len(),
    ensures
        samples[spec_aligned_edge_index(samples.len() as int, canonical, reversed_to_key(samples))] == family_key(samples)[canonical],
{
}


/// A side has a partner exactly when another side of the catalog holds the same strip or the
/// same strip read backwards; a side is an orphan when no such side exists.
pub proof fn lemma_partner_is_an_equal_or_reversed_side<P, D: Direction>(tiles: Seq<Tile<P, D, EdgeStrip<Rgba>>>, edge: EdgeRef<D>)
    ensures
        has_partner(tiles, edge) <==> exists|other: EdgeRef<D>|
            other != edge && other.tile.0 < tiles.len() && {
                let mine = side_samples(tiles, edge.tile.0 as int, edge.direction);
                let theirs = #[trigger] side_samples(tiles, other.tile.0 as int, other.direction);
                theirs == mine || theirs == reversed_samples(mine)
            },
{
    let mine = side_samples(tiles, edge.tile.0 as int, edge.direction);
    if has_partner(tiles, edge) {
        let other = choose|other: EdgeRef<D>|
            other != edge && other.tile.0 < tiles.len() && #[trigger] family_key(side_samples(tiles, other.tile.0 as int, other.direction))
                == family_key(mine);
        lemma_family_keys_match_equal_or_reversed_strips(mine, side_samples(tiles, other.tile.0 as int, other.direction));
    }
    if exists|other: EdgeRef<D>|
        other != edge && other.tile.0 < tiles.len() && {
            let theirs = #[trigger] side_samples(tiles, other.tile.0 as int, other.direction);
            theirs == mine || theirs == reversed_samples(mine)
        } {
        let other = choose|other: EdgeRef<D>|
            other != edge && other.tile.0 < tiles.len() && {
                let theirs = #[trigger] side_samples(tiles, other.tile.0 as int, other.direction);
                theirs == mine || theirs == reversed_samples(mine)
            };
        lemma_family_keys_match_equal_or_reversed_strips(mine, side_samples(tiles, other.tile.0 as int, other.direction));
        assert(family_key(side_samples(tiles, other.tile.0 as int, other.direction)) == family_key(mine));
    }
}


/// Reading a strip backwards puts its last sample first: the empty strip reads the same, a
/// strip with one more sample at its end reads that sample first and then the rest
/// backwards, and reading backwards twice gives the strip back.
pub proof fn lemma_reversal_reads_backwards(samples: Seq<Rgba>, last: Rgba)
    ensures
        reversed_samples(Seq::<Rgba>::empty()) == Seq::<Rgba>::empty(),
        reversed_samples(samples.push(last)) == seq![last] + reversed_samples(samples),
        reversed_samples(reversed_samples(samples)) == samples,
        reversed_samples(samples).len() == samples.len(),
{
    assert(reversed_samples(Seq::<Rgba>::empty()) =~= Seq::<Rgba>::empty());
    assert(reversed_samples(samples.push(last)) =~= seq![last] + reversed_samples(samples));
    assert(reversed_samples(reversed_samples(samples)) =~= samples);
}


/// Strips sort lexicographically: the first sample where two strips differ decides, a
/// proper prefix sorts before the longer strip, and no strip sorts before itself.
pub proof fn lemma_strips_sort_lexicographically(a: Seq<u32>, b: Seq<u32>, i: int)
    ensures
        0 <= i < a.len() && i < b.len() && a.take(i) == b.take(i) && a[i] < b[i] ==> seq_less(a, b) && !seq_less(b, a),
        a.len() < b.len() && b.take(a.len() as int) == a ==> seq_less(a, b) && !seq_less(b, a),
        !seq_less(a, a),
{
    lemma_seq_less_asymmetric(a, b);
    lemma_seq_less_asymmetric(a, a);
    if a.len() < b.len() && b.take(a.len() as int) == a {
        assert(a.take(a.len() as int) =~= a);
        assert(a.take(a.len() as int) == b.take(a.len() as int));
    }
}

} // verus!

//! The per-frame spatial index used to cull world-space placements.

use crate::camera::{boxes_overlap, BoundingBox};
use crate::placement::{indexed, placement_box, Placement};
use bvh_arena::volumes::Aabb;
use bvh_arena::Bvh;
use vstd::prelude::*;
use vstd::multiset::Multiset;

verus! {

/// A bounding-volume hierarchy (bvh-arena's `Bvh`) from placement
/// identifiers to world-space boxes. Opaque: what it holds is `bvh_entries`.
#[verifier::external_body]
pub struct BvhResource {
    bvh: Bvh<u64, Aabb<2>>,
}

/// The entries of a hierarchy: each inserted identifier with its box.
pub uninterp spec fn bvh_entries(b: BvhResource) -> Multiset<(u64, BoundingBox)>;

/// Largest magnitude of a coordinate that the index holds exactly: the
/// hierarchy stores `f32`, which represents every integer up to 2^24.
pub const COORD_LIMIT: i64 = 16777216;

/// A box that the index can hold: ordered bounds, each within `COORD_LIMIT`.
pub open spec fn indexable(b: BoundingBox) -> bool {
    &&& b.min_x <= b.max_x
    &&& b.min_y <= b.max_y
    &&& -COORD_LIMIT <= b.min_x && b.max_x <= COORD_LIMIT
    &&& -COORD_LIMIT <= b.min_y && b.max_y <= COORD_LIMIT
}

/// The identifiers of the entries whose box overlaps `query`.
pub open spec fn overlapping_ids(entries: Multiset<(u64, BoundingBox)>, query: BoundingBox) -> Set<u64> {
    Set::new(|id: u64| exists|b: BoundingBox| #[trigger] entries.contains((id, b)) && boxes_overlap(b, query))
}

/// Relies on `Bvh::default`: a new hierarchy is empty.
#[verifier::external_body]
fn bvh_new() -> (b: BvhResource)
    ensures
        bvh_entries(b) == Multiset::<(u64, BoundingBox)>::empty(),
{
    BvhResource { bvh: Bvh::default() }
}

/// Relies on `Bvh::clear`: the hierarchy is left empty.
#[verifier::external_body]
fn bvh_clear(b: &mut BvhResource)
    ensures
        bvh_entries(*final(b)) == Multiset::<(u64, BoundingBox)>::empty(),
{
    b.bvh.clear();
}

/// Relies on `Aabb::from_min_max`, which panics on a minimum above a
/// maximum, and on `Bvh::insert`, which adds one entry. Each bound converts
/// exactly, as it lies within `COORD_LIMIT`.
#[verifier::external_body]
fn bvh_insert(b: &mut BvhResource, id: u64, volume: BoundingBox)
    requires
        indexable(volume),
    ensures
        bvh_entries(*final(b)) == bvh_entries(*old(b)).insert((id, volume)),
{
    let min = [volume.min_x as _, volume.min_y as _];
    let max = [volume.max_x as _, volume.max_y as _];
    b.bvh.insert(id, Aabb::from_min_max(min, max));
}

/// Relies on `Bvh::for_each_overlaps`, which calls back once for each
/// entry whose box overlaps the query (`Aabb::overlaps`: inclusive bounds
/// on both axes); the identifiers are collected as they come.
#[verifier::external_body]
fn bvh_overlapping(b: &BvhResource, query: BoundingBox) -> (ids: Vec<u64>)
    requires
        indexable(query),
    ensures
        forall|id: u64| ids@.contains(id) <==> overlapping_ids(bvh_entries(*b), query).contains(id),
{
    let min = [query.min_x as _, query.min_y as _];
    let max = [query.max_x as _, query.max_y as _];
    let mut ids = Vec::new();
    b.bvh.for_each_overlaps(&Aabb::from_min_max(min, max), |id| ids.push(*id));
    ids
}

/// The entries that indexing `placements` yields: one per indexed
/// placement, keyed by its identifier, with its world-space box.
pub open spec fn index_entries(placements: Seq<Placement>) -> Multiset<(u64, BoundingBox)>
    decreases placements.len(),
{
    if placements.len() == 0 {
        Multiset::empty()
    } else {
        let rest = index_entries(placements.drop_last());
        let p = placements.last();
        if indexed(p) {
            rest.insert((p.id, placement_box(p)))
        } else {
            rest
        }
    }
}

impl View for BvhResource {
    type V = Multiset<(u64, BoundingBox)>;

    closed spec fn view(&self) -> Multiset<(u64, BoundingBox)> {
        bvh_entries(*self)
    }
}

impl BvhResource {
    /// An empty index.
    pub fn new() -> (r: BvhResource)
        ensures
            r@ == Multiset::<(u64, BoundingBox)>::empty(),
    {
        bvh_new()
    }

    /// Removes every entry.
    pub fn clear(&mut self)
        ensures
            final(self)@ == Multiset::<(u64, BoundingBox)>::empty(),
    {
        bvh_clear(self);
    }

    /// Adds an entry.
    pub fn insert(&mut self, key: u64, value: BoundingBox)
        requires
            indexable(value),
        ensures
            final(self)@ == old(self)@.insert((key, value)),
    {
        bvh_insert(self, key, value);
    }

    /// The identifiers of the entries whose box overlaps `volume`, in no
    /// particular order.
    pub fn overlapping(&self, volume: BoundingBox) -> (ids: Vec<u64>)
        requires
            indexable(volume),
        ensures
            forall|id: u64| ids@.contains(id) <==> overlapping_ids(self@, volume).contains(id),
    {
        bvh_overlapping(self, volume)
    }

    /// Clears the index, then inserts every placement that is neither tiled
    /// nor in screen space, keyed by its identifier, with its world-space box.
    pub fn rebuild(&mut self, placements: &Vec<Placement>)
        requires
            forall|i: int|
                0 <= i < placements@.len() && indexed(#[trigger] placements@[i]) ==> indexable(
                    placement_box(placements@[i]),
                ),
        ensures
            final(self)@ == index_entries(placements@),
    {
        self.clear();
        let mut i: usize = 0;
        while i < placements.len()
            invariant
                i <= placements@.len(),
                self@ == index_entries(placements@.take(i as int)),
                forall|j: int|
                    0 <= j < placements@.len() && indexed(#[trigger] placements@[j]) ==> indexable(
                        placement_box(placements@[j]),
                    ),
            decreases placements@.len() - i,
        {
            let p = &placements[i];
            assert(placements@.take(i as int + 1).drop_last() =~= placements@.take(i as int));
            if !p.tiled && !p.screen_space {
                let b = p.to_bounding_box();
                self.insert(p.id, b);
            }
            i = i + 1;
        }
        assert(placements@.take(i as int) =~= placements@);
    }
}

} // verus!

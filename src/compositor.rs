//! The per-frame pipeline: select the visible placements, order them by
//! depth, resolve their screen positions and composite them into the camera.

use crate::bitmap::{tile_first, tile_offsets, Bitmap};
use crate::camera::{box_at, Camera, CameraView, Transform};
use crate::placement::{depth_key, screen_position, Placement};
use crate::raster::{bytes_of, composite, solid, transparent, Raster, RasterView};
use crate::spatial::{indexable, overlapping_ids, BvhResource};
use vstd::prelude::*;

verus! {

/// A placement is drawn when it is tiled, in screen space, or reported by
/// the spatial index as overlapping the camera.
pub open spec fn selected(p: Placement, overlapping: Set<u64>) -> bool {
    p.tiled || p.screen_space || overlapping.contains(p.id)
}

/// The indices, in ascending order, of the first `n` placements that are
/// selected; each placement appears at most once, whatever selects it.
pub open spec fn visible(placements: Seq<Placement>, overlapping: Set<u64>, n: nat) -> Seq<usize>
    decreases n,
{
    if n == 0 {
        Seq::empty()
    } else {
        let v = visible(placements, overlapping, (n - 1) as nat);
        if selected(placements[n - 1], overlapping) {
            v.push((n - 1) as usize)
        } else {
            v
        }
    }
}

pub open spec fn key_of(placements: Seq<Placement>, i: usize) -> int {
    depth_key(placements[i as int].transform.depth)
}

/// Inserts `x` after every element whose depth key is not above its own.
pub open spec fn insert_by_depth(placements: Seq<Placement>, s: Seq<usize>, x: usize) -> Seq<usize>
    decreases s.len(),
{
    if s.len() == 0 {
        seq![x]
    } else if key_of(placements, s[0]) > key_of(placements, x) {
        seq![x].add(s)
    } else {
        seq![s[0]].add(insert_by_depth(placements, s.drop_first(), x))
    }
}

/// The drawing order: `v` sorted by depth key, stably.
pub open spec fn depth_order(placements: Seq<Placement>, v: Seq<usize>) -> Seq<usize>
    decreases v.len(),
{
    if v.len() == 0 {
        Seq::empty()
    } else {
        insert_by_depth(placements, depth_order(placements, v.drop_last()), v.last())
    }
}

/// `a` comes before `b`: a lower depth key, or the same key and a lower index.
pub open spec fn drawn_before(placements: Seq<Placement>, a: usize, b: usize) -> bool {
    key_of(placements, a) < key_of(placements, b) || (key_of(placements, a) == key_of(placements, b) && a < b)
}

pub open spec fn sorted_by_depth(placements: Seq<Placement>, s: Seq<usize>) -> bool {
    forall|i: int, j: int| 0 <= i < j < s.len() ==> drawn_before(placements, #[trigger] s[i], #[trigger] s[j])
}

pub open spec fn ascending(s: Seq<usize>) -> bool {
    forall|i: int, j: int| 0 <= i < j < s.len() ==> #[trigger] s[i] < #[trigger] s[j]
}

proof fn lemma_insert_at(placements: Seq<Placement>, s: Seq<usize>, x: usize, pos: int)
    requires
        0 <= pos <= s.len(),
        forall|j: int| 0 <= j < pos ==> key_of(placements, #[trigger] s[j]) <= key_of(placements, x),
        pos < s.len() ==> key_of(placements, s[pos]) > key_of(placements, x),
    ensures
        insert_by_depth(placements, s, x) == s.insert(pos, x),
    decreases s.len(),
{
    if s.len() == 0 {
        assert(s.insert(pos, x) =~= seq![x]);
    } else if pos == 0 {
        assert(s.insert(pos, x) =~= seq![x].add(s));
    } else {
        let t = s.drop_first();
        assert forall|j: int| 0 <= j < pos - 1 implies key_of(placements, #[trigger] t[j]) <= key_of(placements, x) by {
            assert(t[j] == s[j + 1]);
        }
        lemma_insert_at(placements, t, x, pos - 1);
        assert(seq![s[0]].add(t.insert(pos - 1, x)) =~= s.insert(pos, x));
    }
}

proof fn lemma_insert_sorted(placements: Seq<Placement>, s: Seq<usize>, x: usize)
    requires
        sorted_by_depth(placements, s),
        forall|k: int| 0 <= k < s.len() ==> #[trigger] s[k] < x,
    ensures
        ({
            let r = insert_by_depth(placements, s, x);
            &&& sorted_by_depth(placements, r)
            &&& r.len() == s.len() + 1
            &&& forall|y: usize| r.contains(y) <==> (s.contains(y) || y == x)
        }),
    decreases s.len(),
{
    let r = insert_by_depth(placements, s, x);
    if s.len() == 0 {
        assert forall|y: usize| r.contains(y) <==> (s.contains(y) || y == x) by {
            if r.contains(y) {
                assert(r[0] == x);
            }
            if y == x {
                assert(r[0] == y);
            }
        }
    } else if key_of(placements, s[0]) > key_of(placements, x) {
        assert(r == seq![x].add(s));
        assert forall|i: int, j: int| 0 <= i < j < r.len() implies drawn_before(placements, #[trigger] r[i], #[trigger] r[j]) by {
            if i == 0 {
                assert(r[j] == s[j - 1]);
                if j > 1 {
                    assert(drawn_before(placements, s[0], s[j - 1]));
                }
            } else {
                assert(r[i] == s[i - 1] && r[j] == s[j - 1]);
            }
        }
        assert forall|y: usize| r.contains(y) <==> (s.contains(y) || y == x) by {
            if r.contains(y) {
                let k = choose|k: int| 0 <= k < r.len() && r[k] == y;
                if k > 0 {
                    assert(s[k - 1] == y);
                }
            }
            if s.contains(y) {
                let k = choose|k: int| 0 <= k < s.len() && s[k] == y;
                assert(r[k + 1] == y);
            }
            if y == x {
                assert(r[0] == y);
            }
        }
    } else {
        let t = s.drop_first();
        let rt = insert_by_depth(placements, t, x);
        assert forall|i: int, j: int| 0 <= i < j < t.len() implies drawn_before(placements, #[trigger] t[i], #[trigger] t[j]) by {
            assert(t[i] == s[i + 1] && t[j] == s[j + 1]);
        }
        assert forall|k: int| 0 <= k < t.len() implies #[trigger] t[k] < x by {
            assert(t[k] == s[k + 1]);
        }
        lemma_insert_sorted(placements, t, x);
        assert(r == seq![s[0]].add(rt));
        assert forall|y: usize| t.contains(y) implies s.contains(y) by {
            let k = choose|k: int| 0 <= k < t.len() && t[k] == y;
            assert(s[k + 1] == y);
        }
        assert forall|i: int, j: int| 0 <= i < j < r.len() implies drawn_before(placements, #[trigger] r[i], #[trigger] r[j]) by {
            if i == 0 {
                assert(r[j] == rt[j - 1]);
                assert(rt.contains(rt[j - 1]));
                if rt[j - 1] != x {
                    assert(t.contains(rt[j - 1]));
                    let k = choose|k: int| 0 <= k < t.len() && t[k] == rt[j - 1];
                    assert(s[k + 1] == rt[j - 1]);
                    assert(drawn_before(placements, s[0], s[k + 1]));
                } else {
                    assert(s[0] < x);
                }
            } else {
                assert(r[i] == rt[i - 1] && r[j] == rt[j - 1]);
            }
        }
        assert forall|y: usize| r.contains(y) <==> (s.contains(y) || y == x) by {
            if r.contains(y) {
                let k = choose|k: int| 0 <= k < r.len() && r[k] == y;
                if k > 0 {
                    assert(rt[k - 1] == y);
                    assert(rt.contains(y));
                } else {
                    assert(s[0] == y);
                }
            }
            if s.contains(y) {
                let k = choose|k: int| 0 <= k < s.len() && s[k] == y;
                if k > 0 {
                    assert(t[k - 1] == y);
                    assert(t.contains(y));
                    assert(rt.contains(y));
                    let m = choose|m: int| 0 <= m < rt.len() && rt[m] == y;
                    assert(r[m + 1] == y);
                } else {
                    assert(r[0] == y);
                }
            }
            if y == x {
                assert(rt.contains(x));
                let m = choose|m: int| 0 <= m < rt.len() && rt[m] == x;
                assert(r[m + 1] == x);
            }
        }
    }
}

/// The drawing order is a stable sort by depth: given indices in ascending
/// order, it holds the same indices, each once, ordered by depth key, and
/// indices of equal depth keep their relative order.
pub proof fn lemma_depth_order_stable(placements: Seq<Placement>, v: Seq<usize>)
    requires
        ascending(v),
    ensures
        ({
            let o = depth_order(placements, v);
            &&& sorted_by_depth(placements, o)
            &&& o.len() == v.len()
            &&& forall|y: usize| o.contains(y) <==> v.contains(y)
            &&& o.no_duplicates()
        }),
    decreases v.len(),
{
    let o = depth_order(placements, v);
    if v.len() > 0 {
        let w = v.drop_last();
        assert forall|i: int, j: int| 0 <= i < j < w.len() implies #[trigger] w[i] < #[trigger] w[j] by {
            assert(w[i] == v[i] && w[j] == v[j]);
        }
        lemma_depth_order_stable(placements, w);
        let ow = depth_order(placements, w);
        assert forall|k: int| 0 <= k < ow.len() implies #[trigger] ow[k] < v.last() by {
            assert(ow.contains(ow[k]));
            let m = choose|m: int| 0 <= m < w.len() && w[m] == ow[k];
            assert(v[m] == w[m]);
        }
        lemma_insert_sorted(placements, ow, v.last());
        assert forall|y: usize| o.contains(y) <==> v.contains(y) by {
            if w.contains(y) {
                let m = choose|m: int| 0 <= m < w.len() && w[m] == y;
                assert(v[m] == y);
            }
            if v.contains(y) {
                let m = choose|m: int| 0 <= m < v.len() && v[m] == y;
                if m < v.len() - 1 {
                    assert(w[m] == y);
                }
            }
        }
    }
    assert forall|i: int, j: int| 0 <= i < o.len() && 0 <= j < o.len() && i != j implies o[i] != o[j] by {
        if i < j {
            assert(drawn_before(placements, o[i], o[j]));
        } else {
            assert(drawn_before(placements, o[j], o[i]));
        }
    }
}

/// The visible indices ascend, and an index is among them exactly when
/// its placement is selected.
pub proof fn lemma_visible(placements: Seq<Placement>, overlapping: Set<u64>, n: nat)
    requires
        n <= usize::MAX,
    ensures
        ascending(visible(placements, overlapping, n)),
        forall|i: usize|
            visible(placements, overlapping, n).contains(i) <==> (i < n && selected(
                placements[i as int],
                overlapping,
            )),
        forall|k: int|
            0 <= k < visible(placements, overlapping, n).len() ==> #[trigger] visible(placements, overlapping, n)[k]
                < n,
    decreases n,
{
    if n > 0 {
        lemma_visible(placements, overlapping, (n - 1) as nat);
        let v = visible(placements, overlapping, (n - 1) as nat);
        let r = visible(placements, overlapping, n);
        if selected(placements[n - 1], overlapping) {
            assert(r == v.push((n - 1) as usize));
            assert forall|i: int, j: int| 0 <= i < j < r.len() implies #[trigger] r[i] < #[trigger] r[j] by {
                if j == v.len() {
                    assert(v[i] < n - 1);
                } else {
                    assert(r[i] == v[i] && r[j] == v[j]);
                }
            }
            assert forall|k: int| 0 <= k < r.len() implies #[trigger] r[k] < n by {
                if k < v.len() {
                    assert(r[k] == v[k]);
                }
            }
        }
        assert forall|i: usize| r.contains(i) <==> (i < n && selected(placements[i as int], overlapping)) by {
            if v.contains(i) {
                let k = choose|k: int| 0 <= k < v.len() && v[k] == i;
                if selected(placements[n - 1], overlapping) {
                    assert(r[k] == i);
                }
            }
            if r.contains(i) {
                let k = choose|k: int| 0 <= k < r.len() && r[k] == i;
                if k < v.len() {
                    assert(v[k] == i);
                }
            }
            if i == n - 1 && selected(placements[n - 1], overlapping) {
                assert(r[v.len() as int] == i);
            }
        }
    }
}

/// The drawing order of a frame holds each selected placement exactly once
/// (a placement selected on several grounds is not drawn twice) and
/// nothing else, sorted stably by depth.
pub proof fn lemma_frame_order(placements: Seq<Placement>, overlapping: Set<u64>)
    requires
        placements.len() <= usize::MAX,
    ensures
        ({
            let o = depth_order(placements, visible(placements, overlapping, placements.len()));
            &&& o.no_duplicates()
            &&& forall|i: usize| o.contains(i) <==> (i < placements.len() && selected(placements[i as int], overlapping))
            &&& sorted_by_depth(placements, o)
        }),
{
    lemma_visible(placements, overlapping, placements.len());
    lemma_depth_order_stable(placements, visible(placements, overlapping, placements.len()));
}

fn contains_id(ids: &Vec<u64>, id: u64) -> (b: bool)
    ensures
        b == ids@.contains(id),
{
    let mut i: usize = 0;
    while i < ids.len()
        invariant
            i <= ids@.len(),
            forall|k: int| 0 <= k < i ==> ids@[k] != id,
        decreases ids@.len() - i,
    {
        if ids[i] == id {
            assert(ids@[i as int] == id);
            return true;
        }
        i = i + 1;
    }
    false
}

/// The indices of the placements to draw, in ascending order: those that
/// are tiled or in screen space, and those whose identifier is in
/// `overlapping`.
pub fn visible_placements(placements: &Vec<Placement>, overlapping: &Vec<u64>) -> (v: Vec<usize>)
    ensures
        v@ == visible(placements@, overlapping@.to_set(), placements@.len()),
{
    let ghost ids = overlapping@.to_set();
    let mut v: Vec<usize> = Vec::new();
    let mut i: usize = 0;
    while i < placements.len()
        invariant
            i <= placements@.len(),
            ids == overlapping@.to_set(),
            v@ == visible(placements@, ids, i as nat),
        decreases placements@.len() - i,
    {
        let p = &placements[i];
        let hit = contains_id(overlapping, p.id);
        assert(hit == ids.contains(p.id));
        if p.tiled || p.screen_space || hit {
            v.push(i);
        }
        i = i + 1;
    }
    v
}

/// `visible` sorted by depth key, stably.
pub fn sort_by_depth(placements: &Vec<Placement>, visible: &Vec<usize>) -> (order: Vec<usize>)
    requires
        forall|k: int| 0 <= k < visible@.len() ==> #[trigger] visible@[k] < placements@.len(),
    ensures
        order@ == depth_order(placements@, visible@),
        forall|k: int| 0 <= k < order@.len() ==> #[trigger] order@[k] < placements@.len(),
{
    let mut order: Vec<usize> = Vec::new();
    let mut i: usize = 0;
    while i < visible.len()
        invariant
            i <= visible@.len(),
            order@ == depth_order(placements@, visible@.take(i as int)),
            forall|k: int| 0 <= k < visible@.len() ==> #[trigger] visible@[k] < placements@.len(),
            forall|k: int| 0 <= k < order@.len() ==> #[trigger] order@[k] < placements@.len(),
        decreases visible@.len() - i,
    {
        let x = visible[i];
        let kx = placements[x].depth_key();
        let mut pos: usize = 0;
        while pos < order.len() && placements[order[pos]].depth_key() <= kx
            invariant
                pos <= order@.len(),
                forall|k: int| 0 <= k < order@.len() ==> #[trigger] order@[k] < placements@.len(),
                kx == key_of(placements@, x),
                forall|j: int| 0 <= j < pos ==> key_of(placements@, #[trigger] order@[j]) <= kx,
            decreases order@.len() - pos,
        {
            pos = pos + 1;
        }
        proof {
            lemma_insert_at(placements@, order@, x, pos as int);
            assert(visible@.take(i as int + 1).drop_last() =~= visible@.take(i as int));
        }
        let ghost before = order@;
        order.insert(pos, x);
        proof {
            assert forall|k: int| 0 <= k < order@.len() implies #[trigger] order@[k] < placements@.len() by {
                if k < pos {
                    assert(order@[k] == before[k]);
                } else if k > pos {
                    assert(order@[k] == before[k - 1]);
                }
            }
        }
        i = i + 1;
    }
    assert(visible@.take(i as int) =~= visible@);
    order
}

/// `r` after compositing `src` at column `x` and each row of `ys`, in order.
pub open spec fn draw_column(r: RasterView, src: RasterView, x: int, ys: Seq<int>) -> RasterView
    decreases ys.len(),
{
    if ys.len() == 0 {
        r
    } else {
        draw_column(composite(r, src, x, ys[0]), src, x, ys.drop_first())
    }
}

/// `r` after compositing `src` at every pair of a column of `xs` and a row
/// of `ys`, column by column.
pub open spec fn draw_tiles(r: RasterView, src: RasterView, xs: Seq<int>, ys: Seq<int>) -> RasterView
    decreases xs.len(),
{
    if xs.len() == 0 {
        r
    } else {
        draw_tiles(draw_column(r, src, xs[0], ys), src, xs.drop_first(), ys)
    }
}

/// `r` after drawing one placement for a camera at `camera`: a tiled
/// placement is repeated over the whole raster, aligned with its screen
/// position; any other is composited once at its screen position.
pub open spec fn draw_one(r: RasterView, p: Placement, camera: Transform) -> RasterView {
    let pos = screen_position(p.transform, p.screen_space, camera);
    let b = p.bitmap@;
    if p.tiled {
        draw_tiles(
            r,
            b,
            tile_offsets(tile_first(pos.0, b.width as int), b.width as int, r.width as int),
            tile_offsets(tile_first(pos.1, b.height as int), b.height as int, r.height as int),
        )
    } else {
        composite(r, b, pos.0, pos.1)
    }
}

/// `r` after drawing the placements at the indices of `order`, in order.
pub open spec fn draw_all(r: RasterView, placements: Seq<Placement>, order: Seq<usize>, camera: Transform) -> RasterView
    decreases order.len(),
{
    if order.len() == 0 {
        r
    } else {
        draw_all(draw_one(r, placements[order[0] as int], camera), placements, order.drop_first(), camera)
    }
}

/// A frame: the selected placements drawn in depth order onto a cleared
/// raster of the camera's size.
pub open spec fn frame(camera: CameraView, placements: Seq<Placement>, overlapping: Set<u64>) -> RasterView {
    draw_all(
        solid(camera.width, camera.height, transparent()),
        placements,
        depth_order(placements, visible(placements, overlapping, placements.len())),
        camera.transform,
    )
}

/// Drawing a screen-space placement does not depend on the camera.
pub proof fn lemma_screen_space_draw_ignores_camera(r: RasterView, p: Placement, c1: Transform, c2: Transform)
    requires
        p.screen_space,
    ensures
        draw_one(r, p, c1) == draw_one(r, p, c2),
{
}

proof fn lemma_draw_tiles_size(r: RasterView, src: RasterView, xs: Seq<int>, ys: Seq<int>)
    ensures
        draw_tiles(r, src, xs, ys).width == r.width,
        draw_tiles(r, src, xs, ys).height == r.height,
        draw_tiles(r, src, xs, ys).pixels.len() == r.pixels.len(),
    decreases xs.len(),
{
    if xs.len() > 0 {
        lemma_draw_column_size(r, src, xs[0], ys);
        lemma_draw_tiles_size(draw_column(r, src, xs[0], ys), src, xs.drop_first(), ys);
    }
}

proof fn lemma_draw_column_size(r: RasterView, src: RasterView, x: int, ys: Seq<int>)
    ensures
        draw_column(r, src, x, ys).width == r.width,
        draw_column(r, src, x, ys).height == r.height,
        draw_column(r, src, x, ys).pixels.len() == r.pixels.len(),
    decreases ys.len(),
{
    if ys.len() > 0 {
        lemma_draw_column_size(composite(r, src, x, ys[0]), src, x, ys.drop_first());
    }
}

/// Composites `bitmap` over the whole of `raster`, tiled from (`x`, `y`).
fn draw_tiled(raster: &mut Raster, bitmap: &Bitmap, x: i32, y: i32)
    requires
        old(raster).wf(),
        bitmap.wf(),
    ensures
        final(raster).wf(),
        final(raster)@ == draw_tiles(
            old(raster)@,
            bitmap@,
            tile_offsets(tile_first(x as int, bitmap@.width as int), bitmap@.width as int, old(raster)@.width as int),
            tile_offsets(tile_first(y as int, bitmap@.height as int), bitmap@.height as int, old(raster)@.height as int),
        ),
{
    let w = raster.width();
    let h = raster.height();
    let ghost ys = tile_offsets(tile_first(y as int, bitmap@.height as int), bitmap@.height as int, h as int);
    let ghost target = draw_tiles(
        raster@,
        bitmap@,
        tile_offsets(tile_first(x as int, bitmap@.width as int), bitmap@.width as int, w as int),
        ys,
    );
    let mut cols = bitmap.tile_cols(x, w);
    loop
        invariant
            cols.wf(),
            raster.wf(),
            bitmap.wf(),
            raster@.width == w,
            raster@.height == h,
            ys == tile_offsets(tile_first(y as int, bitmap@.height as int), bitmap@.height as int, h as int),
            draw_tiles(raster@, bitmap@, cols.remaining(), ys) == target,
        ensures
            raster.wf(),
            raster@ == target,
        decreases cols.remaining().len(),
    {
        let ghost remaining = cols.remaining();
        match cols.next() {
            None => {
                break;
            },
            Some(tx) => {
                let ghost column = draw_column(raster@, bitmap@, tx as int, ys);
                proof {
                    lemma_draw_column_size(raster@, bitmap@, tx as int, ys);
                }
                let mut rows = bitmap.tile_rows(y, h);
                loop
                    invariant
                        rows.wf(),
                        raster.wf(),
                        bitmap.wf(),
                        raster@.width == w,
                        raster@.height == h,
                        draw_column(raster@, bitmap@, tx as int, rows.remaining()) == column,
                    ensures
                        raster.wf(),
                        raster@ == column,
                    decreases rows.remaining().len(),
                {
                    match rows.next() {
                        None => {
                            break;
                        },
                        Some(ty) => {
                            raster.composite_at(tx, ty, bitmap.raster());
                        },
                    }
                }
            },
        }
    }
}

/// Draws one placement onto `raster` for a camera at `camera`.
pub fn draw_placement(raster: &mut Raster, p: &Placement, camera: Transform)
    requires
        old(raster).wf(),
        p.wf(),
    ensures
        final(raster).wf(),
        final(raster)@ == draw_one(old(raster)@, *p, camera),
        final(raster)@.width == old(raster)@.width,
        final(raster)@.height == old(raster)@.height,
{
    let (x, y) = p.screen_position(camera);
    if p.tiled {
        let ghost r0 = raster@;
        draw_tiled(raster, &p.bitmap, x, y);
        proof {
            lemma_draw_tiles_size(
                r0,
                p.bitmap@,
                tile_offsets(tile_first(x as int, p.bitmap@.width as int), p.bitmap@.width as int, r0.width as int),
                tile_offsets(tile_first(y as int, p.bitmap@.height as int), p.bitmap@.height as int, r0.height as int),
            );
        }
    } else {
        raster.composite_at(x, y, p.bitmap.raster());
    }
}

fn compose(raster: &mut Raster, placements: &Vec<Placement>, order: &Vec<usize>, camera: Transform)
    requires
        old(raster).wf(),
        forall|i: int| 0 <= i < placements@.len() ==> (#[trigger] placements@[i]).wf(),
        forall|k: int| 0 <= k < order@.len() ==> #[trigger] order@[k] < placements@.len(),
    ensures
        final(raster).wf(),
        final(raster)@ == draw_all(old(raster)@, placements@, order@, camera),
        final(raster)@.width == old(raster)@.width,
        final(raster)@.height == old(raster)@.height,
{
    let ghost target = draw_all(raster@, placements@, order@, camera);
    let ghost w = raster@.width;
    let ghost h = raster@.height;
    let mut i: usize = 0;
    assert(order@.subrange(0, order@.len() as int) =~= order@);
    while i < order.len()
        invariant
            i <= order@.len(),
            raster.wf(),
            raster@.width == w,
            raster@.height == h,
            forall|j: int| 0 <= j < placements@.len() ==> (#[trigger] placements@[j]).wf(),
            forall|k: int| 0 <= k < order@.len() ==> #[trigger] order@[k] < placements@.len(),
            draw_all(raster@, placements@, order@.subrange(i as int, order@.len() as int), camera) == target,
        decreases order@.len() - i,
    {
        let ghost rest = order@.subrange(i as int, order@.len() as int);
        assert(rest[0] == order@[i as int]);
        assert(rest.drop_first() =~= order@.subrange(i as int + 1, order@.len() as int));
        draw_placement(raster, &placements[order[i]], camera);
        i = i + 1;
    }
    assert(order@.subrange(i as int, order@.len() as int) =~= Seq::<usize>::empty());
}

/// Renders one frame from the placements and the identifiers that the
/// spatial index reported as overlapping the camera: clears the camera's
/// raster, draws the selected placements in depth order, and returns the
/// finished raster's bytes for the presentation sink.
pub fn render_visible(camera: &mut Camera, placements: &Vec<Placement>, overlapping: &Vec<u64>) -> (bytes: Vec<u8>)
    requires
        old(camera).wf(),
        forall|i: int| 0 <= i < placements@.len() ==> (#[trigger] placements@[i]).wf(),
    ensures
        final(camera).wf(),
        final(camera)@ == (CameraView { raster: frame(old(camera)@, placements@, overlapping@.to_set()), ..old(camera)@ }),
        bytes@ == bytes_of(final(camera)@.raster.pixels),
{
    let transform = camera.transform();
    let n = placements.len();
    let visible = visible_placements(placements, overlapping);
    proof {
        lemma_visible(placements@, overlapping@.to_set(), placements@.len());
    }
    let order = sort_by_depth(placements, &visible);
    let raster = camera.raster_mut();
    raster.clear();
    compose(raster, placements, &order, transform);
    camera.raster().as_bytes()
}

/// Renders one frame: queries `index` for the placements overlapping the
/// camera's box, then renders as `render_visible` does.
pub fn render(camera: &mut Camera, placements: &Vec<Placement>, index: &BvhResource) -> (bytes: Vec<u8>)
    requires
        old(camera).wf(),
        forall|i: int| 0 <= i < placements@.len() ==> (#[trigger] placements@[i]).wf(),
        indexable(
            box_at(
                old(camera)@.transform.x as int,
                old(camera)@.transform.y as int,
                old(camera)@.width as int,
                old(camera)@.height as int,
            ),
        ),
    ensures
        final(camera).wf(),
        final(camera)@ == (CameraView {
            raster: frame(
                old(camera)@,
                placements@,
                overlapping_ids(
                    index@,
                    box_at(
                        old(camera)@.transform.x as int,
                        old(camera)@.transform.y as int,
                        old(camera)@.width as int,
                        old(camera)@.height as int,
                    ),
                ),
            ),
            ..old(camera)@
        }),
        bytes@ == bytes_of(final(camera)@.raster.pixels),
{
    let volume = camera.to_bounding_box();
    let ids = index.overlapping(volume);
    proof {
        assert forall|id: u64| ids@.to_set().contains(id) <==> overlapping_ids(index@, volume).contains(id) by {
            assert(ids@.to_set().contains(id) <==> ids@.contains(id));
        }
        assert(ids@.to_set() =~= overlapping_ids(index@, volume));
    }
    render_visible(camera, placements, &ids)
}

} // verus!

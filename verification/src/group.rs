//! Connected-component grouping over the tile grid: repeatedly seed a new
//! group from a remaining tile and absorb 4-connected neighbours whose
//! colour lies within a fixed distance of the group's *current* running
//! mean. Each absorbed tile leaves the map, so the groups partition the
//! input exactly. The traversal uses an explicit work stack, never call
//! recursion.

use vstd::prelude::*;
use vstd::multiset::Multiset;
use crate::chunks::ChunkEntry;
use crate::chunks::ChunkMap;
use crate::image::SCALE;

verus! {

broadcast use
    vstd::seq_lib::group_to_multiset_ensures,
    vstd::multiset::group_multiset_axioms,
    vstd::multiset::group_multiset_properties;

/// Chroma-similarity threshold of the grouping pass: `0.1` of the
/// normalised colour cube, in fixed-point units.
pub const GROUP_DIST: u64 = 100_000;

/// One detected object: the tile coordinates it absorbed, in absorption
/// order, and the running mean of their colours.
pub struct ObjectGroup {
    pub coords: Vec<(usize, usize)>,
    pub r: u64,
    pub g: u64,
    pub b: u64,
}

/// The tile coordinates of a run of chunk entries.
pub open spec fn entry_coords(s: Seq<ChunkEntry>) -> Seq<(usize, usize)> {
    s.map_values(|e: ChunkEntry| (e.tx, e.ty))
}

/// All coordinates of a run of groups, with multiplicity.
pub open spec fn groups_ms(gs: Seq<ObjectGroup>) -> Multiset<(usize, usize)>
    decreases gs.len(),
{
    if gs.len() == 0 {
        Multiset::empty()
    } else {
        groups_ms(gs.drop_last()).add(gs.last().coords@.to_multiset())
    }
}

/// The colour a (distinct) chunk map stores for a coordinate.
pub open spec fn col_of(m: ChunkMap, c: (usize, usize)) -> (int, int, int) {
    let k = choose|k: int|
        0 <= k < m.entries.len() && (#[trigger] m.entries[k]).tx == c.0 && m.entries[k].ty == c.1;
    (m.entries[k].r as int, m.entries[k].g as int, m.entries[k].b as int)
}

/// The running mean after absorbing the given coordinates in order: each
/// step folds the next colour in as `(mean * count + colour) / (count + 1)`
/// per channel, rounding down.
pub open spec fn run_mean(m: ChunkMap, coords: Seq<(usize, usize)>) -> (int, int, int)
    decreases coords.len(),
{
    if coords.len() == 0 {
        (0int, 0int, 0int)
    } else {
        let pm = run_mean(m, coords.drop_last());
        let c = col_of(m, coords.last());
        let k = coords.len() - 1;
        ((pm.0 * k + c.0) / (k + 1), (pm.1 * k + c.1) / (k + 1), (pm.2 * k + c.2) / (k + 1))
    }
}

/// Squared distance of two fixed-point colours.
pub open spec fn dist2(a: (int, int, int), b: (int, int, int)) -> int {
    (a.0 - b.0) * (a.0 - b.0) + (a.1 - b.1) * (a.1 - b.1) + (a.2 - b.2) * (a.2 - b.2)
}

/// Every tile after the seed was absorbed while its colour lay strictly
/// within the grouping distance of the group's running mean at that
/// moment.
pub open spec fn absorb_ok(m: ChunkMap, coords: Seq<(usize, usize)>) -> bool {
    forall|i: int|
        1 <= i < coords.len() ==> dist2(
            run_mean(m, coords.take(i)),
            col_of(m, #[trigger] coords[i]),
        ) < GROUP_DIST * GROUP_DIST
}

/// Appending a group adds exactly its coordinates.
proof fn lemma_groups_ms_push(gs: Seq<ObjectGroup>, g: ObjectGroup)
    ensures
        groups_ms(gs.push(g)) == groups_ms(gs).add(g.coords@.to_multiset()),
{
    assert(gs.push(g).drop_last() =~= gs);
    assert(gs.push(g).last() == g);
}

/// Removing an entry removes exactly its coordinate from the mapped run.
proof fn lemma_entry_coords_remove(s: Seq<ChunkEntry>, i: int)
    requires
        0 <= i < s.len(),
    ensures
        entry_coords(s.remove(i)) =~= entry_coords(s).remove(i),
{
}

/// In a distinct map, `col_of` at the coordinate of a present entry gives
/// exactly that entry's colour.
proof fn lemma_col_of(m: ChunkMap, e: ChunkEntry)
    requires
        m.distinct(),
        m.entries@.contains(e),
    ensures
        col_of(m, (e.tx, e.ty)) == (e.r as int, e.g as int, e.b as int),
{
    let k0 = choose|k0: int| 0 <= k0 < m.entries.len() && m.entries[k0] == e;
    assert(m.entries[k0].tx == e.tx && m.entries[k0].ty == e.ty);
    let k = choose|k: int|
        0 <= k < m.entries.len() && (#[trigger] m.entries[k]).tx == e.tx && m.entries[k].ty
            == e.ty;
    if k != k0 {
        if k < k0 {
            assert(m.entries[k].tx != m.entries[k0].tx || m.entries[k].ty != m.entries[k0].ty);
        } else {
            assert(m.entries[k0].tx != m.entries[k].tx || m.entries[k0].ty != m.entries[k].ty);
        }
    }
}

/// Folding one more colour keeps the mean within the colour cube.
proof fn lemma_mean_step_bound(pm: int, c: int, k: int)
    by (nonlinear_arith)
    requires
        0 <= pm <= SCALE,
        0 <= c <= SCALE,
        0 <= k,
    ensures
        0 <= (pm * k + c) / (k + 1) <= SCALE,
{
}

/// Finds the index of the entry at tile coordinate `(tx, ty)`, if any.
fn find_entry(cur: &Vec<ChunkEntry>, tx: usize, ty: usize) -> (r: Option<usize>)
    ensures
        match r {
            Some(i) => 0 <= i < cur.len() && cur[i as int].tx == tx && cur[i as int].ty == ty,
            None => forall|k: int|
                0 <= k < cur.len() ==> !((#[trigger] cur[k]).tx == tx && cur[k].ty == ty),
        },
{
    let n = cur.len();
    for i in 0..n
        invariant
            n == cur.len(),
            forall|k: int| 0 <= k < i ==> !((#[trigger] cur[k]).tx == tx && cur[k].ty == ty),
    {
        let e = cur[i];
        if e.tx == tx && e.ty == ty {
            return Some(i);
        }
    }
    None
}

/// Squared fixed-point distance between a running mean and an entry's
/// colour.
fn mean_dist_sq(mr: u64, mg: u64, mb: u64, e: &ChunkEntry) -> (d: u64)
    requires
        mr <= SCALE,
        mg <= SCALE,
        mb <= SCALE,
        e.r <= SCALE,
        e.g <= SCALE,
        e.b <= SCALE,
    ensures
        d == (mr - e.r) * (mr - e.r) + (mg - e.g) * (mg - e.g) + (mb - e.b) * (mb - e.b),
{
    let dr = if mr >= e.r { mr - e.r } else { e.r - mr };
    let dg = if mg >= e.g { mg - e.g } else { e.g - mg };
    let db = if mb >= e.b { mb - e.b } else { e.b - mb };
    proof {
        assert(dr * dr <= SCALE * SCALE && dg * dg <= SCALE * SCALE && db * db <= SCALE * SCALE
            && dr * dr == (mr - e.r) * (mr - e.r) && dg * dg == (mg - e.g) * (mg - e.g) && db * db
            == (mb - e.b) * (mb - e.b) && 0 <= dr * dr && 0 <= dg * dg && 0 <= db * db)
            by (nonlinear_arith)
            requires
                0 <= dr <= SCALE,
                0 <= dg <= SCALE,
                0 <= db <= SCALE,
                dr == (if mr >= e.r { mr - e.r } else { e.r - mr }),
                dg == (if mg >= e.g { mg - e.g } else { e.g - mg }),
                db == (if mb >= e.b { mb - e.b } else { e.b - mb }),
        ;
    }
    dr * dr + dg * dg + db * db
}

/// Folds one colour into the running mean.
fn mean_step(m: u64, c: u64, k: usize) -> (nm: u64)
    requires
        m <= SCALE,
        c <= SCALE,
    ensures
        nm == (m * k + c) / (k + 1),
        nm <= SCALE,
{
    proof {
        lemma_mean_step_bound(m as int, c as int, k as int);
        assert(m * k <= SCALE * 0xffff_ffff_ffff_ffff) by (nonlinear_arith)
            requires
                0 <= m <= SCALE,
                0 <= k <= 0xffff_ffff_ffff_ffff,
        ;
    }
    (((m as u128) * (k as u128) + (c as u128)) / ((k as u128) + 1)) as u64
}

/// Groups the tiles of a chunk map into objects. Every tile coordinate of
/// the input appears in exactly one returned group; each group's colour is
/// the exact running mean of the colours of its tiles in absorption order.
pub fn locate_objects(map: ChunkMap) -> (groups: Vec<ObjectGroup>)
    requires
        map.distinct(),
        map.cols_bounded(),
    ensures
        groups_ms(groups@) == entry_coords(map.entries@).to_multiset(),
        forall|i: int| 0 <= i < groups.len() ==> (#[trigger] groups[i]).coords.len() >= 1,
        forall|i: int|
            0 <= i < groups.len() ==> ((#[trigger] groups[i]).r as int, groups[i].g as int,
            groups[i].b as int) == run_mean(map, groups[i].coords@),
        forall|i: int| 0 <= i < groups.len() ==> absorb_ok(map, (#[trigger] groups[i]).coords@),
{
    let ghost total = entry_coords(map.entries@).to_multiset();
    let ghost orig = map;
    let mut cur = map.entries;
    let mut groups: Vec<ObjectGroup> = Vec::new();
    proof {
        assert(cur@ == orig.entries@);
        assert(cur@.to_multiset().subset_of(orig.entries@.to_multiset()));
    }
    while cur.len() > 0
        invariant
            orig.distinct(),
            orig.cols_bounded(),
            total == entry_coords(orig.entries@).to_multiset(),
            cur@.to_multiset().subset_of(orig.entries@.to_multiset()),
            groups_ms(groups@).add(entry_coords(cur@).to_multiset()) == total,
            forall|i: int| 0 <= i < groups.len() ==> (#[trigger] groups[i]).coords.len() >= 1,
            forall|i: int|
                0 <= i < groups.len() ==> ((#[trigger] groups[i]).r as int, groups[i].g as int,
                groups[i].b as int) == run_mean(orig, groups[i].coords@),
            forall|i: int| 0 <= i < groups.len() ==> absorb_ok(orig, (#[trigger] groups[i]).coords@),
        decreases cur.len(),
    {
        let ghost n0 = cur@.len();
        // seed a new group from the first remaining tile
        let seed = cur[0];
        let ghost pre = cur@;
        cur.remove(0);
        proof {
            assert(pre[0] == seed);
            assert(pre.contains(seed));
            assert(pre.to_multiset().count(seed) > 0);
            assert(orig.entries@.to_multiset().count(seed) > 0);
            assert(orig.entries@.contains(seed));
            lemma_entry_coords_remove(pre, 0);
            assert(cur@.to_multiset() == pre.to_multiset().remove(seed)) by {
                assert(cur@ == pre.remove(0));
                assert(pre.remove(0).to_multiset() == pre.to_multiset().remove(pre[0]));
            }
            assert(cur@.to_multiset().subset_of(orig.entries@.to_multiset())) by {
                assert forall|v: ChunkEntry|
                    cur@.to_multiset().count(v) <= orig.entries@.to_multiset().count(v) by {
                    assert(pre.to_multiset().count(v) <= orig.entries@.to_multiset().count(v));
                }
            }
            lemma_col_of(orig, seed);
            assert(entry_coords(pre)[0] == (seed.tx, seed.ty));
            assert(entry_coords(pre).contains((seed.tx, seed.ty)));
            assert(entry_coords(pre).to_multiset().count((seed.tx, seed.ty)) > 0);
            assert(entry_coords(cur@) == entry_coords(pre).remove(0));
            assert(entry_coords(pre).remove(0).to_multiset() == entry_coords(pre).to_multiset()
                .remove((seed.tx, seed.ty)));
        }
        let mut coords: Vec<(usize, usize)> = Vec::new();
        let mut mr = mean_step(0, seed.r, 0);
        let mut mg = mean_step(0, seed.g, 0);
        let mut mb = mean_step(0, seed.b, 0);
        coords.push((seed.tx, seed.ty));
        proof {
            assert(coords@.drop_last() =~= Seq::<(usize, usize)>::empty());
            assert((mr as int, mg as int, mb as int) == run_mean(orig, coords@));
            assert(absorb_ok(orig, coords@));
            assert(coords@ == Seq::<(usize, usize)>::empty().push((seed.tx, seed.ty)));
            assert(coords@.to_multiset() == Seq::<(usize, usize)>::empty().to_multiset().insert(
                (seed.tx, seed.ty),
            ));
            assert(Seq::<(usize, usize)>::empty().to_multiset() =~= Multiset::empty());
            assert(groups_ms(groups@).add(coords@.to_multiset()).add(
                entry_coords(cur@).to_multiset(),
            ) =~= total);
        }
        let mut stack: Vec<(usize, usize)> = Vec::new();
        push_tile_neighbours(&mut stack, seed.tx, seed.ty);
        while stack.len() > 0
            invariant
                orig.distinct(),
                orig.cols_bounded(),
                total == entry_coords(orig.entries@).to_multiset(),
                cur@.to_multiset().subset_of(orig.entries@.to_multiset()),
                groups_ms(groups@).add(coords@.to_multiset()).add(
                    entry_coords(cur@).to_multiset(),
                ) == total,
                coords@.len() >= 1,
                cur@.len() + coords@.len() <= n0,
                mr <= SCALE,
                mg <= SCALE,
                mb <= SCALE,
                (mr as int, mg as int, mb as int) == run_mean(orig, coords@),
                absorb_ok(orig, coords@),
                forall|i: int| 0 <= i < groups.len() ==> (#[trigger] groups[i]).coords.len() >= 1,
                forall|i: int|
                    0 <= i < groups.len() ==> ((#[trigger] groups[i]).r as int, groups[i].g as int,
                    groups[i].b as int) == run_mean(orig, groups[i].coords@),
                forall|i: int|
                    0 <= i < groups.len() ==> absorb_ok(orig, (#[trigger] groups[i]).coords@),
            decreases cur.len(), stack.len(),
        {
            let pos = stack.pop().unwrap();
            if let Some(idx) = find_entry(&cur, pos.0, pos.1) {
                let e = cur[idx];
                proof {
                    assert(cur@.contains(e));
                    assert(cur@.to_multiset().count(e) > 0);
                    assert(orig.entries@.to_multiset().count(e) > 0);
                    assert(orig.entries@.contains(e));
                    let k0 = choose|k0: int|
                        0 <= k0 < orig.entries@.len() && orig.entries@[k0] == e;
                    assert(e.r <= SCALE && e.g <= SCALE && e.b <= SCALE);
                }
                let d = mean_dist_sq(mr, mg, mb, &e);
                if d < GROUP_DIST * GROUP_DIST {
                    let ghost pre2 = cur@;
                    cur.remove(idx);
                    proof {
                        assert(pre2[idx as int] == e);
                        assert(pre2.contains(e));
                        assert(pre2.to_multiset().count(e) > 0);
                        assert(orig.entries@.to_multiset().count(e) > 0);
                        assert(orig.entries@.contains(e));
                        lemma_entry_coords_remove(pre2, idx as int);
                        assert(cur@.to_multiset() == pre2.to_multiset().remove(e)) by {
                            assert(cur@ == pre2.remove(idx as int));
                            assert(pre2.remove(idx as int).to_multiset() == pre2.to_multiset()
                                .remove(pre2[idx as int]));
                        }
                        assert(cur@.to_multiset().subset_of(orig.entries@.to_multiset())) by {
                            assert forall|v: ChunkEntry|
                                cur@.to_multiset().count(v) <= orig.entries@.to_multiset().count(
                                    v,
                                ) by {
                                assert(pre2.to_multiset().count(v) <= orig.entries@.to_multiset()
                                    .count(v));
                            }
                        }
                        lemma_col_of(orig, e);
                        assert(entry_coords(pre2)[idx as int] == (e.tx, e.ty));
                        assert(entry_coords(pre2).contains((e.tx, e.ty)));
                        assert(entry_coords(pre2).to_multiset().count((e.tx, e.ty)) > 0);
                        assert(entry_coords(cur@) == entry_coords(pre2).remove(idx as int));
                        assert(entry_coords(pre2).remove(idx as int).to_multiset() == entry_coords(
                            pre2,
                        ).to_multiset().remove((e.tx, e.ty)));
                    }
                    let k = coords.len();
                    let nr = mean_step(mr, e.r, k);
                    let ng = mean_step(mg, e.g, k);
                    let nb = mean_step(mb, e.b, k);
                    let ghost precoords = coords@;
                    let ghost om = (mr as int, mg as int, mb as int);
                    coords.push((e.tx, e.ty));
                    mr = nr;
                    mg = ng;
                    mb = nb;
                    proof {
                        assert(coords@.drop_last() =~= precoords);
                        assert(coords@.last() == (e.tx, e.ty));
                        assert((mr as int, mg as int, mb as int) == run_mean(orig, coords@));
                        assert(coords@ == precoords.push((e.tx, e.ty)));
                        assert forall|i: int| 1 <= i < coords@.len() implies dist2(
                            run_mean(orig, coords@.take(i)),
                            col_of(orig, #[trigger] coords@[i]),
                        ) < GROUP_DIST * GROUP_DIST by {
                            if i < precoords.len() {
                                assert(coords@.take(i) =~= precoords.take(i));
                                assert(coords@[i] == precoords[i]);
                            } else {
                                assert(coords@.take(i) =~= precoords);
                                assert(coords@[i] == (e.tx, e.ty));
                                assert(col_of(orig, (e.tx, e.ty)) == (e.r as int, e.g as int,
                                e.b as int));
                                assert(dist2(
                                    run_mean(orig, precoords),
                                    (e.r as int, e.g as int, e.b as int),
                                ) == d) by (nonlinear_arith)
                                    requires
                                        run_mean(orig, precoords) == om,
                                        d == (om.0 - e.r) * (om.0 - e.r) + (om.1 - e.g) * (om.1
                                            - e.g) + (om.2 - e.b) * (om.2 - e.b),
                                ;
                            }
                        }
                        assert(absorb_ok(orig, coords@));
                        assert(coords@.to_multiset() == precoords.to_multiset().insert(
                            (e.tx, e.ty),
                        ));
                        assert(groups_ms(groups@).add(coords@.to_multiset()).add(
                            entry_coords(cur@).to_multiset(),
                        ) =~= total);
                    }
                    push_tile_neighbours(&mut stack, e.tx, e.ty);
                }
            }
        }
        let ghost pregroups = groups@;
        let ghost gcoords = coords@;
        groups.push(ObjectGroup { coords, r: mr, g: mg, b: mb });
        proof {
            lemma_groups_ms_push(pregroups, groups@.last());
            assert(groups@.last().coords@ == gcoords);
            assert(groups_ms(groups@).add(entry_coords(cur@).to_multiset()) =~= total);
        }
    }
    proof {
        assert(entry_coords(cur@).to_multiset() =~= Multiset::empty());
        assert(groups_ms(groups@) =~= total);
    }
    groups
}

/// Pushes the four neighbouring tile coordinates, skipping underflow and
/// overflow at the edges of the coordinate space, where no tile can exist.
fn push_tile_neighbours(stack: &mut Vec<(usize, usize)>, tx: usize, ty: usize)
{
    if tx < usize::MAX {
        stack.push((tx + 1, ty));
    }
    if tx > 0 {
        stack.push((tx - 1, ty));
    }
    if ty < usize::MAX {
        stack.push((tx, ty + 1));
    }
    if ty > 0 {
        stack.push((tx, ty - 1));
    }
}

} // verus!

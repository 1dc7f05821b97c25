//! Seeded placement of the stars of a sky under the spacing rules, with a
//! few links made in advance between close stars.
use vstd::prelude::*;

use crate::constellation::{constellation, lemma_constellation_size, links_within, reachable};
use crate::geometry::{
    dist_sq, div_toward_zero, div_trunc, floor_sqrt, is_isqrt, isqrt, lemma_isqrt_at_least,
    lemma_scaled_offset_bound, lemma_square_monotonic,
};
use crate::rng::{lcg_step, next_random, random_output};
use crate::sky::Sky;
use crate::spatial::{
    in_world, is_in_bounds, lemma_near_points_adjacent, near_list, neighbors,
    section_of, SpatialIndex, SECTION_HEIGHT, SECTION_WIDTH, SKY_HEIGHT_SECTIONS, SKY_WIDTH_SECTIONS,
};
use crate::star::{Link, LinkStyle, Star};

verus! {

broadcast use vstd::seq_lib::group_seq_properties;

/// The least distance between two stars.
pub const STAR_DIST_MIN: i32 = 20;

/// The greatest distance at which a new star may be linked to its nearest
/// neighbour in advance.
pub const STAR_DIST_MAX_FOR_PRESET_LINE: i32 = 30;

/// The greatest distance between two stars that a line may join.
pub const STAR_DIST_MAX_FOR_LINE: i32 = 35;

/// No two stars lie farther apart than `STAR_DIST_MAX_FOR_LINE` and at most
/// this far apart, so that it is plain to see whether two stars can be linked.
pub const STAR_DIST_DEAD_ZONE_END: i32 = 47;

/// The number of stars a sky is generated with.
pub const MAX_STARS: usize = 350;

/// Correction passes spent on one candidate position before it is given up.
pub const MAX_ADJUSTMENTS_PER_STAR: usize = 50;

/// Candidate positions drawn at most while a sky is generated; generation
/// ends with fewer stars than `MAX_STARS` only once these are spent.
pub const MAX_PLACEMENT_ATTEMPTS: usize = 200_000;

/// Draws below this value (two fifths of the range of `u32`) make a link in advance.
pub const PRESET_LINE_THRESHOLD: u32 = 1_717_986_881;

/// Links in advance only join a star to a constellation of fewer stars than this.
pub const MAX_PRESET_CONSTELLATION_SIZE: usize = 3;

/// Squared distance between two stars.
pub open spec fn star_dist_sq(a: Star, b: Star) -> int {
    dist_sq(a.x as int, a.y as int, b.x as int, b.y as int)
}

/// Two stars this far apart (squared) keep the spacing rules: their distance,
/// rounded down, is at least `STAR_DIST_MIN` and lies outside the dead zone
/// `(STAR_DIST_MAX_FOR_LINE, STAR_DIST_DEAD_ZONE_END]`.
pub open spec fn spaced(sq: int) -> bool {
    &&& sq >= STAR_DIST_MIN * STAR_DIST_MIN
    &&& !((STAR_DIST_MAX_FOR_LINE + 1) * (STAR_DIST_MAX_FOR_LINE + 1) <= sq < (
    STAR_DIST_DEAD_ZONE_END + 1) * (STAR_DIST_DEAD_ZONE_END + 1))
}

/// Two stars this far apart (squared) are within reach of a line: their
/// distance, rounded down, is at most `STAR_DIST_MAX_FOR_LINE`.
pub open spec fn within_line_reach(sq: int) -> bool {
    sq < (STAR_DIST_MAX_FOR_LINE + 1) * (STAR_DIST_MAX_FOR_LINE + 1)
}

/// Every two stars of the field keep the spacing rules.
pub open spec fn field_spaced(stars: Seq<Star>) -> bool {
    forall|i: int, j: int|
        #![trigger star_dist_sq(stars[i], stars[j])]
        0 <= i < stars.len() && 0 <= j < stars.len() && i != j ==> spaced(
            star_dist_sq(stars[i], stars[j]),
        )
}

/// Star `i` has another star of the field within reach of a line.
pub open spec fn has_near_neighbour(stars: Seq<Star>, i: int) -> bool {
    exists|j: int|
        #![trigger star_dist_sq(stars[i], stars[j])]
        0 <= j < stars.len() && j != i && within_line_reach(star_dist_sq(stars[i], stars[j]))
}

/// Every star but the first has another star within reach of a line.
pub open spec fn field_linkable(stars: Seq<Star>) -> bool {
    forall|i: int| 0 < i < stars.len() ==> #[trigger] has_near_neighbour(stars, i)
}

/// The first star of the sky generated from `seed`: a bright star in the
/// centre section, offset by two draws.
pub open spec fn first_star(seed: u32) -> Star {
    Star {
        x: (320 + random_output(seed) % 64) as i16,
        y: (320 + random_output(lcg_step(lcg_step(seed))) % 64) as i16,
        bright: true,
    }
}

/// The correction a candidate at `(x, y)` needs, scanning the near stars
/// from the `k`-th on, when the nearest star seen so far is `best` away
/// (rounded down) at `(bx, by)`: the first star at the same place, closer than
/// `STAR_DIST_MIN` or in the dead zone decides; past the last star, a
/// candidate whose nearest star is out of reach of a line is pulled toward it.
#[verifier::opaque]
pub open spec fn scan_conflict(
    stars: Seq<Star>,
    near: Seq<usize>,
    x: int,
    y: int,
    k: int,
    best: int,
    bx: int,
    by: int,
) -> Option<(i16, i16)>
    decreases near.len() - k,
{
    if k < 0 || k >= near.len() {
        if best > STAR_DIST_MAX_FOR_LINE {
            Some(
                (
                    div_trunc((bx - x) * STAR_DIST_MAX_FOR_LINE, best) as i16,
                    div_trunc((by - y) * STAR_DIST_MAX_FOR_LINE, best) as i16,
                ),
            )
        } else {
            None
        }
    } else {
        let s = stars[near[k] as int];
        let dx = x - s.x;
        let dy = y - s.y;
        let d = floor_sqrt(dx * dx + dy * dy);
        if d == 0 {
            Some((10i16, 10i16))
        } else if d < STAR_DIST_MIN {
            Some(
                (
                    div_trunc(dx * STAR_DIST_MIN, d) as i16,
                    div_trunc(dy * STAR_DIST_MIN, d) as i16,
                ),
            )
        } else if STAR_DIST_MAX_FOR_LINE < d <= STAR_DIST_DEAD_ZONE_END {
            Some(
                (
                    div_trunc(dx * STAR_DIST_MAX_FOR_LINE, d) as i16,
                    div_trunc(dy * STAR_DIST_MAX_FOR_LINE, d) as i16,
                ),
            )
        } else if d < best {
            scan_conflict(stars, near, x, y, k + 1, d, s.x as int, s.y as int)
        } else {
            scan_conflict(stars, near, x, y, k + 1, best, bx, by)
        }
    }
}

/// The correction a candidate at `(x, y)` needs against the stars in the
/// sections around it, or `None` when a star can be placed there.
#[verifier::opaque]
pub open spec fn conflict_at(stars: Seq<Star>, cells: Seq<Seq<usize>>, x: int, y: int) -> Option<
    (i16, i16),
> {
    scan_conflict(stars, near_list(cells, neighbors(section_of(x, y))), x, y, 0, i32::MAX as int, 0, 0)
}

/// The nearest star to star `idx` among the near stars from the `k`-th on,
/// with its squared distance, given the nearest found so far; the first of
/// equals wins.
#[verifier::opaque]
pub open spec fn scan_closest(
    stars: Seq<Star>,
    near: Seq<usize>,
    idx: int,
    k: int,
    best: Option<(usize, int)>,
) -> Option<(usize, int)>
    decreases near.len() - k,
{
    if k < 0 || k >= near.len() {
        best
    } else if near[k] as int == idx {
        scan_closest(stars, near, idx, k + 1, best)
    } else {
        let sq = star_dist_sq(stars[near[k] as int], stars[idx]);
        let better = match best {
            None => true,
            Some((_, b)) => sq < b,
        };
        scan_closest(stars, near, idx, k + 1, if better { Some((near[k], sq)) } else { best })
    }
}

/// The nearest other star to star `idx` in the sections around it, with its
/// distance rounded down.
#[verifier::opaque]
pub open spec fn closest_to(stars: Seq<Star>, cells: Seq<Seq<usize>>, idx: int) -> Option<
    (usize, int),
> {
    let near = near_list(cells, neighbors(section_of(stars[idx].x as int, stars[idx].y as int)));
    match scan_closest(stars, near, idx, 0, None) {
        None => None,
        Some((j, b)) => Some((j, floor_sqrt(b))),
    }
}

/// The links and generator state after star `idx` is placed: when its
/// nearest neighbour is within `STAR_DIST_MAX_FOR_PRESET_LINE` and lies in a
/// constellation of fewer than `MAX_PRESET_CONSTELLATION_SIZE` stars, one draw
/// below `PRESET_LINE_THRESHOLD` links the two.
#[verifier::opaque]
pub open spec fn preset_links(
    stars: Seq<Star>,
    links: Seq<Link>,
    cells: Seq<Seq<usize>>,
    idx: int,
    rng: u32,
) -> (Seq<Link>, u32) {
    match closest_to(stars, cells, idx) {
        None => (links, rng),
        Some((j, d)) => if d > STAR_DIST_MAX_FOR_PRESET_LINE || constellation(
            links,
            stars.len() as int,
            j as int,
        ).len() >= MAX_PRESET_CONSTELLATION_SIZE {
            (links, rng)
        } else if random_output(rng) < PRESET_LINE_THRESHOLD {
            (
                links.push(
                    Link { start_idx: j as u16, end_idx: idx as u16, style: LinkStyle::Bright },
                ),
                lcg_step(lcg_step(rng)),
            )
        } else {
            (links, lcg_step(lcg_step(rng)))
        },
    }
}

/// The state of generation between two steps.
pub struct GenState {
    pub stars: Seq<Star>,
    pub links: Seq<Link>,
    /// The star indices each section of the grid holds.
    pub cells: Seq<Seq<usize>>,
    /// The sections that hold a star, in the order they were first filled.
    pub filled: Seq<usize>,
    pub rng: u32,
}

/// The state after `star` is added as the last star and sorted into its section.
#[verifier::opaque]
pub open spec fn with_star(st: GenState, star: Star) -> GenState {
    let c = section_of(star.x as int, star.y as int);
    GenState {
        stars: st.stars.push(star),
        cells: st.cells.update(c, st.cells[c].push(st.stars.len() as usize)),
        filled: if st.cells[c].len() == 0 {
            st.filled.push(c as usize)
        } else {
            st.filled
        },
        ..st
    }
}

/// The state after a bright star is placed at `(x, y)` and perhaps linked in
/// advance to its nearest neighbour.
#[verifier::opaque]
pub open spec fn placed(st: GenState, x: int, y: int) -> GenState {
    let added = with_star(st, Star { x: x as i16, y: y as i16, bright: true });
    let preset = preset_links(
        added.stars,
        added.links,
        added.cells,
        st.stars.len() as int,
        added.rng,
    );
    GenState { links: preset.0, rng: preset.1, ..added }
}

/// The shift of a corrected candidate on one axis taken from a draw: `-3` to `4`.
pub open spec fn jitter(draw: u32) -> int {
    draw as int % 8 - 3
}

/// The state after the candidate at `(x, y)` has been through its correction
/// passes from pass `pass` on: abandoned once it leaves the world or the
/// passes run out, moved by its correction and a jitter while it has one,
/// placed once it has none.
#[verifier::opaque]
pub open spec fn adjusted(st: GenState, x: int, y: int, pass: int) -> GenState
    decreases MAX_ADJUSTMENTS_PER_STAR - pass,
{
    if pass < 0 || pass >= MAX_ADJUSTMENTS_PER_STAR || !in_world(x, y) {
        st
    } else {
        match conflict_at(st.stars, st.cells, x, y) {
            Some((dx, dy)) => {
                let r1 = lcg_step(lcg_step(st.rng));
                let r2 = lcg_step(lcg_step(r1));
                adjusted(
                    GenState { rng: r2, ..st },
                    x + dx + jitter(random_output(st.rng)),
                    y + dy + jitter(random_output(r1)),
                    pass + 1,
                )
            },
            None => if st.stars.len() >= MAX_STARS {
                st
            } else {
                placed(st, x, y)
            },
        }
    }
}

/// The state after one attempt: a draw picks an occupied section, two draws
/// a candidate position in it, and the candidate goes through its correction
/// passes.
#[verifier::opaque]
pub open spec fn attempt(st: GenState) -> GenState {
    let r1 = lcg_step(lcg_step(st.rng));
    let r2 = lcg_step(lcg_step(r1));
    let r3 = lcg_step(lcg_step(r2));
    let section = st.filled[(random_output(st.rng) as int) % (st.filled.len() as int)] as int;
    let x = (section % 10) * 64 + random_output(r1) as int % 64;
    let y = (section / 10) * 64 + random_output(r2) as int % 64;
    adjusted(GenState { rng: r3, ..st }, x, y, 0)
}

/// The state once attempts are made from attempt `attempts` on until the sky
/// holds `MAX_STARS` stars or `MAX_PLACEMENT_ATTEMPTS` attempts are spent.
#[verifier::opaque]
pub open spec fn run_from(st: GenState, attempts: int) -> GenState
    decreases MAX_PLACEMENT_ATTEMPTS - attempts,
{
    if attempts < 0 || attempts >= MAX_PLACEMENT_ATTEMPTS || st.stars.len() >= MAX_STARS {
        st
    } else {
        run_from(attempt(st), attempts + 1)
    }
}

/// The sky generated from `seed`: the first star with the generator two
/// draws on, then the attempts.
pub open spec fn generated(seed: u32) -> GenState {
    let empty = GenState {
        stars: Seq::empty(),
        links: Seq::empty(),
        cells: Seq::new(100, |c: int| Seq::<usize>::empty()),
        filled: Seq::empty(),
        rng: lcg_step(lcg_step(lcg_step(lcg_step(seed)))),
    };
    run_from(with_star(empty, first_star(seed)), 0)
}

/// The generation state that the values of a running generator stand for.
spec fn state_of(stars: Seq<Star>, links: Seq<Link>, index: SpatialIndex, rng: u32) -> GenState {
    GenState { stars, links, cells: index.cells(), filled: index.filled@, rng }
}

/// The squared distance does not depend on the order of the points.
proof fn lemma_dist_sq_symmetric(ax: int, ay: int, bx: int, by: int)
    ensures
        dist_sq(ax, ay, bx, by) == dist_sq(bx, by, ax, ay),
{
    assert((ax - bx) * (ax - bx) == (bx - ax) * (bx - ax)) by (nonlinear_arith);
    assert((ay - by) * (ay - by) == (by - ay) * (by - ay)) by (nonlinear_arith);
}

/// One coordinate of an offset is no longer than the rounded-down length of the offset.
proof fn lemma_coord_within_root(d: int, sq: int, r: int)
    requires
        d * d <= sq,
        is_isqrt(sq, r),
    ensures
        -r <= d <= r,
{
    if d > r {
        assert(d * d >= (r + 1) * (r + 1)) by (nonlinear_arith)
            requires
                d >= r + 1,
                r >= 0,
        ;
    }
    if d < -r {
        assert(d * d >= (r + 1) * (r + 1)) by (nonlinear_arith)
            requires
                -d >= r + 1,
                r >= 0,
        ;
    }
}

/// Points more than a section apart on some axis keep the spacing rules.
proof fn lemma_far_is_spaced(dx: int, dy: int)
    requires
        !(-64 < dx < 64 && -64 < dy < 64),
    ensures
        dx * dx + dy * dy >= 4096,
{
    assert(dx * dx >= 0 && dy * dy >= 0) by (nonlinear_arith);
    if dx <= -64 || dx >= 64 {
        assert(dx * dx >= 4096) by (nonlinear_arith)
            requires
                dx <= -64 || dx >= 64,
        ;
    } else {
        assert(dy * dy >= 4096) by (nonlinear_arith)
            requires
                dy <= -64 || dy >= 64,
        ;
    }
}

/// `d * k / dist` rounded toward zero: an offset no longer than `dist`
/// scaled to one no longer than `k`.
fn scale_offset(d: i32, k: i32, dist: i32) -> (r: i16)
    requires
        0 < dist,
        0 <= k <= STAR_DIST_MAX_FOR_LINE,
        -dist <= d <= dist,
    ensures
        r == div_trunc(d * k, dist as int),
        -k <= r <= k,
{
    proof {
        lemma_scaled_offset_bound(d as int, k as int, dist as int);
        assert(-0x8000_0000 * 35 <= d * k <= 0x8000_0000 * 35) by (nonlinear_arith)
            requires
                0 <= k <= 35,
                -dist <= d <= dist,
                dist < 0x8000_0000,
        ;
    }
    div_toward_zero(d as i64 * k as i64, dist as i64) as i16
}

/// The first correction a candidate position needs, scanning the stars near
/// it in order: `(10, 10)` for a star at the same place; a push away to
/// `STAR_DIST_MIN` from a star closer than that; a push to
/// `STAR_DIST_MAX_FOR_LINE` from a star in the dead zone; otherwise, when no
/// near star is within reach of a line, a pull toward the nearest to that
/// distance. `None` when the position can take a star.
fn check_distances(index: &SpatialIndex, stars: &Vec<Star>, x: i16, y: i16) -> (r: Option<
    (i16, i16),
>)
    requires
        index.indexes(stars@),
        stars@.len() <= MAX_STARS,
        in_world(x as int, y as int),
    ensures
        r is None ==> (forall|s: int|
            #![trigger stars@[s]]
            0 <= s < stars@.len() ==> spaced(
                dist_sq(x as int, y as int, stars@[s].x as int, stars@[s].y as int),
            )),
        r is None ==> exists|s: int|
            0 <= s < stars@.len() && within_line_reach(
                dist_sq(x as int, y as int, stars@[s].x as int, stars@[s].y as int),
            ),
        r matches Some((dx, dy)) ==> -STAR_DIST_MAX_FOR_LINE <= dx <= STAR_DIST_MAX_FOR_LINE
            && -STAR_DIST_MAX_FOR_LINE <= dy <= STAR_DIST_MAX_FOR_LINE,
        r == conflict_at(stars@, index.cells(), x as int, y as int),
{
    let near: Vec<usize> = index.stars_near(stars, x, y);
    let ghost goal = conflict_at(stars@, index.cells(), x as int, y as int);
    proof {
        reveal(conflict_at);
        reveal(scan_conflict);
    }
    let mut closest_dist: i32 = i32::MAX;
    let mut closest_x: i16 = 0;
    let mut closest_y: i16 = 0;
    let mut k: usize = 0;
    while k < near.len()
        invariant
            index.indexes(stars@),
            stars@.len() <= MAX_STARS,
            in_world(x as int, y as int),
            k <= near@.len(),
            forall|j: int| 0 <= j < near@.len() ==> near@[j] < stars@.len(),
            forall|j: int|
                #![trigger near@[j]]
                0 <= j < k ==> spaced(
                    dist_sq(
                        x as int,
                        y as int,
                        stars@[near@[j] as int].x as int,
                        stars@[near@[j] as int].y as int,
                    ),
                ),
            0 < closest_dist,
            0 <= closest_x < 640,
            0 <= closest_y < 640,
            -closest_dist <= closest_x - x <= closest_dist,
            -closest_dist <= closest_y - y <= closest_dist,
            goal == conflict_at(stars@, index.cells(), x as int, y as int),
            near@ == near_list(index.cells(), neighbors(section_of(x as int, y as int))),
            goal == scan_conflict(
                stars@,
                near@,
                x as int,
                y as int,
                k as int,
                closest_dist as int,
                closest_x as int,
                closest_y as int,
            ),
            closest_dist < i32::MAX ==> exists|j: int|
                0 <= j < k && dist_sq(
                    x as int,
                    y as int,
                    stars@[near@[j] as int].x as int,
                    stars@[near@[j] as int].y as int,
                ) < (closest_dist + 1) * (closest_dist + 1),
        decreases near@.len() - k,
    {
        proof {
            reveal(scan_conflict);
        }
        let s: Star = stars[near[k]];
        assert(in_world(s.x as int, s.y as int)) by {
            assert(stars@[near@[k as int] as int] == s);
        }
        let dx: i32 = (x - s.x) as i32;
        let dy: i32 = (y - s.y) as i32;
        assert(0 <= dx * dx <= 640 * 640 && 0 <= dy * dy <= 640 * 640) by (nonlinear_arith)
            requires
                -640 < dx < 640,
                -640 < dy < 640,
        ;
        let sq: i32 = dx * dx + dy * dy;
        let dist_wide: u64 = isqrt(sq as u64);
        proof {
            assert(dx * dx >= 0 && dy * dy >= 0) by (nonlinear_arith);
            assert(dist_wide <= sq) by (nonlinear_arith)
                requires
                    dist_wide * dist_wide <= sq,
                    0 <= dist_wide,
            ;
            lemma_coord_within_root(dx as int, sq as int, dist_wide as int);
            lemma_coord_within_root(dy as int, sq as int, dist_wide as int);
            lemma_isqrt_at_least(sq as int, dist_wide as int, 1);
            lemma_isqrt_at_least(sq as int, dist_wide as int, 20);
            lemma_isqrt_at_least(sq as int, dist_wide as int, 36);
            lemma_isqrt_at_least(sq as int, dist_wide as int, 48);
        }
        let dist: i32 = dist_wide as i32;
        let ghost d = floor_sqrt(dx * dx + dy * dy);
        assert(d == dist);
        assert(s == stars@[near@[k as int] as int]);
        if dist == 0 {
            assert(goal == Some((10i16, 10i16)));
            return Some((10, 10));
        }
        if dist < STAR_DIST_MIN {
            return Some(
                (
                    scale_offset(dx, STAR_DIST_MIN, dist),
                    scale_offset(dy, STAR_DIST_MIN, dist),
                ),
            );
        }
        if dist > STAR_DIST_MAX_FOR_LINE && dist <= STAR_DIST_DEAD_ZONE_END {
            return Some(
                (
                    scale_offset(dx, STAR_DIST_MAX_FOR_LINE, dist),
                    scale_offset(dy, STAR_DIST_MAX_FOR_LINE, dist),
                ),
            );
        }
        if dist < closest_dist {
            closest_dist = dist;
            closest_x = s.x;
            closest_y = s.y;
        }
        k = k + 1;
    }
    proof {
        reveal(scan_conflict);
    }
    if closest_dist > STAR_DIST_MAX_FOR_LINE {
        let dx: i32 = (closest_x - x) as i32;
        let dy: i32 = (closest_y - y) as i32;
        return Some(
            (
                scale_offset(dx, STAR_DIST_MAX_FOR_LINE, closest_dist),
                scale_offset(dy, STAR_DIST_MAX_FOR_LINE, closest_dist),
            ),
        );
    }
    assert forall|s: int|
        #![trigger stars@[s]]
        0 <= s < stars@.len() implies spaced(
        dist_sq(x as int, y as int, stars@[s].x as int, stars@[s].y as int),
    ) by {
        let sx = stars@[s].x as int;
        let sy = stars@[s].y as int;
        if -64 < x - sx < 64 && -64 < y - sy < 64 {
            lemma_near_points_adjacent(sx, sy, x as int, y as int);
            assert(near@.contains(s as usize));
            let j = choose|j: int| 0 <= j < near@.len() && near@[j] == s as usize;
            assert(s as usize as int == s);
            assert(near@[j] as int == s);
            assert(spaced(
                dist_sq(
                    x as int,
                    y as int,
                    stars@[near@[j] as int].x as int,
                    stars@[near@[j] as int].y as int,
                ),
            ));
        } else {
            lemma_far_is_spaced(x - sx, y - sy);
            assert(dist_sq(x as int, y as int, sx, sy) >= 4096);
        }
    }
    proof {
        lemma_square_monotonic(closest_dist + 1, 36);
    }
    None
}

/// The star nearest to star `idx` among the stars in the sections around it,
/// other than itself, with its distance rounded down; the first of equals in
/// the order of the sections.
fn get_closest_star_idx(index: &SpatialIndex, stars: &Vec<Star>, idx: usize) -> (r: Option<(usize, u64)>)
    requires
        index.indexes(stars@),
        stars@.len() <= MAX_STARS,
        idx < stars@.len(),
    ensures
        r matches Some((j, d)) ==> j < stars@.len() && j != idx && is_isqrt(
            star_dist_sq(stars@[j as int], stars@[idx as int]),
            d as int,
        ),
        match r {
            None => closest_to(stars@, index.cells(), idx as int) is None,
            Some((j, d)) => closest_to(stars@, index.cells(), idx as int) == Some((j, d as int)),
        },
{
    let base: Star = stars[idx];
    assert(in_world(base.x as int, base.y as int)) by {
        assert(stars@[idx as int] == base);
    }
    let near: Vec<usize> = index.stars_near(stars, base.x, base.y);
    let mut best: Option<(usize, i32)> = None;
    let ghost goal = scan_closest(stars@, near@, idx as int, 0, None);
    proof {
        reveal(closest_to);
        reveal(scan_closest);
    }
    let mut k: usize = 0;
    while k < near.len()
        invariant
            goal == scan_closest(
                stars@,
                near@,
                idx as int,
                k as int,
                match best {
                    None => None,
                    Some((j, b)) => Some((j, b as int)),
                },
            ),
            index.indexes(stars@),
            stars@.len() <= MAX_STARS,
            idx < stars@.len(),
            base == stars@[idx as int],
            forall|j: int| 0 <= j < near@.len() ==> near@[j] < stars@.len(),
            best matches Some((j, b)) ==> j < stars@.len() && j != idx && b == star_dist_sq(
                stars@[j as int],
                base,
            ) && 0 <= b,
        decreases near@.len() - k,
    {
        proof {
            reveal(scan_closest);
        }
        let j: usize = near[k];
        if j != idx {
            let s: Star = stars[j];
            assert(in_world(s.x as int, s.y as int)) by {
                assert(stars@[j as int] == s);
            }
            let dx: i32 = (s.x - base.x) as i32;
            let dy: i32 = (s.y - base.y) as i32;
            assert(0 <= dx * dx <= 640 * 640 && 0 <= dy * dy <= 640 * 640) by (nonlinear_arith)
                requires
                    -640 < dx < 640,
                    -640 < dy < 640,
            ;
            let sq: i32 = dx * dx + dy * dy;
            assert(sq == star_dist_sq(stars@[near@[k as int] as int], stars@[idx as int]));
            let better: bool = match best {
                None => true,
                Some((_, b)) => sq < b,
            };
            if better {
                best = Some((j, sq));
            }
        }
        k = k + 1;
    }
    assert(base == stars@[idx as int]);
    proof {
        reveal(scan_closest);
    }
    match best {
        None => None,
        Some((j, b)) => Some((j, isqrt(b as u64))),
    }
}

/// Places `star`, which must lie in the world, as the last star and sorts it
/// into the grid; returns its index.
fn add_star(stars: &mut Vec<Star>, index: &mut SpatialIndex, star: Star) -> (r: usize)
    requires
        old(index).indexes(old(stars)@),
        old(stars)@.len() < MAX_STARS,
        in_world(star.x as int, star.y as int),
    ensures
        final(stars)@ == old(stars)@.push(star),
        final(index).indexes(final(stars)@),
        r == old(stars)@.len(),
        ({
            let st = GenState {
                stars: old(stars)@,
                links: Seq::empty(),
                cells: old(index).cells(),
                filled: old(index).filled@,
                rng: 0,
            };
            &&& final(index).cells() == with_star(st, star).cells
            &&& final(index).filled@ == with_star(st, star).filled
        }),
{
    proof {
        reveal(with_star);
    }
    stars.push(star);
    assert(stars@.drop_last() == old(stars)@);
    index.insert(stars);
    stars.len() - 1
}

/// After star `idx` is placed: when its nearest neighbour is within
/// `STAR_DIST_MAX_FOR_PRESET_LINE` and belongs to a constellation of fewer than
/// `MAX_PRESET_CONSTELLATION_SIZE` stars, one draw decides whether a bright
/// link joins the two.
fn handle_preset_line(
    index: &SpatialIndex,
    stars: &Vec<Star>,
    links: &mut Vec<Link>,
    idx: usize,
    rng: &mut u32,
)
    requires
        index.indexes(stars@),
        stars@.len() <= MAX_STARS,
        idx < stars@.len(),
        links_within(old(links)@, stars@.len() as int),
    ensures
        links_within(final(links)@, stars@.len() as int),
        final(links)@ == old(links)@ || {
            &&& final(links)@.len() == old(links)@.len() + 1
            &&& final(links)@.drop_last() == old(links)@
            &&& final(links)@.last().end_idx == idx
            &&& final(links)@.last().start_idx != idx
            &&& final(links)@.last().style == LinkStyle::Bright
        },
        (final(links)@, *final(rng)) == preset_links(
            stars@,
            old(links)@,
            index.cells(),
            idx as int,
            *old(rng),
        ),
{
    proof {
        reveal(preset_links);
    }
    if let Some((closest, dist)) = get_closest_star_idx(index, stars, idx) {
        if dist <= STAR_DIST_MAX_FOR_PRESET_LINE as u64 {
            let members: Vec<u16> = reachable(links, stars.len(), closest as u16);
            proof {
                lemma_constellation_size(links@, stars@.len() as int, closest as int, members@);
            }
            if members.len() < MAX_PRESET_CONSTELLATION_SIZE {
                if next_random(rng) < PRESET_LINE_THRESHOLD {
                    let link: Link = Link::new(closest as u16, idx as u16, LinkStyle::Bright);
                    links.push(link);
                    assert(links@.drop_last() == old(links)@);
                }
            }
        }
    }
}

/// A star that keeps the spacing rules with every star of a field, and has
/// one of them within reach of a line, can join the field.
proof fn lemma_place_star(stars: Seq<Star>, c: Star)
    requires
        field_spaced(stars),
        field_linkable(stars),
        forall|s: int|
            #![trigger stars[s]]
            0 <= s < stars.len() ==> spaced(
                dist_sq(c.x as int, c.y as int, stars[s].x as int, stars[s].y as int),
            ),
        exists|s: int|
            0 <= s < stars.len() && within_line_reach(
                dist_sq(c.x as int, c.y as int, stars[s].x as int, stars[s].y as int),
            ),
    ensures
        field_spaced(stars.push(c)),
        field_linkable(stars.push(c)),
{
    let next = stars.push(c);
    let n = stars.len() as int;
    assert(next[n] == c);
    assert forall|i: int, j: int|
        #![trigger star_dist_sq(next[i], next[j])]
        0 <= i < next.len() && 0 <= j < next.len() && i != j implies spaced(
        star_dist_sq(next[i], next[j]),
    ) by {
        if i == n {
            assert(next[j] == stars[j]);
            assert(spaced(dist_sq(c.x as int, c.y as int, stars[j].x as int, stars[j].y as int)));
        } else if j == n {
            assert(next[i] == stars[i]);
            assert(spaced(dist_sq(c.x as int, c.y as int, stars[i].x as int, stars[i].y as int)));
            lemma_dist_sq_symmetric(c.x as int, c.y as int, stars[i].x as int, stars[i].y as int);
        } else {
            assert(next[i] == stars[i] && next[j] == stars[j]);
            assert(spaced(star_dist_sq(stars[i], stars[j])));
        }
    }
    assert(field_spaced(next));
    assert forall|i: int| 0 < i < next.len() implies #[trigger] has_near_neighbour(next, i) by {
        if i == n {
            let s = choose|s: int|
                0 <= s < stars.len() && within_line_reach(
                    dist_sq(c.x as int, c.y as int, stars[s].x as int, stars[s].y as int),
                );
            assert(next[s] == stars[s]);
            assert(within_line_reach(star_dist_sq(next[i], next[s])));
        } else {
            assert(next[i] == stars[i]);
            assert(has_near_neighbour(stars, i));
            let j = choose|j: int|
                #![trigger star_dist_sq(stars[i], stars[j])]
                0 <= j < stars.len() && j != i && within_line_reach(
                    star_dist_sq(stars[i], stars[j]),
                );
            assert(next[j] == stars[j]);
            assert(within_line_reach(star_dist_sq(next[i], next[j])));
        }
    }
}

/// What holds of a sky while it is generated: the grid sorts its stars, the
/// stars keep the spacing rules and are each within reach of another, all are
/// bright, and its links are bright and join placed stars.
#[verifier::opaque]
spec fn sky_in_progress(stars: Seq<Star>, links: Seq<Link>, index: SpatialIndex) -> bool {
    &&& index.indexes(stars)
    &&& 1 <= stars.len() <= MAX_STARS
    &&& field_spaced(stars)
    &&& field_linkable(stars)
    &&& forall|s: int| #![trigger stars[s]] 0 <= s < stars.len() ==> stars[s].bright
    &&& links_within(links, stars.len() as int)
    &&& forall|i: int| #![trigger links[i]] 0 <= i < links.len() ==> links[i].style == LinkStyle::Bright
}

/// Places a bright star at `(x, y)`, a position that keeps the spacing rules
/// with every star and has one within reach of a line, then perhaps links it
/// in advance to its nearest neighbour.
fn place_star(
    stars: &mut Vec<Star>,
    links: &mut Vec<Link>,
    index: &mut SpatialIndex,
    rng: &mut u32,
    x: i16,
    y: i16,
)
    requires
        sky_in_progress(old(stars)@, old(links)@, *old(index)),
        old(stars)@.len() < MAX_STARS,
        in_world(x as int, y as int),
        forall|s: int|
            #![trigger old(stars)@[s]]
            0 <= s < old(stars)@.len() ==> spaced(
                dist_sq(x as int, y as int, old(stars)@[s].x as int, old(stars)@[s].y as int),
            ),
        exists|s: int|
            0 <= s < old(stars)@.len() && within_line_reach(
                dist_sq(x as int, y as int, old(stars)@[s].x as int, old(stars)@[s].y as int),
            ),
    ensures
        sky_in_progress(final(stars)@, final(links)@, *final(index)),
        final(stars)@[0] == old(stars)@[0],
        state_of(final(stars)@, final(links)@, *final(index), *final(rng)) == placed(
            state_of(old(stars)@, old(links)@, *old(index), *old(rng)),
            x as int,
            y as int,
        ),
{
    let star: Star = Star::new(x, y, true);
    proof {
        reveal(sky_in_progress);
        lemma_place_star(stars@, star);
        reveal(placed);
        reveal(with_star);
    }
    let ghost before = stars@;
    let ghost st = state_of(old(stars)@, old(links)@, *old(index), *old(rng));
    let placed_idx: usize = add_star(stars, index, star);
    assert(stars@[0] == before[0]);
    assert forall|s: int| #![trigger stars@[s]] 0 <= s < stars@.len() implies stars@[s].bright by {
        if s < before.len() {
            assert(stars@[s] == before[s]);
        }
    }
    let ghost added = with_star(st, Star { x: x as int as i16, y: y as int as i16, bright: true });
    assert(state_of(stars@, links@, *index, *rng) == added);
    let ghost links_before = links@;
    handle_preset_line(index, stars, links, placed_idx, rng);
    assert forall|i: int| #![trigger links@[i]] 0 <= i < links@.len() implies links@[i].style
        == LinkStyle::Bright by {
        if i < links_before.len() && links@ != links_before {
            assert(links@[i] == links@.drop_last()[i]);
        }
    }
}

/// A candidate outside the world, or out of passes, changes nothing.
proof fn lemma_adjusted_stops(st: GenState, x: int, y: int, pass: int)
    requires
        pass >= MAX_ADJUSTMENTS_PER_STAR || !in_world(x, y),
    ensures
        adjusted(st, x, y, pass) == st,
{
    reveal(adjusted);
}

/// A candidate with a correction moves by it and by a jitter of two draws.
proof fn lemma_adjusted_moves(st: GenState, x: int, y: int, pass: int, dx: i16, dy: i16)
    requires
        0 <= pass < MAX_ADJUSTMENTS_PER_STAR,
        in_world(x, y),
        conflict_at(st.stars, st.cells, x, y) == Some((dx, dy)),
    ensures
        adjusted(st, x, y, pass) == adjusted(
            GenState { rng: lcg_step(lcg_step(lcg_step(lcg_step(st.rng)))), ..st },
            x + dx + jitter(random_output(st.rng)),
            y + dy + jitter(random_output(lcg_step(lcg_step(st.rng)))),
            pass + 1,
        ),
{
    reveal(adjusted);
}

/// A candidate without a correction is placed while the sky has room.
proof fn lemma_adjusted_places(st: GenState, x: int, y: int, pass: int)
    requires
        0 <= pass < MAX_ADJUSTMENTS_PER_STAR,
        in_world(x, y),
        conflict_at(st.stars, st.cells, x, y) is None,
    ensures
        adjusted(st, x, y, pass) == if st.stars.len() >= MAX_STARS {
            st
        } else {
            placed(st, x, y)
        },
{
    reveal(adjusted);
}

/// One correction pass on the candidate at `(x, y)`, pass `pass` of the
/// candidate: `None` once the candidate has left the world or a star has
/// been placed there, else the candidate moved by its correction and a jitter.
fn correction_pass(
    stars: &mut Vec<Star>,
    links: &mut Vec<Link>,
    index: &mut SpatialIndex,
    rng: &mut u32,
    x: i16,
    y: i16,
    pass: usize,
) -> (r: Option<(i16, i16)>)
    requires
        sky_in_progress(old(stars)@, old(links)@, *old(index)),
        -40 <= x <= 680,
        -40 <= y <= 680,
        pass < MAX_ADJUSTMENTS_PER_STAR,
    ensures
        sky_in_progress(final(stars)@, final(links)@, *final(index)),
        final(stars)@[0] == old(stars)@[0],
        match r {
            None => state_of(final(stars)@, final(links)@, *final(index), *final(rng)) == adjusted(
                state_of(old(stars)@, old(links)@, *old(index), *old(rng)),
                x as int,
                y as int,
                pass as int,
            ),
            Some((nx, ny)) => {
                &&& -40 <= nx <= 680
                &&& -40 <= ny <= 680
                &&& adjusted(
                    state_of(final(stars)@, final(links)@, *final(index), *final(rng)),
                    nx as int,
                    ny as int,
                    pass + 1,
                ) == adjusted(
                    state_of(old(stars)@, old(links)@, *old(index), *old(rng)),
                    x as int,
                    y as int,
                    pass as int,
                )
            },
        },
{
    let ghost before = state_of(stars@, links@, *index, *rng);
    proof {
        lemma_in_progress(stars@, links@, *index);
    }
    if !is_in_bounds(x, y) {
        proof {
            lemma_adjusted_stops(before, x as int, y as int, pass as int);
        }
        return None;
    }
    match check_distances(index, stars, x, y) {
        Some((dx, dy)) => {
            proof {
                lemma_adjusted_moves(before, x as int, y as int, pass as int, dx, dy);
            }
            let draw_x: u32 = next_random(rng);
            let draw_y: u32 = next_random(rng);
            let nx: i16 = x + dx + ((draw_x % 8) as i16 - 3);
            let ny: i16 = y + dy + ((draw_y % 8) as i16 - 3);
            assert(state_of(stars@, links@, *index, *rng) == GenState {
                rng: lcg_step(lcg_step(lcg_step(lcg_step(before.rng)))),
                ..before
            });
            Some((nx, ny))
        },
        None => {
            proof {
                lemma_adjusted_places(before, x as int, y as int, pass as int);
            }
            if stars.len() < MAX_STARS {
                place_star(stars, links, index, rng, x, y);
            }
            None
        },
    }
}

/// Puts the candidate at `(x, y)` through its correction passes: it is
/// dropped once it leaves the world or the passes run out, moved by its
/// correction and a jitter of two draws while it has one, and placed once it
/// has none.
fn adjust_candidate(
    stars: &mut Vec<Star>,
    links: &mut Vec<Link>,
    index: &mut SpatialIndex,
    rng: &mut u32,
    x: i16,
    y: i16,
)
    requires
        sky_in_progress(old(stars)@, old(links)@, *old(index)),
        0 <= x < 640,
        0 <= y < 640,
    ensures
        sky_in_progress(final(stars)@, final(links)@, *final(index)),
        final(stars)@[0] == old(stars)@[0],
        state_of(final(stars)@, final(links)@, *final(index), *final(rng)) == adjusted(
            state_of(old(stars)@, old(links)@, *old(index), *old(rng)),
            x as int,
            y as int,
            0,
        ),
{
    let ghost target = adjusted(
        state_of(old(stars)@, old(links)@, *old(index), *old(rng)),
        x as int,
        y as int,
        0,
    );
    let ghost first = stars@[0];
    let mut x: i16 = x;
    let mut y: i16 = y;
    let mut pass: usize = 0;
    while pass < MAX_ADJUSTMENTS_PER_STAR
        invariant_except_break
            pass < MAX_ADJUSTMENTS_PER_STAR,
            adjusted(state_of(stars@, links@, *index, *rng), x as int, y as int, pass as int)
                == target,
        invariant
            sky_in_progress(stars@, links@, *index),
            stars@[0] == first,
            -40 <= x <= 680,
            -40 <= y <= 680,
        ensures
            sky_in_progress(stars@, links@, *index),
            stars@[0] == first,
            state_of(stars@, links@, *index, *rng) == target,
        decreases MAX_ADJUSTMENTS_PER_STAR - pass,
    {
        let ghost before = state_of(stars@, links@, *index, *rng);
        let step = correction_pass(stars, links, index, rng, x, y, pass);
        assert(step is None ==> state_of(stars@, links@, *index, *rng) == adjusted(
            before,
            x as int,
            y as int,
            pass as int,
        ));
        match step {
            Some((nx, ny)) => {
                x = nx;
                y = ny;
                pass = pass + 1;
                if pass >= MAX_ADJUSTMENTS_PER_STAR {
                    proof {
                        lemma_adjusted_stops(
                            state_of(stars@, links@, *index, *rng),
                            x as int,
                            y as int,
                            pass as int,
                        );
                    }
                    break ;
                }
            },
            None => {
                break ;
            },
        }
    }
}

/// While stars and attempts remain, the run goes on from the next attempt.
proof fn lemma_run_step(st: GenState, attempts: int)
    requires
        0 <= attempts < MAX_PLACEMENT_ATTEMPTS,
        st.stars.len() < MAX_STARS,
    ensures
        run_from(st, attempts) == run_from(attempt(st), attempts + 1),
{
    reveal(run_from);
}

/// A run with no attempts or room for stars left ends where it is.
proof fn lemma_run_stop(st: GenState, attempts: int)
    requires
        attempts >= MAX_PLACEMENT_ATTEMPTS || st.stars.len() >= MAX_STARS,
    ensures
        run_from(st, attempts) == st,
{
    reveal(run_from);
}

/// An attempt is the correction passes of the candidate its three draws pick.
proof fn lemma_attempt(st: GenState, pick: int, x: int, y: int)
    requires
        st.filled.len() > 0,
        pick == (random_output(st.rng) as int) % (st.filled.len() as int),
        x == (st.filled[pick] as int % 10) * 64 + random_output(lcg_step(lcg_step(st.rng))) as int
            % 64,
        y == (st.filled[pick] as int / 10) * 64 + random_output(
            lcg_step(lcg_step(lcg_step(lcg_step(st.rng)))),
        ) as int % 64,
    ensures
        attempt(st) == adjusted(
            GenState {
                rng: lcg_step(lcg_step(lcg_step(lcg_step(lcg_step(lcg_step(st.rng)))))),
                ..st
            },
            x,
            y,
            0,
        ),
{
    reveal(attempt);
}

/// What the grid and the count of stars of a sky in progress give.
proof fn lemma_in_progress(stars: Seq<Star>, links: Seq<Link>, index: SpatialIndex)
    requires
        sky_in_progress(stars, links, index),
    ensures
        index.indexes(stars),
        1 <= stars.len() <= MAX_STARS,
{
    reveal(sky_in_progress);
}

/// Generates the sky of `seed`: a first star in the centre section, then
/// stars placed one by one in randomly chosen occupied sections and moved
/// until they keep the spacing rules, each perhaps linked in advance to its
/// nearest neighbour. Every random choice is drawn from `seed`, so the sky is
/// `generated(seed)`.
pub fn generate_sky(seed: u32) -> (r: Sky)
    ensures
        1 <= r.stars@.len() <= MAX_STARS,
        r.stars@[0] == first_star(seed),
        field_spaced(r.stars@),
        field_linkable(r.stars@),
        forall|s: int|
            #![trigger r.stars@[s]]
            0 <= s < r.stars@.len() ==> r.stars@[s].bright && in_world(
                r.stars@[s].x as int,
                r.stars@[s].y as int,
            ),
        links_within(r.links@, r.stars@.len() as int),
        forall|i: int|
            #![trigger r.links@[i]]
            0 <= i < r.links@.len() ==> r.links@[i].style == LinkStyle::Bright,
        r.stars@ == generated(seed).stars,
        r.links@ == generated(seed).links,
{
    let mut rng: u32 = seed;
    let mut index: SpatialIndex = SpatialIndex::new();
    let mut stars: Vec<Star> = Vec::new();
    let mut links: Vec<Link> = Vec::new();

    let first_x: i16 = (SKY_WIDTH_SECTIONS / 2 * SECTION_WIDTH) as i16 + (next_random(&mut rng)
        % SECTION_WIDTH as u32) as i16;
    let first_y: i16 = (SKY_HEIGHT_SECTIONS / 2 * SECTION_HEIGHT) as i16 + (next_random(&mut rng)
        % SECTION_HEIGHT as u32) as i16;
    add_star(&mut stars, &mut index, Star::new(first_x, first_y, true));
    let ghost first = stars@[0];
    assert(first == first_star(seed));
    proof {
        reveal(with_star);
    }
    assert(state_of(stars@, links@, index, rng) == with_star(
        GenState {
            stars: Seq::empty(),
            links: Seq::empty(),
            cells: Seq::new(100, |c: int| Seq::<usize>::empty()),
            filled: Seq::empty(),
            rng: lcg_step(lcg_step(lcg_step(lcg_step(seed)))),
        },
        first_star(seed),
    ));

    proof {
        reveal(sky_in_progress);
    }
    let mut attempts: usize = 0;
    while stars.len() < MAX_STARS && attempts < MAX_PLACEMENT_ATTEMPTS
        invariant
            sky_in_progress(stars@, links@, index),
            stars@[0] == first,
            attempts <= MAX_PLACEMENT_ATTEMPTS,
            run_from(state_of(stars@, links@, index, rng), attempts as int) == generated(seed),
        decreases MAX_PLACEMENT_ATTEMPTS - attempts,
    {
        let ghost st = state_of(stars@, links@, index, rng);
        proof {
            lemma_in_progress(stars@, links@, index);
            lemma_run_step(st, attempts as int);
        }
        let pick: usize = next_random(&mut rng) as usize % index.filled.len();
        let section: usize = index.filled[pick];
        let section_x: usize = section % SKY_WIDTH_SECTIONS;
        let section_y: usize = section / SKY_WIDTH_SECTIONS;
        let x: i16 = (section_x * SECTION_WIDTH) as i16 + (next_random(&mut rng) as usize
            % SECTION_WIDTH) as i16;
        let y: i16 = (section_y * SECTION_HEIGHT) as i16 + (next_random(&mut rng) as usize
            % SECTION_HEIGHT) as i16;
        proof {
            lemma_attempt(st, pick as int, x as int, y as int);
        }
        adjust_candidate(&mut stars, &mut links, &mut index, &mut rng, x, y);
        attempts = attempts + 1;
    }
    proof {
        reveal(sky_in_progress);
        lemma_run_stop(state_of(stars@, links@, index, rng), attempts as int);
    }
    Sky::new(stars, links)
}

} // verus!

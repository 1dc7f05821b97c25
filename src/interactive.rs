//! The per-tick state machine that turns pointer input into links, and the
//! completion of constellations that links close.
use vstd::prelude::*;

use crate::constellation::{
    adjacent, connected, constellation, joins, lemma_connected_step, lemma_constellation_size,
    links_within, reachable,
};
use crate::generate::{
    field_linkable, field_spaced, generate_sky, has_near_neighbour, star_dist_sq, within_line_reach,
    STAR_DIST_MAX_FOR_LINE,
};
use crate::geometry::{dist_sq, floor_sqrt, isqrt, lemma_floor_sqrt};
use crate::sky::Sky;
use crate::spatial::in_world;
use crate::star::{DraftLine, Link, LinkStyle, Star};

verus! {

broadcast use vstd::seq_lib::group_seq_properties;

/// A constellation of at least this many stars is completed when a link closes it.
pub const CONSTELLATION_THRESHOLD: usize = 4;

/// The light a new sky starts with.
pub const INITIAL_LIGHT: u32 = 8;

/// A star lies under the pointer when the pointer is less than this far from
/// it on both axes.
pub const HIT_RADIUS: i32 = 4;

/// The marker shown over the bright star under the pointer.
#[derive(Clone, Copy, Debug, PartialEq, Eq, Structural)]
pub struct Cursor {
    pub x: i16,
    pub y: i16,
    pub visible: bool,
}

impl Cursor {
    /// A hidden cursor.
    pub fn new() -> (r: Cursor)
        ensures
            r == (Cursor { x: 0, y: 0, visible: false }),
    {
        Cursor { x: 0, y: 0, visible: false }
    }
}

/// What one tick reads from outside: the pointer in screen coordinates, the
/// primary button, and the world position of the top-left corner of the view.
#[derive(Clone, Copy, Debug, PartialEq, Eq, Structural)]
pub struct TickInput {
    pub mouse_x: i16,
    pub mouse_y: i16,
    pub mouse_down: bool,
    pub focus_x: i32,
    pub focus_y: i32,
}

/// The pointer of a tick in world coordinates.
pub open spec fn pointer_x(input: TickInput) -> int {
    input.mouse_x + input.focus_x
}

/// The pointer of a tick in world coordinates.
pub open spec fn pointer_y(input: TickInput) -> int {
    input.mouse_y + input.focus_y
}

/// The pointer of the tick has world coordinates that fit an `i16`.
pub open spec fn pointer_fits(input: TickInput) -> bool {
    i16::MIN <= pointer_x(input) <= i16::MAX && i16::MIN <= pointer_y(input) <= i16::MAX
}

/// The star is bright and lies under the point.
pub open spec fn hits(s: Star, x: int, y: int) -> bool {
    s.bright && -HIT_RADIUS < s.x - x < HIT_RADIUS && -HIT_RADIUS < s.y - y < HIT_RADIUS
}

/// The first star from index `i` on that lies bright under the point.
pub open spec fn hit_from(stars: Seq<Star>, x: int, y: int, i: int) -> Option<int>
    decreases stars.len() - i,
{
    if i < 0 || i >= stars.len() {
        None
    } else if hits(stars[i], x, y) {
        Some(i)
    } else {
        hit_from(stars, x, y, i + 1)
    }
}

/// The first star that lies bright under the point.
pub open spec fn hit_star(stars: Seq<Star>, x: int, y: int) -> Option<int> {
    hit_from(stars, x, y, 0)
}

/// One coordinate of an offset of squared length `sq` scaled to the reach of
/// a line: `d * 35 / sqrt(sq)`, rounded toward zero.
pub open spec fn clamp_coord(d: int, sq: int) -> int {
    let m = floor_sqrt(d * d * (STAR_DIST_MAX_FOR_LINE * STAR_DIST_MAX_FOR_LINE) / sq);
    if d >= 0 {
        m
    } else {
        -m
    }
}

/// The offset `(dx, dy)` shortened to the reach of a line: unchanged when it
/// is no longer than `STAR_DIST_MAX_FOR_LINE`, else scaled down to that length.
pub open spec fn clamp_offset(dx: int, dy: int) -> (int, int) {
    let sq = dx * dx + dy * dy;
    if sq <= STAR_DIST_MAX_FOR_LINE * STAR_DIST_MAX_FOR_LINE {
        (dx, dy)
    } else {
        (clamp_coord(dx, sq), clamp_coord(dy, sq))
    }
}

/// Saturating subtraction.
pub open spec fn sat_sub(a: u32, b: u32) -> u32 {
    if a >= b {
        (a - b) as u32
    } else {
        0
    }
}

/// Saturating addition.
pub open spec fn sat_add(a: u32, b: int) -> u32 {
    if a + b > u32::MAX {
        u32::MAX
    } else {
        (a + b) as u32
    }
}

/// One of the first `k` links is bright and has star `i` at one end.
pub open spec fn lit_by(links: Seq<Link>, k: int, i: int) -> bool {
    exists|j: int|
        #![trigger links[j]]
        0 <= j < k && j < links.len() && links[j].style == LinkStyle::Bright && (
        links[j].start_idx == i || links[j].end_idx == i)
}

/// Some bright link has star `i` at one end.
pub open spec fn has_bright_link(links: Seq<Link>, i: int) -> bool {
    lit_by(links, links.len() as int, i)
}

/// The links after the constellation of star `e` is completed: each link
/// whose two ends lie in it is dim.
pub open spec fn completed_links(links: Seq<Link>, e: int) -> Seq<Link> {
    links.map_values(
        |l: Link|
            if connected(links, e, l.start_idx as int) && connected(links, e, l.end_idx as int) {
                Link { style: LinkStyle::Dim, ..l }
            } else {
                l
            },
    )
}

/// The stars after the constellation of star `e` is completed: its stars are
/// dim, and so is every other star left without a bright link.
pub open spec fn completed_stars(stars: Seq<Star>, links: Seq<Link>, e: int) -> Seq<Star> {
    stars.map(
        |i: int, s: Star|
            Star {
                bright: s.bright && !connected(links, e, i) && has_bright_link(
                    completed_links(links, e),
                    i,
                ),
                ..s
            },
    )
}

/// The stars, links and light after a bright link from `a` to `e` is
/// committed: the link is added and costs one light; when the constellation of
/// `e` then holds at least `CONSTELLATION_THRESHOLD` stars it is completed and
/// gives back one light per star beyond that threshold.
pub open spec fn commit(stars: Seq<Star>, links: Seq<Link>, light: u32, a: int, e: int) -> (
    Seq<Star>,
    Seq<Link>,
    u32,
) {
    let linked = links.push(Link { start_idx: a as u16, end_idx: e as u16, style: LinkStyle::Bright });
    let spent = sat_sub(light, 1);
    let size = constellation(linked, stars.len() as int, e).len();
    if size >= CONSTELLATION_THRESHOLD {
        (
            completed_stars(stars, linked, e),
            completed_links(linked, e),
            sat_add(spent, size - CONSTELLATION_THRESHOLD),
        )
    } else {
        (stars, linked, spent)
    }
}

/// What an interactive sky is, as the rules see it.
pub struct SkyState {
    pub stars: Seq<Star>,
    pub links: Seq<Link>,
    pub light: u32,
    pub draft: DraftLine,
    pub cursor: Cursor,
    pub prev_mouse_down: bool,
}

/// The draft line after its end is moved to the pointer and held within
/// reach of a line from its anchor; a hidden draft line stays as it is.
pub open spec fn dragged(s: SkyState, px: int, py: int) -> DraftLine {
    if s.draft.visible {
        let a = s.stars[s.draft.start_idx as int];
        let off = clamp_offset(px - a.x, py - a.y);
        DraftLine { end_x: (a.x + off.0) as i16, end_y: (a.y + off.1) as i16, ..s.draft }
    } else {
        s.draft
    }
}

/// Where the pointer acts: the end of the draft line while one is shown, else the pointer.
pub open spec fn effective_x(d: DraftLine, px: int) -> int {
    if d.visible {
        d.end_x as int
    } else {
        px
    }
}

/// Where the pointer acts: the end of the draft line while one is shown, else the pointer.
pub open spec fn effective_y(d: DraftLine, py: int) -> int {
    if d.visible {
        d.end_y as int
    } else {
        py
    }
}

/// The star under the point where the pointer acts in this tick.
pub open spec fn hovered(s: SkyState, input: TickInput) -> Option<int> {
    let d = dragged(s, pointer_x(input), pointer_y(input));
    hit_star(s.stars, effective_x(d, pointer_x(input)), effective_y(d, pointer_y(input)))
}

/// The tick releases the button over a bright star other than the anchor of
/// the shown draft line, and so commits a link.
pub open spec fn commits(s: SkyState, input: TickInput) -> bool {
    let d = dragged(s, pointer_x(input), pointer_y(input));
    &&& s.prev_mouse_down
    &&& !input.mouse_down
    &&& d.visible
    &&& hovered(s, input) matches Some(e)
    &&& e != d.start_idx
}

/// The cursor over the bright star under the point where the pointer acts, if any.
pub open spec fn cursor_at(stars: Seq<Star>, d: DraftLine, px: int, py: int) -> Cursor {
    match hit_star(stars, effective_x(d, px), effective_y(d, py)) {
        Some(i) => Cursor { x: stars[i].x, y: stars[i].y, visible: true },
        None => Cursor { x: 0, y: 0, visible: false },
    }
}

/// The draft line after the button part of a tick: a press over a bright star
/// anchors a new draft line there; while the button is held the end snaps onto
/// a bright star other than the anchor under it; a released button hides the line.
pub open spec fn draft_after(s: SkyState, input: TickInput, stars: Seq<Star>) -> DraftLine {
    let px = pointer_x(input);
    let py = pointer_y(input);
    let d1 = dragged(s, px, py);
    let ex = effective_x(d1, px);
    let ey = effective_y(d1, py);
    let hover = hovered(s, input);
    let d2 = if !s.prev_mouse_down && input.mouse_down && hover is Some {
        DraftLine {
            start_idx: hover->Some_0 as u16,
            end_x: ex as i16,
            end_y: ey as i16,
            visible: true,
        }
    } else {
        d1
    };
    if input.mouse_down {
        match hover {
            Some(i) => if d2.visible && i != d2.start_idx {
                DraftLine { end_x: stars[i].x, end_y: stars[i].y, ..d2 }
            } else {
                d2
            },
            None => d2,
        }
    } else {
        DraftLine { visible: false, ..d2 }
    }
}

/// The interactive sky after one tick with the given input.
pub open spec fn tick(s: SkyState, input: TickInput) -> SkyState {
    let d1 = dragged(s, pointer_x(input), pointer_y(input));
    let after = if commits(s, input) {
        commit(s.stars, s.links, s.light, d1.start_idx as int, hovered(s, input)->Some_0)
    } else {
        (s.stars, s.links, s.light)
    };
    let draft = draft_after(s, input, after.0);
    SkyState {
        stars: after.0,
        links: after.1,
        light: after.2,
        draft,
        cursor: cursor_at(after.0, draft, pointer_x(input), pointer_y(input)),
        prev_mouse_down: input.mouse_down,
    }
}

/// Scales the offset `(dx, dy)` down to the reach of a line when it is longer.
pub fn clamp_to_line_reach(dx: i32, dy: i32) -> (r: (i32, i32))
    requires
        -0x1_0000 < dx < 0x1_0000,
        -0x1_0000 < dy < 0x1_0000,
    ensures
        (r.0 as int, r.1 as int) == clamp_offset(dx as int, dy as int),
        dx * dx + dy * dy <= STAR_DIST_MAX_FOR_LINE * STAR_DIST_MAX_FOR_LINE || (
        -STAR_DIST_MAX_FOR_LINE <= r.0 <= STAR_DIST_MAX_FOR_LINE && -STAR_DIST_MAX_FOR_LINE <= r.1
            <= STAR_DIST_MAX_FOR_LINE),
{
    let reach: u64 = (STAR_DIST_MAX_FOR_LINE * STAR_DIST_MAX_FOR_LINE) as u64;
    let ax: u64 = if dx >= 0 { dx as u64 } else { (-dx) as u64 };
    let ay: u64 = if dy >= 0 { dy as u64 } else { (-dy) as u64 };
    assert(ax * ax == dx * dx && ay * ay == dy * dy) by (nonlinear_arith)
        requires
            ax as int == dx as int || ax as int == -(dx as int),
            ay as int == dy as int || ay as int == -(dy as int),
    ;
    assert(ax * ax <= 0x1_0000_0000 && ay * ay <= 0x1_0000_0000) by (nonlinear_arith)
        requires
            ax <= 0x1_0000,
            ay <= 0x1_0000,
    ;
    let sq: u64 = ax * ax + ay * ay;
    if sq <= reach {
        return (dx, dy);
    }
    assert(ax * ax * reach <= 0x1_0000_0000 * 1225 && ay * ay * reach <= 0x1_0000_0000 * 1225)
        by (nonlinear_arith)
        requires
            ax * ax <= 0x1_0000_0000,
            ay * ay <= 0x1_0000_0000,
            reach == 1225,
    ;
    let qx: u64 = ax * ax * reach / sq;
    let qy: u64 = ay * ay * reach / sq;
    let mx: u64 = isqrt(qx);
    let my: u64 = isqrt(qy);
    proof {
        assert(qx <= 1225 && qy <= 1225) by (nonlinear_arith)
            requires
                ax * ax <= sq,
                ay * ay <= sq,
                0 < sq,
                reach == 1225,
                qx as int == (ax * ax * reach) as int / sq as int,
                qy as int == (ay * ay * reach) as int / sq as int,
        ;
        assert(mx <= 35 && my <= 35) by (nonlinear_arith)
            requires
                mx * mx <= qx,
                my * my <= qy,
                qx <= 1225,
                qy <= 1225,
        ;
    }
    let rx: i32 = if dx >= 0 { mx as i32 } else { -(mx as i32) };
    let ry: i32 = if dy >= 0 { my as i32 } else { -(my as i32) };
    (rx, ry)
}

/// What an interactive sky keeps true: stars can be named by `u16`, lie in
/// the world, and links and the anchor of a shown draft line name stars of it.
pub open spec fn sky_wf(s: SkyState) -> bool {
    &&& s.stars.len() <= 0x1_0000
    &&& links_within(s.links, s.stars.len() as int)
    &&& forall|i: int|
        #![trigger s.stars[i]]
        0 <= i < s.stars.len() ==> in_world(s.stars[i].x as int, s.stars[i].y as int)
    &&& s.draft.visible ==> (s.draft.start_idx as int) < s.stars.len()
}

/// A sky the player links stars in, with its draft line, cursor and light.
///
/// The size of a constellation is the number of its stars, each counted
/// once, however many links reach it. Light never goes below zero: a link
/// committed with no light left is still made and costs nothing.
pub struct InteractiveSky {
    pub sky: Sky,
    pub prev_mouse_down: bool,
    pub draft_line: DraftLine,
    pub cursor: Cursor,
    pub light: u32,
}

impl View for InteractiveSky {
    type V = SkyState;

    open spec fn view(&self) -> SkyState {
        SkyState {
            stars: self.sky.stars@,
            links: self.sky.links@,
            light: self.light,
            draft: self.draft_line,
            cursor: self.cursor,
            prev_mouse_down: self.prev_mouse_down,
        }
    }
}

impl InteractiveSky {
    pub open spec fn wf(&self) -> bool {
        sky_wf(self@)
    }

    /// A sky with the given stars, links and light, no draft line, and the button up.
    pub fn from_sky(sky: Sky, light: u32) -> (r: InteractiveSky)
        requires
            sky.stars@.len() <= 0x1_0000,
            links_within(sky.links@, sky.stars@.len() as int),
            forall|i: int|
                #![trigger sky.stars@[i]]
                0 <= i < sky.stars@.len() ==> in_world(
                    sky.stars@[i].x as int,
                    sky.stars@[i].y as int,
                ),
        ensures
            r.wf(),
            r@ == (SkyState {
                stars: sky.stars@,
                links: sky.links@,
                light,
                draft: DraftLine { start_idx: 0, end_x: 0, end_y: 0, visible: false },
                cursor: Cursor { x: 0, y: 0, visible: false },
                prev_mouse_down: false,
            }),
    {
        InteractiveSky {
            sky,
            prev_mouse_down: false,
            draft_line: DraftLine::new(),
            cursor: Cursor::new(),
            light,
        }
    }

    /// The sky generated from `seed`, with `INITIAL_LIGHT` light.
    pub fn new(seed: u32) -> (r: InteractiveSky)
        ensures
            r.wf(),
            r.sky.stars@.len() >= 1,
            r.sky.stars@[0] == crate::generate::first_star(seed),
            r.sky.stars@ == crate::generate::generated(seed).stars,
            r.sky.links@ == crate::generate::generated(seed).links,
            field_spaced(r.sky.stars@),
            field_linkable(r.sky.stars@),
            r.light == INITIAL_LIGHT,
            !r.draft_line.visible,
            !r.cursor.visible,
            !r.prev_mouse_down,
    {
        let sky: Sky = generate_sky(seed);
        InteractiveSky::from_sky(sky, INITIAL_LIGHT)
    }

    /// The first star that lies bright under the point, if any.
    pub fn get_bright_star_idx_at(&self, x: i16, y: i16) -> (r: Option<usize>)
        ensures
            match r {
                Some(i) => hit_star(self.sky.stars@, x as int, y as int) == Some(i as int),
                None => hit_star(self.sky.stars@, x as int, y as int) is None,
            },
            r matches Some(i) ==> i < self.sky.stars@.len(),
    {
        let mut i: usize = 0;
        while i < self.sky.stars.len()
            invariant
                i <= self.sky.stars@.len(),
                hit_star(self.sky.stars@, x as int, y as int) == hit_from(
                    self.sky.stars@,
                    x as int,
                    y as int,
                    i as int,
                ),
            decreases self.sky.stars@.len() - i,
        {
            let star: Star = self.sky.stars[i];
            let dx: i32 = star.x as i32 - x as i32;
            let dy: i32 = star.y as i32 - y as i32;
            if star.bright && -HIT_RADIUS < dx && dx < HIT_RADIUS && -HIT_RADIUS < dy && dy
                < HIT_RADIUS {
                return Some(i);
            }
            i = i + 1;
        }
        None
    }

    /// Where the pointer acts: the end of the draft line while one is shown,
    /// else the pointer itself.
    pub fn get_effective_mouse_pos(&self, pointer_x: i16, pointer_y: i16) -> (r: (i16, i16))
        ensures
            r.0 == effective_x(self.draft_line, pointer_x as int),
            r.1 == effective_y(self.draft_line, pointer_y as int),
    {
        if self.draft_line.visible {
            (self.draft_line.end_x, self.draft_line.end_y)
        } else {
            (pointer_x, pointer_y)
        }
    }

    /// Holds the end of the shown draft line within reach of a line from its anchor.
    fn draft_line_limit_len(&mut self)
        requires
            old(self).wf(),
            old(self).draft_line.visible,
        ensures
            final(self).wf(),
            final(self)@ == (SkyState {
                draft: dragged(
                    old(self)@,
                    old(self).draft_line.end_x as int,
                    old(self).draft_line.end_y as int,
                ),
                ..old(self)@
            }),
    {
        let anchor: Star = self.sky.stars[self.draft_line.start_idx as usize];
        assert(in_world(anchor.x as int, anchor.y as int)) by {
            assert(self.sky.stars@[self.draft_line.start_idx as int] == anchor);
        }
        let dx: i32 = self.draft_line.end_x as i32 - anchor.x as i32;
        let dy: i32 = self.draft_line.end_y as i32 - anchor.y as i32;
        let (rx, ry) = clamp_to_line_reach(dx, dy);
        self.draft_line.end_x = (anchor.x as i32 + rx) as i16;
        self.draft_line.end_y = (anchor.y as i32 + ry) as i16;
    }

    /// Dims every bright star that no bright link has at one end.
    fn dim_lonely_stars(&mut self)
        requires
            old(self).wf(),
        ensures
            final(self).wf(),
            final(self)@ == (SkyState {
                stars: old(self)@.stars.map(
                    |i: int, s: Star|
                        Star { bright: s.bright && has_bright_link(old(self)@.links, i), ..s },
                ),
                ..old(self)@
            }),
    {
        let n: usize = self.sky.stars.len();
        let mut lit: Vec<bool> = vec![false; n];
        let mut k: usize = 0;
        while k < self.sky.links.len()
            invariant
                self.wf(),
                n == self.sky.stars@.len(),
                lit@.len() == n,
                k <= self.sky.links@.len(),
                forall|v: int|
                    #![trigger lit@[v]]
                    0 <= v < n ==> (lit@[v] <==> lit_by(self.sky.links@, k as int, v)),
            decreases self.sky.links@.len() - k,
        {
            let l: Link = self.sky.links[k];
            assert(self.sky.links@[k as int] == l);
            if l.style == LinkStyle::Bright {
                lit[l.start_idx as usize] = true;
                lit[l.end_idx as usize] = true;
            }
            assert forall|v: int|
                #![trigger lit@[v]]
                0 <= v < n implies (lit@[v] <==> lit_by(self.sky.links@, k + 1, v)) by {
                if lit_by(self.sky.links@, k + 1, v) && !lit_by(self.sky.links@, k as int, v) {
                    let j = choose|j: int|
                        #![trigger self.sky.links@[j]]
                        0 <= j < k + 1 && j < self.sky.links@.len() && self.sky.links@[j].style
                            == LinkStyle::Bright && (self.sky.links@[j].start_idx == v
                            || self.sky.links@[j].end_idx == v);
                    assert(j == k);
                }
            }
            k = k + 1;
        }
        let ghost before = self.sky.stars@;
        let mut i: usize = 0;
        while i < n
            invariant
                n == self.sky.stars@.len(),
                n == before.len(),
                before == old(self).sky.stars@,
                self.sky.links@ == old(self).sky.links@,
                self.light == old(self).light,
                self.draft_line == old(self).draft_line,
                self.cursor == old(self).cursor,
                self.prev_mouse_down == old(self).prev_mouse_down,
                lit@.len() == n,
                i <= n,
                forall|v: int|
                    #![trigger lit@[v]]
                    0 <= v < n ==> (lit@[v] <==> has_bright_link(self.sky.links@, v)),
                forall|j: int|
                    #![trigger self.sky.stars@[j]]
                    0 <= j < i ==> self.sky.stars@[j] == (Star {
                        bright: before[j].bright && has_bright_link(self.sky.links@, j),
                        ..before[j]
                    }),
                forall|j: int|
                    #![trigger self.sky.stars@[j]]
                    i <= j < n ==> self.sky.stars@[j] == before[j],
            decreases n - i,
        {
            let s: Star = self.sky.stars[i];
            assert(lit@[i as int] <==> has_bright_link(self.sky.links@, i as int));
            if s.bright && !lit[i] {
                self.sky.stars[i] = Star { x: s.x, y: s.y, bright: false };
            }
            i = i + 1;
        }
        assert(self.sky.stars@ =~= before.map(
            |i: int, s: Star| Star { bright: s.bright && has_bright_link(self.sky.links@, i), ..s },
        ));
    }

    /// Completes the constellation of star `end_idx` when it holds at least
    /// `CONSTELLATION_THRESHOLD` stars: one light for each star beyond that,
    /// its stars and the links among them dimmed, then every star left
    /// without a bright link dimmed.
    fn complete_if_ready(&mut self, end_idx: usize)
        requires
            old(self).wf(),
            end_idx < old(self).sky.stars@.len(),
        ensures
            final(self).wf(),
            ({
                let s = old(self)@;
                let size = constellation(s.links, s.stars.len() as int, end_idx as int).len();
                final(self)@ == if size >= CONSTELLATION_THRESHOLD {
                    SkyState {
                        stars: completed_stars(s.stars, s.links, end_idx as int),
                        links: completed_links(s.links, end_idx as int),
                        light: sat_add(s.light, size - CONSTELLATION_THRESHOLD),
                        ..s
                    }
                } else {
                    s
                }
            }),
    {
        let ghost s = self@;
        let n: usize = self.sky.stars.len();
        let members: Vec<u16> = reachable(&self.sky.links, n, end_idx as u16);
        proof {
            lemma_constellation_size(s.links, n as int, end_idx as int, members@);
        }
        if members.len() < CONSTELLATION_THRESHOLD {
            return ;
        }
        self.light = self.light.saturating_add((members.len() - CONSTELLATION_THRESHOLD) as u32);
        let ghost light_after = self.light;

        let mut in_constellation: Vec<bool> = vec![false; n];
        let mut j: usize = 0;
        while j < members.len()
            invariant
                in_constellation@.len() == n,
                j <= members@.len(),
                forall|i: int| 0 <= i < members@.len() ==> (members@[i] as int) < n,
                forall|v: int|
                    #![trigger in_constellation@[v]]
                    0 <= v < n ==> (in_constellation@[v] <==> exists|t: int|
                        0 <= t < j && members@[t] as int == v),
            decreases members@.len() - j,
        {
            let m: u16 = members[j];
            in_constellation[m as usize] = true;
            assert forall|v: int|
                #![trigger in_constellation@[v]]
                0 <= v < n implies (in_constellation@[v] <==> exists|t: int|
                    0 <= t < j + 1 && members@[t] as int == v) by {
                if v == m as int {
                    assert(members@[j as int] as int == v);
                }
            }
            j = j + 1;
        }
        assert forall|v: int|
            #![trigger in_constellation@[v]]
            0 <= v < n implies (in_constellation@[v] <==> connected(s.links, end_idx as int, v)) by {
            if in_constellation@[v] {
                let t = choose|t: int| 0 <= t < members@.len() && members@[t] as int == v;
                assert(members@.contains(members@[t]));
            }
            if connected(s.links, end_idx as int, v) {
                let u = v as u16;
                assert(members@.contains(u));
                let t = choose|t: int| 0 <= t < members@.len() && members@[t] == u;
                assert(members@[t] as int == v);
            }
        }

        let mut i: usize = 0;
        while i < n
            invariant
                n == self.sky.stars@.len(),
                n == s.stars.len(),
                in_constellation@.len() == n,
                i <= n,
                self.sky.links@ == s.links,
                self.light == light_after,
                self.draft_line == s.draft,
                self.cursor == s.cursor,
                self.prev_mouse_down == s.prev_mouse_down,
                forall|v: int|
                    #![trigger in_constellation@[v]]
                    0 <= v < n ==> (in_constellation@[v] <==> connected(
                        s.links,
                        end_idx as int,
                        v,
                    )),
                forall|t: int|
                    #![trigger self.sky.stars@[t]]
                    0 <= t < i ==> self.sky.stars@[t] == (Star {
                        bright: s.stars[t].bright && !connected(s.links, end_idx as int, t),
                        ..s.stars[t]
                    }),
                forall|t: int|
                    #![trigger self.sky.stars@[t]]
                    i <= t < n ==> self.sky.stars@[t] == s.stars[t],
            decreases n - i,
        {
            let star: Star = self.sky.stars[i];
            if in_constellation[i] {
                self.sky.stars[i] = Star { x: star.x, y: star.y, bright: false };
            }
            i = i + 1;
        }

        let ghost dimmed = self.sky.stars@;
        let mut k: usize = 0;
        while k < self.sky.links.len()
            invariant
                n == self.sky.stars@.len(),
                n == s.stars.len(),
                self.sky.stars@ == dimmed,
                self.light == light_after,
                self.draft_line == s.draft,
                self.cursor == s.cursor,
                self.prev_mouse_down == s.prev_mouse_down,
                in_constellation@.len() == n,
                links_within(s.links, n as int),
                self.sky.links@.len() == s.links.len(),
                k <= s.links.len(),
                forall|v: int|
                    #![trigger in_constellation@[v]]
                    0 <= v < n ==> (in_constellation@[v] <==> connected(
                        s.links,
                        end_idx as int,
                        v,
                    )),
                forall|t: int|
                    #![trigger self.sky.links@[t]]
                    0 <= t < k ==> self.sky.links@[t] == completed_links(
                        s.links,
                        end_idx as int,
                    )[t],
                forall|t: int|
                    #![trigger self.sky.links@[t]]
                    k <= t < s.links.len() ==> self.sky.links@[t] == s.links[t],
            decreases s.links.len() - k,
        {
            let l: Link = self.sky.links[k];
            assert(s.links[k as int] == l);
            if in_constellation[l.start_idx as usize] && in_constellation[l.end_idx as usize] {
                self.sky.links[k] = Link { start_idx: l.start_idx, end_idx: l.end_idx, style: LinkStyle::Dim };
            }
            k = k + 1;
        }
        assert(self.sky.links@ =~= completed_links(s.links, end_idx as int));
        assert(dimmed =~= s.stars.map(
            |t: int, st: Star| Star { bright: st.bright && !connected(s.links, end_idx as int, t), ..st },
        ));
        assert(self.wf());
        self.dim_lonely_stars();
        assert(self.sky.stars@ =~= completed_stars(s.stars, s.links, end_idx as int));
    }

    /// Commits a bright link from star `start_idx` to star `end_idx`, pays one
    /// light for it, and completes the constellation it closes.
    fn add_link(&mut self, start_idx: usize, end_idx: usize)
        requires
            old(self).wf(),
            start_idx < old(self).sky.stars@.len(),
            end_idx < old(self).sky.stars@.len(),
        ensures
            final(self).wf(),
            ({
                let s = old(self)@;
                let after = commit(s.stars, s.links, s.light, start_idx as int, end_idx as int);
                final(self)@ == SkyState { stars: after.0, links: after.1, light: after.2, ..s }
            }),
    {
        let link: Link = Link::new(start_idx as u16, end_idx as u16, LinkStyle::Bright);
        self.sky.links.push(link);
        self.light = self.light.saturating_sub(1);
        assert(self.wf()) by {
            assert forall|i: int|
                #![trigger self.sky.links@[i]]
                0 <= i < self.sky.links@.len() implies (self.sky.links@[i].start_idx as int)
                < self.sky.stars@.len() && (self.sky.links@[i].end_idx as int)
                < self.sky.stars@.len() by {
                if i < old(self).sky.links@.len() {
                    assert(self.sky.links@[i] == old(self).sky.links@[i]);
                }
            }
        }
        self.complete_if_ready(end_idx);
    }

    /// The button part of a tick: drags the shown draft line, anchors a new
    /// one on a press over a bright star, commits a link on a release over a
    /// bright star other than the anchor, snaps the end onto a hovered star
    /// while held, and hides the line once the button is up.
    fn update_mouse_state(&mut self, input: &TickInput)
        requires
            old(self).wf(),
            pointer_fits(*input),
        ensures
            final(self).wf(),
            final(self)@ == (SkyState { cursor: old(self)@.cursor, ..tick(old(self)@, *input) }),
    {
        let ghost s0 = self@;
        let pointer_x: i16 = (input.mouse_x as i32 + input.focus_x) as i16;
        let pointer_y: i16 = (input.mouse_y as i32 + input.focus_y) as i16;
        if self.draft_line.visible {
            self.draft_line.end_x = pointer_x;
            self.draft_line.end_y = pointer_y;
            self.draft_line_limit_len();
        }
        assert(self.draft_line == dragged(s0, pointer_x as int, pointer_y as int));
        let ghost d1 = self.draft_line;
        let (effective_x, effective_y) = self.get_effective_mouse_pos(pointer_x, pointer_y);
        let hover: Option<usize> = self.get_bright_star_idx_at(effective_x, effective_y);
        assert(match hover {
            Some(i) => hovered(s0, *input) == Some(i as int),
            None => hovered(s0, *input) is None,
        });
        let down: bool = input.mouse_down;
        if !self.prev_mouse_down && down {
            if let Some(i) = hover {
                self.draft_line = DraftLine {
                    start_idx: i as u16,
                    end_x: effective_x,
                    end_y: effective_y,
                    visible: true,
                };
            }
        } else if self.prev_mouse_down && !down {
            if self.draft_line.visible {
                if let Some(e) = hover {
                    let anchor: usize = self.draft_line.start_idx as usize;
                    if anchor != e {
                        self.add_link(anchor, e);
                    }
                }
            }
        }
        assert(commits(s0, *input) ==> self.sky.stars@ == commit(
            s0.stars,
            s0.links,
            s0.light,
            d1.start_idx as int,
            hovered(s0, *input)->Some_0,
        ).0);
        if down {
            if self.draft_line.visible {
                if let Some(i) = hover {
                    if i != self.draft_line.start_idx as usize {
                        let target: Star = self.sky.stars[i];
                        self.draft_line.end_x = target.x;
                        self.draft_line.end_y = target.y;
                    }
                }
            }
        } else {
            self.draft_line.visible = false;
        }
        self.prev_mouse_down = down;
    }

    /// Shows the cursor over the bright star under the point where the
    /// pointer acts, or hides it.
    fn update_cursor(&mut self, input: &TickInput)
        requires
            old(self).wf(),
            pointer_fits(*input),
        ensures
            final(self).wf(),
            final(self)@ == (SkyState {
                cursor: cursor_at(
                    old(self)@.stars,
                    old(self)@.draft,
                    pointer_x(*input),
                    pointer_y(*input),
                ),
                ..old(self)@
            }),
    {
        let pointer_x: i16 = (input.mouse_x as i32 + input.focus_x) as i16;
        let pointer_y: i16 = (input.mouse_y as i32 + input.focus_y) as i16;
        let (effective_x, effective_y) = self.get_effective_mouse_pos(pointer_x, pointer_y);
        match self.get_bright_star_idx_at(effective_x, effective_y) {
            Some(i) => {
                let star: Star = self.sky.stars[i];
                self.cursor = Cursor { x: star.x, y: star.y, visible: true };
            },
            None => {
                self.cursor = Cursor::new();
            },
        }
    }

    /// Runs one tick of the sky on the input read at its start.
    pub fn update(&mut self, input: &TickInput)
        requires
            old(self).wf(),
            pointer_fits(*input),
        ensures
            final(self).wf(),
            final(self)@ == tick(old(self)@, *input),
    {
        self.update_mouse_state(input);
        self.update_cursor(input);
    }
}

/// One scaled coordinate `m` (taken without its sign) falls short of the
/// exact `|d| * 35 / sqrt(sq)` by less than one.
proof fn lemma_clamp_coord(d: int, sq: int)
    requires
        0 < sq,
    ensures
        ({
            let r = clamp_coord(d, sq);
            let m = if r >= 0 { r } else { -r };
            &&& 0 <= m
            &&& (d >= 0 ==> r >= 0) && (d < 0 ==> r <= 0)
            &&& m * m * sq <= d * d * 1225
            &&& d * d * 1225 < (m + 1) * (m + 1) * sq
        }),
{
    let n = d * d * 1225;
    assert(n >= 0) by (nonlinear_arith)
        requires
            n == d * d * 1225,
    ;
    let q = n / sq;
    assert(q * sq <= n < (q + 1) * sq) by (nonlinear_arith)
        requires
            q == n / sq,
            0 < sq,
            0 <= n,
    ;
    assert(q >= 0) by (nonlinear_arith)
        requires
            q == n / sq,
            0 < sq,
            0 <= n,
    ;
    lemma_floor_sqrt(q);
    let m = floor_sqrt(q);
    assert(m * m * sq <= q * sq && (q + 1) * sq <= (m + 1) * (m + 1) * sq) by (nonlinear_arith)
        requires
            0 < sq,
            m * m <= q,
            q < (m + 1) * (m + 1),
    ;
}

/// A draft line dragged farther than the reach of a line is shortened to
/// that reach: its squared length is at most `35 * 35`; each coordinate falls
/// short of the exact scaled one by less than one, so the length is more than
/// `33`.
pub proof fn lemma_draft_clamp(dx: int, dy: int)
    requires
        dx * dx + dy * dy > STAR_DIST_MAX_FOR_LINE * STAR_DIST_MAX_FOR_LINE,
    ensures
        ({
            let (rx, ry) = clamp_offset(dx, dy);
            let ax = if rx >= 0 { rx } else { -rx };
            let ay = if ry >= 0 { ry } else { -ry };
            &&& rx * rx + ry * ry <= STAR_DIST_MAX_FOR_LINE * STAR_DIST_MAX_FOR_LINE
            &&& (ax + 1) * (ax + 1) + (ay + 1) * (ay + 1) > STAR_DIST_MAX_FOR_LINE
                * STAR_DIST_MAX_FOR_LINE
            &&& rx * rx + ry * ry > 33 * 33
            &&& -STAR_DIST_MAX_FOR_LINE <= rx <= STAR_DIST_MAX_FOR_LINE
            &&& -STAR_DIST_MAX_FOR_LINE <= ry <= STAR_DIST_MAX_FOR_LINE
        }),
{
    let sq = dx * dx + dy * dy;
    lemma_clamp_coord(dx, sq);
    lemma_clamp_coord(dy, sq);
    let rx = clamp_coord(dx, sq);
    let ry = clamp_coord(dy, sq);
    let ax = if rx >= 0 { rx } else { -rx };
    let ay = if ry >= 0 { ry } else { -ry };
    assert(ax * ax == rx * rx && ay * ay == ry * ry) by (nonlinear_arith)
        requires
            ax == rx || ax == -rx,
            ay == ry || ay == -ry,
    ;
    assert(ax * ax + ay * ay <= 1225) by (nonlinear_arith)
        requires
            ax * ax * sq <= dx * dx * 1225,
            ay * ay * sq <= dy * dy * 1225,
            sq == dx * dx + dy * dy,
            sq > 0,
    ;
    assert((ax + 1) * (ax + 1) + (ay + 1) * (ay + 1) > 1225) by (nonlinear_arith)
        requires
            dx * dx * 1225 < (ax + 1) * (ax + 1) * sq,
            dy * dy * 1225 < (ay + 1) * (ay + 1) * sq,
            sq == dx * dx + dy * dy,
            sq > 0,
    ;
    assert(ax <= 35 && ay <= 35) by (nonlinear_arith)
        requires
            0 <= ax,
            0 <= ay,
            ax * ax + ay * ay <= 1225,
    ;
    assert(ax + ay <= 49) by (nonlinear_arith)
        requires
            0 <= ax,
            0 <= ay,
            ax * ax + ay * ay <= 1225,
    ;
    assert(ax * ax + ay * ay > 1089) by (nonlinear_arith)
        requires
            (ax + 1) * (ax + 1) + (ay + 1) * (ay + 1) > 1225,
            ax + ay <= 49,
    ;
}

/// While the button is held and no bright star other than the anchor lies
/// under the end of the draft line, a tick moves that end to the pointer held
/// within reach of a line from the anchor: when the pointer is farther than
/// that, the line is more than `33` and at most `35` long.
pub proof fn lemma_drag_keeps_reach(s: SkyState, input: TickInput)
    requires
        sky_wf(s),
        pointer_fits(input),
        s.draft.visible,
        input.mouse_down,
        hovered(s, input) is None || hovered(s, input) == Some(s.draft.start_idx as int),
    ensures
        ({
            let t = tick(s, input);
            let a = s.stars[s.draft.start_idx as int];
            let off = clamp_offset(pointer_x(input) - a.x, pointer_y(input) - a.y);
            &&& t.stars == s.stars
            &&& t.links == s.links
            &&& t.light == s.light
            &&& t.draft.visible
            &&& t.draft.start_idx == s.draft.start_idx
            &&& t.draft.end_x == a.x + off.0
            &&& t.draft.end_y == a.y + off.1
            &&& dist_sq(pointer_x(input), pointer_y(input), a.x as int, a.y as int)
                > STAR_DIST_MAX_FOR_LINE * STAR_DIST_MAX_FOR_LINE ==> {
                let len_sq = dist_sq(t.draft.end_x as int, t.draft.end_y as int, a.x as int, a.y as int);
                33 * 33 < len_sq <= STAR_DIST_MAX_FOR_LINE * STAR_DIST_MAX_FOR_LINE
            }
        }),
{
    let a = s.stars[s.draft.start_idx as int];
    let dx = pointer_x(input) - a.x;
    let dy = pointer_y(input) - a.y;
    assert(in_world(a.x as int, a.y as int));
    let off = clamp_offset(dx, dy);
    if dx * dx + dy * dy > STAR_DIST_MAX_FOR_LINE * STAR_DIST_MAX_FOR_LINE {
        lemma_draft_clamp(dx, dy);
        assert(off.0 * off.0 == (a.x + off.0 - a.x) * (a.x + off.0 - a.x));
        assert(dist_sq(pointer_x(input), pointer_y(input), a.x as int, a.y as int) == dx * dx + dy
            * dy);
    }
}

/// Releasing the button with no draft line shown, or over no bright star, or
/// over the anchor of the draft line itself, commits nothing: stars, links and
/// light stay as they were, and the draft line is hidden.
pub proof fn lemma_release_without_target(s: SkyState, input: TickInput)
    requires
        s.prev_mouse_down,
        !input.mouse_down,
        !s.draft.visible || hovered(s, input) is None || hovered(s, input) == Some(
            s.draft.start_idx as int,
        ),
    ensures
        tick(s, input).stars == s.stars,
        tick(s, input).links == s.links,
        tick(s, input).light == s.light,
        !tick(s, input).draft.visible,
{
}

/// Committing a link that closes a constellation of at least
/// `CONSTELLATION_THRESHOLD` stars completes it: the light changes by the
/// number of its stars beyond the threshold, less the one light the link
/// costs; every star of it is dimmed; every link with a star of it at either
/// end is dimmed; and a star outside it stays bright exactly when it was
/// bright and still has a bright link.
pub proof fn lemma_completion(stars: Seq<Star>, links: Seq<Link>, light: u32, a: int, e: int)
    requires
        0 <= a < stars.len(),
        0 <= e < stars.len(),
        stars.len() <= 0x1_0000,
        links_within(links, stars.len() as int),
        constellation(
            links.push(Link { start_idx: a as u16, end_idx: e as u16, style: LinkStyle::Bright }),
            stars.len() as int,
            e,
        ).len() >= CONSTELLATION_THRESHOLD,
    ensures
        ({
            let linked = links.push(
                Link { start_idx: a as u16, end_idx: e as u16, style: LinkStyle::Bright },
            );
            let size = constellation(linked, stars.len() as int, e).len();
            let after = commit(stars, links, light, a, e);
            &&& after.2 == sat_add(sat_sub(light, 1), size - CONSTELLATION_THRESHOLD)
            &&& 1 <= light && light - 1 + size - CONSTELLATION_THRESHOLD <= u32::MAX ==> after.2
                == light - 1 + size - CONSTELLATION_THRESHOLD
            &&& after.0.len() == stars.len()
            &&& after.1.len() == linked.len()
            &&& forall|i: int|
                #![trigger after.0[i]]
                0 <= i < stars.len() ==> after.0[i].x == stars[i].x && after.0[i].y == stars[i].y
            &&& forall|i: int|
                #![trigger after.0[i]]
                0 <= i < stars.len() && connected(linked, e, i) ==> !after.0[i].bright
            &&& forall|i: int|
                #![trigger after.0[i]]
                0 <= i < stars.len() && !connected(linked, e, i) ==> after.0[i].bright == (
                stars[i].bright && has_bright_link(after.1, i))
            &&& forall|k: int|
                #![trigger after.1[k]]
                0 <= k < linked.len() && (connected(linked, e, linked[k].start_idx as int)
                    || connected(linked, e, linked[k].end_idx as int)) ==> after.1[k].style
                    == LinkStyle::Dim
            &&& forall|k: int|
                #![trigger after.1[k]]
                0 <= k < linked.len() ==> after.1[k].start_idx == linked[k].start_idx
                    && after.1[k].end_idx == linked[k].end_idx
        }),
{
    let linked = links.push(Link { start_idx: a as u16, end_idx: e as u16, style: LinkStyle::Bright });
    let after = commit(stars, links, light, a, e);
    assert forall|k: int|
        #![trigger after.1[k]]
        0 <= k < linked.len() && (connected(linked, e, linked[k].start_idx as int) || connected(
            linked,
            e,
            linked[k].end_idx as int,
        )) implies after.1[k].style == LinkStyle::Dim by {
        let l = linked[k];
        assert(adjacent(linked, l.start_idx as int, l.end_idx as int)) by {
            assert(joins(linked[k], l.start_idx as int, l.end_idx as int));
        }
        assert(adjacent(linked, l.end_idx as int, l.start_idx as int)) by {
            assert(joins(linked[k], l.end_idx as int, l.start_idx as int));
        }
        if connected(linked, e, l.start_idx as int) {
            lemma_connected_step(linked, e, l.start_idx as int, l.end_idx as int);
        } else {
            lemma_connected_step(linked, e, l.end_idx as int, l.start_idx as int);
        }
    }
}

/// A tick never moves a star, so the spacing and reach rules that held of the
/// stars before it hold after it.
pub proof fn lemma_tick_keeps_positions(s: SkyState, input: TickInput)
    ensures
        tick(s, input).stars.len() == s.stars.len(),
        forall|i: int|
            #![trigger tick(s, input).stars[i]]
            0 <= i < s.stars.len() ==> tick(s, input).stars[i].x == s.stars[i].x && tick(
                s,
                input,
            ).stars[i].y == s.stars[i].y,
{
}

/// The spacing rules and the reach of every star, which generation
/// establishes, hold after every tick: no tick moves a star.
pub proof fn lemma_tick_keeps_spacing(s: SkyState, input: TickInput)
    requires
        field_spaced(s.stars),
        field_linkable(s.stars),
    ensures
        field_spaced(tick(s, input).stars),
        field_linkable(tick(s, input).stars),
{
    let t = tick(s, input).stars;
    lemma_tick_keeps_positions(s, input);
    assert forall|i: int, j: int|
        0 <= i < t.len() && 0 <= j < t.len() implies #[trigger] star_dist_sq(t[i], t[j])
        == star_dist_sq(s.stars[i], s.stars[j]) by {
        assert(t[i].x == s.stars[i].x && t[i].y == s.stars[i].y);
        assert(t[j].x == s.stars[j].x && t[j].y == s.stars[j].y);
    }
    assert forall|i: int| 0 < i < t.len() implies #[trigger] has_near_neighbour(t, i) by {
        assert(has_near_neighbour(s.stars, i));
        let j = choose|j: int|
            #![trigger star_dist_sq(s.stars[i], s.stars[j])]
            0 <= j < s.stars.len() && j != i && within_line_reach(
                star_dist_sq(s.stars[i], s.stars[j]),
            );
        assert(star_dist_sq(t[i], t[j]) == star_dist_sq(s.stars[i], s.stars[j]));
    }
}

} // verus!

//! A uniform grid over the world that sorts stars into sections, so that
//! placement only has to look at the stars near a candidate.
use vstd::prelude::*;

use crate::star::Star;

verus! {

broadcast use vstd::seq_lib::group_seq_properties;

/// Number of sections across the world.
pub const SKY_WIDTH_SECTIONS: usize = 10;

/// Number of sections down the world.
pub const SKY_HEIGHT_SECTIONS: usize = 10;

/// Width of one section in pixels.
pub const SECTION_WIDTH: usize = 64;

/// Height of one section in pixels.
pub const SECTION_HEIGHT: usize = 64;

/// Number of sections in the grid.
pub const SECTION_COUNT: usize = 100;

/// Width of the world in pixels.
pub const WORLD_WIDTH: i16 = 640;

/// Height of the world in pixels.
pub const WORLD_HEIGHT: i16 = 640;

/// The point lies inside the world.
pub open spec fn in_world(x: int, y: int) -> bool {
    0 <= x < WORLD_WIDTH && 0 <= y < WORLD_HEIGHT
}

/// Index of the section that holds a point of the world.
pub open spec fn section_of(x: int, y: int) -> int {
    (y / SECTION_HEIGHT as int) * SKY_WIDTH_SECTIONS as int + x / SECTION_WIDTH as int
}

/// Two sections touch or are the same: their columns and their rows differ by at most one.
pub open spec fn sections_adjacent(a: int, b: int) -> bool {
    let w = SKY_WIDTH_SECTIONS as int;
    -1 <= a % w - b % w <= 1 && -1 <= a / w - b / w <= 1
}

/// The values rise strictly along the sequence.
pub open spec fn ascending(s: Seq<usize>) -> bool {
    forall|i: int, j: int| 0 <= i < j < s.len() ==> s[i] < s[j]
}

/// The sections of the three-by-three block centred on section `c`, clipped
/// at the edges of the grid, in ascending order.
pub open spec fn neighbors(c: int) -> Seq<usize> {
    choose|s: Seq<usize>|
        ascending(s) && forall|d: usize|
            #![trigger s.contains(d)]
            s.contains(d) <==> (d < SECTION_COUNT && sections_adjacent(d as int, c))
}

/// Two ascending sequences with the same values are equal.
pub proof fn lemma_ascending_unique(a: Seq<usize>, b: Seq<usize>)
    requires
        ascending(a),
        ascending(b),
        forall|d: usize| #![trigger a.contains(d)] #![trigger b.contains(d)] a.contains(d) <==> b.contains(d),
    ensures
        a == b,
    decreases a.len(),
{
    if a.len() == 0 {
        if b.len() > 0 {
            assert(b.contains(b[0]));
            assert(a.contains(b[0]));
        }
        assert(a =~= b);
    } else if b.len() == 0 {
        assert(a.contains(a[0]));
        assert(b.contains(a[0]));
    } else {
        assert(a.contains(a[0]) && b.contains(a[0]));
        assert(b.contains(b[0]) && a.contains(b[0]));
        let i = choose|i: int| 0 <= i < b.len() && b[i] == a[0];
        let j = choose|j: int| 0 <= j < a.len() && a[j] == b[0];
        assert(a[0] == b[0]);
        let ra = a.drop_first();
        let rb = b.drop_first();
        assert forall|d: usize| #![trigger ra.contains(d)] #![trigger rb.contains(d)] ra.contains(d) <==> rb.contains(d) by {
            if ra.contains(d) {
                let k = choose|k: int| 0 <= k < ra.len() && ra[k] == d;
                assert(a[k + 1] == d && a[0] < a[k + 1]);
                assert(a.contains(d));
                assert(b.contains(d));
                let m = choose|m: int| 0 <= m < b.len() && b[m] == d;
                assert(m != 0);
                assert(rb[m - 1] == d);
            }
            if rb.contains(d) {
                let k = choose|k: int| 0 <= k < rb.len() && rb[k] == d;
                assert(b[k + 1] == d && b[0] < b[k + 1]);
                assert(b.contains(d));
                assert(a.contains(d));
                let m = choose|m: int| 0 <= m < a.len() && a[m] == d;
                assert(m != 0);
                assert(ra[m - 1] == d);
            }
        }
        lemma_ascending_unique(ra, rb);
        assert(a =~= seq![a[0]] + ra);
        assert(b =~= seq![b[0]] + rb);
    }
}

/// Whether a point lies inside the world.
pub fn is_in_bounds(x: i16, y: i16) -> (r: bool)
    ensures
        r == in_world(x as int, y as int),
{
    x >= 0 && x < WORLD_WIDTH && y >= 0 && y < WORLD_HEIGHT
}

/// The sections of the three-by-three block centred on `section_idx`, clipped
/// at the edges of the grid, in ascending order.
pub fn neighboring_section_indices(section_idx: usize) -> (r: Vec<usize>)
    requires
        section_idx < SECTION_COUNT,
    ensures
        forall|c: usize|
            #![trigger r@.contains(c)]
            r@.contains(c) <==> (c < SECTION_COUNT && sections_adjacent(c as int, section_idx as int)),
        forall|i: int, j: int| 0 <= i < j < r@.len() ==> r@[i] < r@[j],
        r@ == neighbors(section_idx as int),
{
    let section_x: usize = section_idx % SKY_WIDTH_SECTIONS;
    let section_y: usize = section_idx / SKY_WIDTH_SECTIONS;
    let mut r: Vec<usize> = Vec::new();
    let mut row: usize = if section_y == 0 { 0 } else { section_y - 1 };
    let row_end: usize = if section_y + 1 < SKY_HEIGHT_SECTIONS { section_y + 1 } else { section_y };
    while row <= row_end
        invariant
            section_idx < SECTION_COUNT,
            section_x == section_idx % 10,
            section_y == section_idx / 10,
            row_end < 10,
            row_end + 1 >= section_y + 1,
            row_end <= section_y + 1,
            section_y <= row + 1,
            row <= row_end + 1,
            forall|c: usize|
                #![trigger r@.contains(c)]
                r@.contains(c) <==> (c < 100 && sections_adjacent(c as int, section_idx as int)
                    && c / 10 < row),
            forall|i: int, j: int| 0 <= i < j < r@.len() ==> r@[i] < r@[j],
            forall|i: int| 0 <= i < r@.len() ==> r@[i] / 10 < row,
        decreases row_end + 1 - row,
    {
        let mut col: usize = if section_x == 0 { 0 } else { section_x - 1 };
        let col_end: usize = if section_x + 1 < SKY_WIDTH_SECTIONS { section_x + 1 } else { section_x };
        while col <= col_end
            invariant
                section_idx < SECTION_COUNT,
                section_x == section_idx % 10,
                section_y == section_idx / 10,
                row <= row_end < 10,
                section_y <= row + 1,
                row <= section_y + 1,
                col_end < 10,
                col_end <= section_x + 1,
                col_end + 1 >= section_x + 1,
                section_x <= col + 1,
                col <= col_end + 1,
                forall|c: usize|
                    #![trigger r@.contains(c)]
                    r@.contains(c) <==> (c < 100 && sections_adjacent(c as int, section_idx as int)
                        && (c / 10 < row || (c / 10 == row && c % 10 < col))),
                forall|i: int, j: int| 0 <= i < j < r@.len() ==> r@[i] < r@[j],
                forall|i: int| 0 <= i < r@.len() ==> r@[i] < row * 10 + col,
            decreases col_end + 1 - col,
        {
            let c: usize = row * SKY_WIDTH_SECTIONS + col;
            assert(c / 10 == row && c % 10 == col);
            assert(sections_adjacent(c as int, section_idx as int));
            let ghost before = r@;
            r.push(c);
            assert forall|d: usize|
                #![trigger r@.contains(d)]
                r@.contains(d) <==> (d < 100 && sections_adjacent(d as int, section_idx as int)
                    && (d / 10 < row || (d / 10 == row && d % 10 < col + 1))) by {
                vstd::arithmetic::div_mod::lemma_fundamental_div_mod(d as int, 10);
                if d / 10 == row && d % 10 == col {
                    assert(d == c);
                }
                assert(r@[before.len() as int] == c);
                if before.contains(d) {
                    let i = choose|i: int| 0 <= i < before.len() && before[i] == d;
                    assert(r@[i] == d);
                }
                if r@.contains(d) && d != c {
                    let i = choose|i: int| 0 <= i < r@.len() && r@[i] == d;
                    assert(before[i] == d);
                }
            }
            col = col + 1;
        }
        row = row + 1;
    }
    proof {
        let t = neighbors(section_idx as int);
        assert(ascending(r@));
        assert(forall|d: usize|
            #![trigger r@.contains(d)]
            r@.contains(d) <==> (d < SECTION_COUNT && sections_adjacent(d as int, section_idx as int)));
        lemma_ascending_unique(r@, t);
    }
    r
}

/// Index of the section that holds a point of the world.
pub fn section_index(x: i16, y: i16) -> (r: usize)
    requires
        in_world(x as int, y as int),
    ensures
        r == section_of(x as int, y as int),
        r < SECTION_COUNT,
        r % SKY_WIDTH_SECTIONS == x as int / SECTION_WIDTH as int,
        r / SKY_WIDTH_SECTIONS == y as int / SECTION_HEIGHT as int,
{
    (y as usize / SECTION_HEIGHT) * SKY_WIDTH_SECTIONS + x as usize / SECTION_WIDTH
}

/// Two points of the world less than a section apart on both axes lie in adjacent sections.
pub proof fn lemma_near_points_adjacent(ax: int, ay: int, bx: int, by: int)
    requires
        in_world(ax, ay),
        in_world(bx, by),
        -64 < ax - bx < 64,
        -64 < ay - by < 64,
    ensures
        sections_adjacent(section_of(ax, ay), section_of(bx, by)),
{
    let a = section_of(ax, ay);
    let b = section_of(bx, by);
    assert(a % 10 == ax / 64 && a / 10 == ay / 64);
    assert(b % 10 == bx / 64 && b / 10 == by / 64);
    assert(-1 <= ax / 64 - bx / 64 <= 1);
    assert(-1 <= ay / 64 - by / 64 <= 1);
}

/// The stars listed by the sections `nbs`, section after section.
pub open spec fn near_list(cells: Seq<Seq<usize>>, nbs: Seq<usize>) -> Seq<usize>
    decreases nbs.len(),
{
    if nbs.len() == 0 {
        Seq::empty()
    } else {
        near_list(cells, nbs.drop_last()) + cells[nbs.last() as int]
    }
}

/// The grid that sorts placed stars into sections, with the list of the
/// sections that hold at least one star in the order they were first filled.
pub(crate) struct SpatialIndex {
    pub(crate) sections: Vec<Vec<usize>>,
    pub(crate) filled: Vec<usize>,
}

impl SpatialIndex {
    /// The star indices each section holds, in the order they were sorted in.
    pub(crate) open spec fn cells(&self) -> Seq<Seq<usize>> {
        self.sections@.map_values(|v: Vec<usize>| v@)
    }

    /// The grid sorts exactly the stars `stars`, each into the section that
    /// holds its position, and `filled` lists the sections that are not empty.
    pub(crate) open spec fn indexes(&self, stars: Seq<Star>) -> bool {
        &&& self.sections@.len() == SECTION_COUNT
        &&& forall|c: int, j: int|
            #![trigger self.sections@[c]@[j]]
            0 <= c < SECTION_COUNT && 0 <= j < self.sections@[c]@.len() ==> {
                let s = self.sections@[c]@[j] as int;
                &&& s < stars.len()
                &&& section_of(stars[s].x as int, stars[s].y as int) == c
            }
        &&& forall|s: int|
            #![trigger stars[s]]
            0 <= s < stars.len() ==> in_world(stars[s].x as int, stars[s].y as int)
                && self.sections@[section_of(stars[s].x as int, stars[s].y as int)]@.contains(
                s as usize,
            )
        &&& forall|k: int|
            #![trigger self.filled@[k]]
            0 <= k < self.filled@.len() ==> self.filled@[k] < SECTION_COUNT
        &&& forall|c: usize|
            #![trigger self.filled@.contains(c)]
            c < SECTION_COUNT ==> (self.filled@.contains(c) <==> self.sections@[c as int]@.len()
                > 0)
        &&& stars.len() > 0 ==> self.filled@.len() > 0
    }

    /// An empty grid.
    pub(crate) fn new() -> (r: SpatialIndex)
        ensures
            r.indexes(Seq::empty()),
            r.filled@.len() == 0,
            r.cells() == Seq::new(SECTION_COUNT as nat, |c: int| Seq::<usize>::empty()),
    {
        let mut sections: Vec<Vec<usize>> = Vec::new();
        let mut i: usize = 0;
        while i < SECTION_COUNT
            invariant
                i <= SECTION_COUNT,
                sections@.len() == i,
                forall|c: int| 0 <= c < i ==> sections@[c]@.len() == 0,
            decreases SECTION_COUNT - i,
        {
            sections.push(Vec::new());
            i = i + 1;
        }
        let r = SpatialIndex { sections, filled: Vec::new() };
        assert(r.cells() =~= Seq::new(SECTION_COUNT as nat, |c: int| Seq::<usize>::empty())) by {
            assert forall|c: int| 0 <= c < SECTION_COUNT implies r.cells()[c] =~= Seq::<usize>::empty() by {
            }
        }
        r
    }

    /// Sorts the star last added to `stars` into its section; returns that section.
    pub(crate) fn insert(&mut self, stars: &Vec<Star>) -> (r: usize)
        requires
            stars@.len() > 0,
            old(self).indexes(stars@.drop_last()),
            in_world(stars@.last().x as int, stars@.last().y as int),
        ensures
            final(self).indexes(stars@),
            r == section_of(stars@.last().x as int, stars@.last().y as int),
            final(self).cells() == old(self).cells().update(
                r as int,
                old(self).cells()[r as int].push((stars@.len() - 1) as usize),
            ),
            final(self).filled@ == if old(self).cells()[r as int].len() == 0 {
                old(self).filled@.push(r)
            } else {
                old(self).filled@
            },
    {
        let idx: usize = stars.len() - 1;
        let ghost prev = stars@.drop_last();
        let c: usize = section_index(stars[idx].x, stars[idx].y);
        let ghost old_sections = self.sections@;
        let newly_filled: bool = self.sections[c].len() == 0;
        self.sections[c].push(idx);
        assert(self.sections@[c as int]@ == old_sections[c as int]@.push(idx));
        assert forall|d: int| 0 <= d < SECTION_COUNT && d != c implies self.sections@[d]
            == old_sections[d] by {}
        let ghost old_filled = self.filled@;
        if newly_filled {
            self.filled.push(c);
        }
        assert forall|d: usize|
            #![trigger self.filled@.contains(d)]
            d < SECTION_COUNT implies (self.filled@.contains(d) <==> self.sections@[d as int]@.len()
                > 0) by {
            if d != c {
                assert(self.sections@[d as int] == old_sections[d as int]);
                assert(self.filled@.contains(d) <==> old_filled.contains(d));
            } else {
                assert(self.filled@.contains(c));
            }
        }
        assert(self.filled@.len() > 0) by {
            assert(self.filled@.contains(c));
        }
        assert(self.cells() =~= old(self).cells().update(c as int, old(self).cells()[c as int].push(idx)));
        assert forall|s: int|
            #![trigger stars@[s]]
            0 <= s < stars@.len() implies in_world(stars@[s].x as int, stars@[s].y as int)
            && self.sections@[section_of(stars@[s].x as int, stars@[s].y as int)]@.contains(
            s as usize,
        ) by {
            if s < idx {
                assert(stars@[s] == prev[s]);
            }
        }
        assert forall|d: int, j: int|
            #![trigger self.sections@[d]@[j]]
            0 <= d < SECTION_COUNT && 0 <= j < self.sections@[d]@.len() implies {
                let s = self.sections@[d]@[j] as int;
                &&& s < stars@.len()
                &&& section_of(stars@[s].x as int, stars@[s].y as int) == d
            } by {
            if d != c || j < old_sections[d]@.len() {
                let s = old_sections[d]@[j] as int;
                assert(s < prev.len());
                assert(stars@[s] == prev[s]);
            }
        }
        c
    }

    /// The stars sorted into the three-by-three block of sections around the
    /// section that holds the point, section by section in ascending order.
    pub(crate) fn stars_near(&self, stars: &Vec<Star>, x: i16, y: i16) -> (r: Vec<usize>)
        requires
            self.indexes(stars@),
            in_world(x as int, y as int),
        ensures
            forall|k: int| 0 <= k < r@.len() ==> r@[k] < stars@.len(),
            r@ == near_list(self.cells(), neighbors(section_of(x as int, y as int))),
            forall|s: int|
                #![trigger r@.contains(s as usize)]
                0 <= s < stars@.len() && sections_adjacent(
                    section_of(stars@[s].x as int, stars@[s].y as int),
                    section_of(x as int, y as int),
                ) ==> r@.contains(s as usize),
    {
        let here: usize = section_index(x, y);
        let near: Vec<usize> = neighboring_section_indices(here);
        let mut r: Vec<usize> = Vec::new();
        let mut i: usize = 0;
        while i < near.len()
            invariant
                self.indexes(stars@),
                i <= near@.len(),
                forall|c: usize|
                    #![trigger near@.contains(c)]
                    near@.contains(c) <==> (c < SECTION_COUNT && sections_adjacent(
                        c as int,
                        here as int,
                    )),
                forall|k: int| 0 <= k < r@.len() ==> r@[k] < stars@.len(),
                r@ == near_list(self.cells(), near@.take(i as int)),
                forall|a: int, j: int|
                    #![trigger self.sections@[near@[a] as int]@[j]]
                    0 <= a < i && 0 <= j < self.sections@[near@[a] as int]@.len() ==> r@.contains(
                        self.sections@[near@[a] as int]@[j],
                    ),
            decreases near@.len() - i,
        {
            let c: usize = near[i];
            assert(near@.contains(c));
            let mut j: usize = 0;
            while j < self.sections[c].len()
                invariant
                    self.indexes(stars@),
                    i < near@.len(),
                    c == near@[i as int],
                    c < SECTION_COUNT,
                    j <= self.sections@[c as int]@.len(),
                    forall|k: int| 0 <= k < r@.len() ==> r@[k] < stars@.len(),
                    r@ == near_list(self.cells(), near@.take(i as int)) + self.cells()[c as int].take(
                        j as int,
                    ),
                    forall|a: int, j2: int|
                        #![trigger self.sections@[near@[a] as int]@[j2]]
                        0 <= a < i && 0 <= j2 < self.sections@[near@[a] as int]@.len()
                            ==> r@.contains(self.sections@[near@[a] as int]@[j2]),
                    forall|j2: int|
                        #![trigger self.sections@[c as int]@[j2]]
                        0 <= j2 < j ==> r@.contains(self.sections@[c as int]@[j2]),
                decreases self.sections@[c as int]@.len() - j,
            {
                let s: usize = self.sections[c][j];
                r.push(s);
                assert(self.cells()[c as int].take(j + 1) =~= self.cells()[c as int].take(
                    j as int,
                ).push(s));
                j = j + 1;
            }
            assert(near@.take(i + 1).drop_last() =~= near@.take(i as int));
            assert(self.cells()[c as int].take(j as int) =~= self.cells()[c as int]);
            i = i + 1;
        }
        assert(near@.take(near@.len() as int) =~= near@);
        assert forall|s: int|
            0 <= s < stars@.len() && sections_adjacent(
                section_of(stars@[s].x as int, stars@[s].y as int),
                section_of(x as int, y as int),
            ) implies r@.contains(s as usize) by {
            let c = section_of(stars@[s].x as int, stars@[s].y as int) as usize;
            assert(self.sections@[c as int]@.contains(s as usize));
            assert(near@.contains(c));
            let a = choose|a: int| 0 <= a < near@.len() && near@[a] == c;
            let j = choose|j: int|
                0 <= j < self.sections@[c as int]@.len() && self.sections@[c as int]@[j]
                    == s as usize;
            assert(r@.contains(self.sections@[near@[a] as int]@[j]));
        }
        r
    }
}

} // verus!

use vstd::arithmetic::div_mod::{lemma_mod_add_multiples_vanish, lemma_mod_self_0, lemma_small_mod};
use vstd::prelude::*;

use crate::pac::Pac;
use crate::pellet::Pellet;
use crate::store::{after_sightings, find_pellet, pellets_unique, units_wf, PacSighting};

verus! {

/// A grid position `(x, y)`; `(0, 0)` is the top left corner.
pub type Position = (isize, isize);

/// Identity of a unit: its team and its number within that team.
pub type PacIdentifier = (Team, i32);

/// What a grid cell is made of. The map marks walls with `#` and floor with a space.
#[derive(Clone, Copy, Debug, PartialEq, Eq, Structural)]
pub enum CellType {
    Wall,
    Floor,
}

/// Byte that marks a wall cell in a map row: ASCII `#`.
pub const WALL_MARK: u8 = 35;

/// Byte that marks a floor cell in a map row: ASCII space.
pub const FLOOR_MARK: u8 = 32;

/// The cell kind that a map byte stands for, if any.
pub open spec fn cell_of_byte(b: u8) -> Option<CellType> {
    if b == WALL_MARK {
        Some(CellType::Wall)
    } else if b == FLOOR_MARK {
        Some(CellType::Floor)
    } else {
        None
    }
}

impl CellType {
    /// Reads one map character; `None` for a byte that is neither marker.
    pub fn try_from(v: u8) -> (r: Option<CellType>)
        ensures
            r == cell_of_byte(v),
    {
        if v == WALL_MARK {
            Some(CellType::Wall)
        } else if v == FLOOR_MARK {
            Some(CellType::Floor)
        } else {
            None
        }
    }
}

/// Which side a unit plays for. `Unknown` is the unset value and is never
/// stored in a committed unit record.
#[derive(Clone, Copy, Debug, PartialEq, Eq, Structural, Hash)]
pub enum Team {
    Us,
    Opp,
    Unknown,
}

impl Default for Team {
    fn default() -> (r: Self)
        ensures
            r == Team::Unknown,
    {
        Team::Unknown
    }
}

/// One step left on a ring of `n` cells.
pub open spec fn wrap_dec(v: int, n: int) -> int {
    if v == 0 {
        n - 1
    } else {
        v - 1
    }
}

/// One step right on a ring of `n` cells.
pub open spec fn wrap_inc(v: int, n: int) -> int {
    if v + 1 == n {
        0
    } else {
        v + 1
    }
}

/// The wrapped steps are the usual arithmetic modulo `n`.
pub proof fn lemma_wrap_is_modular(v: int, n: int)
    requires
        0 <= v < n,
    ensures
        wrap_dec(v, n) == (v - 1 + n) % n,
        wrap_inc(v, n) == (v + 1) % n,
{
    if v == 0 {
        lemma_small_mod((n - 1) as nat, n as nat);
    } else {
        lemma_mod_add_multiples_vanish(v - 1, n);
        lemma_small_mod((v - 1) as nat, n as nat);
    }
    if v + 1 == n {
        lemma_mod_self_0(n);
    } else {
        lemma_small_mod((v + 1) as nat, n as nat);
    }
}

/// Why a map could not be loaded.
#[derive(Clone, Copy, Debug, PartialEq, Eq, Structural)]
pub enum LoadError {
    /// A dimension is not positive, the cell count does not fit, or the
    /// number of rows differs from the height.
    BadDimensions,
    /// This row's length differs from the width.
    BadRowLength(usize),
    /// The byte at this row and column is neither the wall nor the floor marker.
    UnknownCell(usize, usize),
}

/// `rows` is a `width` by `height` block of wall and floor markers.
pub open spec fn rows_valid(width: int, height: int, rows: Seq<Seq<u8>>) -> bool {
    &&& width > 0
    &&& height > 0
    &&& width * height <= isize::MAX
    &&& rows.len() == height
    &&& forall|y: int| 0 <= y < height ==> #[trigger] rows[y].len() == width
    &&& forall|y: int, x: int|
        0 <= y < height && 0 <= x < width ==> (#[trigger] cell_of_byte(rows[y][x])).is_some()
}

/// The state of the game as the agent knows it: the maze, the units seen so
/// far, the pellets visible this turn, and the turn bookkeeping.
pub struct WorldModel {
    pub dim: (isize, isize),
    pub grid: Vec<CellType>,
    pub pacs: Vec<Pac>,
    pub pellets: Vec<Pellet>,
    pub turn: u32,
    pub turn_start: Option<u64>,
    pub my_score: i32,
    pub opp_score: i32,
}

impl WorldModel {
    pub open spec fn width(&self) -> int {
        self.dim.0 as int
    }

    pub open spec fn height(&self) -> int {
        self.dim.1 as int
    }

    /// Grid dimensions are positive and the cell array is row-major of that size;
    /// units and pellets are keyed uniquely.
    pub open spec fn wf(&self) -> bool {
        &&& self.width() > 0
        &&& self.height() > 0
        &&& self.grid@.len() == self.width() * self.height()
        &&& self.width() * self.height() <= isize::MAX
        &&& units_wf(self.pacs@)
        &&& pellets_unique(self.pellets@)
    }

    pub open spec fn in_bounds(&self, p: Position) -> bool {
        0 <= p.0 < self.width() && 0 <= p.1 < self.height()
    }

    /// Row-major index of a cell.
    pub open spec fn flat(&self, p: Position) -> int {
        p.1 * self.width() + p.0
    }

    pub open spec fn cell(&self, p: Position) -> CellType {
        self.grid@[self.flat(p)]
    }

    pub open spec fn is_floor(&self, p: Position) -> bool {
        self.cell(p) == CellType::Floor
    }

    /// The four wrapped adjacent positions, in the order left, up, right, down.
    pub open spec fn adjacent(&self, p: Position) -> Seq<Position> {
        seq![
            (wrap_dec(p.0 as int, self.width()) as isize, p.1),
            (p.0, wrap_dec(p.1 as int, self.height()) as isize),
            (wrap_inc(p.0 as int, self.width()) as isize, p.1),
            (p.0, wrap_inc(p.1 as int, self.height()) as isize),
        ]
    }

    /// The floor positions of `s`, in their order.
    pub open spec fn keep_floor(&self, s: Seq<Position>) -> Seq<Position>
        decreases s.len(),
    {
        if s.len() == 0 {
            Seq::empty()
        } else if self.is_floor(s.last()) {
            self.keep_floor(s.drop_last()).push(s.last())
        } else {
            self.keep_floor(s.drop_last())
        }
    }

    /// The positions one move away from `p`: the floor ones among its adjacent cells.
    pub open spec fn neighbors_of(&self, p: Position) -> Seq<Position> {
        self.keep_floor(self.adjacent(p))
    }

    /// The pellet visible at `q` this turn, if any.
    pub open spec fn pellet_lookup(&self, q: Position) -> Option<Pellet> {
        find_pellet(self.pellets@, q)
    }

    pub proof fn lemma_flat_in_range(&self, p: Position)
        requires
            self.wf(),
            self.in_bounds(p),
        ensures
            0 <= self.flat(p) < self.grid@.len(),
            0 <= p.1 * self.width() <= self.flat(p),
    {
        let w = self.width();
        let h = self.height();
        let x = p.0 as int;
        let y = p.1 as int;
        assert(0 <= y * w <= y * w + x < w * h) by (nonlinear_arith)
            requires
                0 <= x < w,
                0 <= y < h,
        ;
    }

    /// Every in-bounds position has its index inside the cell array.
    pub proof fn lemma_flat_all(&self)
        requires
            self.wf(),
        ensures
            forall|p: Position| self.in_bounds(p) ==> 0 <= #[trigger] self.flat(p) < self.grid@.len(),
    {
        assert forall|p: Position| self.in_bounds(p) implies 0 <= #[trigger] self.flat(p) < self.grid@.len() by {
            self.lemma_flat_in_range(p);
        }
    }

    /// Distinct in-bounds positions have distinct row-major indices.
    pub proof fn lemma_flat_injective(&self, p: Position, q: Position)
        requires
            self.wf(),
            self.in_bounds(p),
            self.in_bounds(q),
            self.flat(p) == self.flat(q),
        ensures
            p == q,
    {
        let w = self.width();
        let (x1, y1, x2, y2) = (p.0 as int, p.1 as int, q.0 as int, q.1 as int);
        if y1 < y2 {
            assert(y1 * w + x1 < y2 * w + x2) by (nonlinear_arith)
                requires
                    0 <= x1 < w,
                    0 <= x2,
                    y1 < y2,
            ;
        } else if y2 < y1 {
            assert(y2 * w + x2 < y1 * w + x1) by (nonlinear_arith)
                requires
                    0 <= x2 < w,
                    0 <= x1,
                    y2 < y1,
            ;
        }
    }

    /// What `keep_floor` keeps is floor and taken from `s`, in order.
    pub proof fn lemma_keep_floor(&self, s: Seq<Position>)
        ensures
            self.keep_floor(s).len() <= s.len(),
            forall|q: Position| #[trigger]
                self.keep_floor(s).contains(q) ==> s.contains(q) && self.is_floor(q),
            s.no_duplicates() ==> self.keep_floor(s).no_duplicates(),
        decreases s.len(),
    {
        if s.len() > 0 {
            let t = s.drop_last();
            self.lemma_keep_floor(t);
            assert forall|q: Position| #[trigger] t.contains(q) implies s.contains(q) by {
                let i = choose|i: int| 0 <= i < t.len() && t[i] == q;
                assert(s[i] == q);
            }
            if s.no_duplicates() {
                assert(t.no_duplicates());
                assert(!t.contains(s.last())) by {
                    if t.contains(s.last()) {
                        let i = choose|i: int| 0 <= i < t.len() && t[i] == s.last();
                        assert(s[i] == s[s.len() - 1]);
                    }
                }
            }
            if self.is_floor(s.last()) {
                let k = self.keep_floor(t);
                assert forall|q: Position| #[trigger] k.push(s.last()).contains(q) implies s.contains(q)
                    && self.is_floor(q) by {
                    let i = choose|i: int| 0 <= i < k.len() + 1 && k.push(s.last())[i] == q;
                    if i < k.len() {
                        assert(k.contains(q));
                    }
                }
                if s.no_duplicates() {
                    let kp = k.push(s.last());
                    assert(!k.contains(s.last()));
                    assert forall|i: int, j: int| 0 <= i < kp.len() && 0 <= j < kp.len() && i != j implies kp[i]
                        != kp[j] by {
                        if i < k.len() && j < k.len() {
                        } else if i < k.len() {
                            assert(k.contains(kp[i]));
                        } else {
                            assert(k.contains(kp[j]));
                        }
                    }
                }
            }
        }
    }

    /// Every neighbour of an in-bounds position is an in-bounds floor position,
    /// there are at most four, and on a grid at least three cells wide and high
    /// no two are equal.
    pub proof fn lemma_neighbors_valid(&self, p: Position)
        requires
            self.wf(),
            self.in_bounds(p),
        ensures
            self.neighbors_of(p).len() <= 4,
            forall|q: Position| #[trigger]
                self.neighbors_of(p).contains(q) ==> self.in_bounds(q) && self.is_floor(q),
            self.width() >= 3 && self.height() >= 3 ==> self.neighbors_of(p).no_duplicates(),
    {
        let adj = self.adjacent(p);
        self.lemma_keep_floor(adj);
        assert forall|q: Position| #[trigger] adj.contains(q) implies self.in_bounds(q) by {
            let i = choose|i: int| 0 <= i < adj.len() && adj[i] == q;
        }
        if self.width() >= 3 && self.height() >= 3 {
            assert forall|i: int, j: int| 0 <= i < adj.len() && 0 <= j < adj.len() && i != j implies adj[i]
                != adj[j] by {}
        }
    }

    /// On floor positions only, `keep_floor` keeps everything.
    pub proof fn lemma_keep_all_floor(&self, s: Seq<Position>)
        requires
            forall|i: int| 0 <= i < s.len() ==> self.is_floor(#[trigger] s[i]),
        ensures
            self.keep_floor(s) == s,
        decreases s.len(),
    {
        if s.len() > 0 {
            self.lemma_keep_all_floor(s.drop_last());
            assert(s.drop_last().push(s.last()) == s);
        }
    }

    /// The grid wraps around: on an all-floor grid the corner `(0, 0)` has
    /// `(width - 1, 0)` and `(0, height - 1)` among its neighbours.
    pub proof fn lemma_wrap_at_origin(&self)
        requires
            self.wf(),
            forall|p: Position| self.in_bounds(p) ==> #[trigger] self.is_floor(p),
        ensures
            self.neighbors_of((0, 0)).contains(((self.width() - 1) as isize, 0)),
            self.neighbors_of((0, 0)).contains((0, (self.height() - 1) as isize)),
    {
        let adj = self.adjacent((0, 0));
        assert forall|i: int| 0 <= i < adj.len() implies self.is_floor(#[trigger] adj[i]) by {
            assert(self.in_bounds(adj[i]));
        }
        self.lemma_keep_all_floor(adj);
        assert(adj[0] == ((self.width() - 1) as isize, 0isize));
        assert(adj[1] == (0isize, (self.height() - 1) as isize));
    }

    pub fn new(dim: (isize, isize), grid: Vec<CellType>) -> (r: Self)
        requires
            dim.0 > 0,
            dim.1 > 0,
            dim.0 * dim.1 == grid@.len(),
            dim.0 * dim.1 <= isize::MAX,
        ensures
            r.wf(),
            r.dim == dim,
            r.grid@ == grid@,
            r.pacs@.len() == 0,
            r.pellets@.len() == 0,
            r.turn == 0,
            r.turn_start.is_none(),
            r.my_score == 0,
            r.opp_score == 0,
    {
        WorldModel {
            dim,
            grid,
            pacs: Vec::new(),
            pellets: Vec::new(),
            turn: 0,
            turn_start: None,
            my_score: 0,
            opp_score: 0,
        }
    }

    /// Builds the maze from its rows, top row first, `#` for a wall and a
    /// space for floor. Every row must hold exactly `width` markers and
    /// there must be `height` rows.
    pub fn from_rows(width: isize, height: isize, rows: &Vec<Vec<u8>>) -> (r: Result<Self, LoadError>)
        ensures
            r.is_ok() == rows_valid(width as int, height as int, rows@.map_values(|v: Vec<u8>| v@)),
            r matches Ok(wm) ==> {
                &&& wm.wf()
                &&& wm.dim == (width, height)
                &&& wm.pacs@.len() == 0
                &&& wm.pellets@.len() == 0
                &&& wm.turn == 0
                &&& wm.turn_start.is_none()
                &&& forall|x: isize, y: isize|
                    0 <= x < width && 0 <= y < height ==> Some(#[trigger] wm.cell((x, y)))
                        == cell_of_byte(rows@[y as int]@[x as int])
            },
            r matches Err(e) ==> match e {
                LoadError::BadDimensions => width <= 0 || height <= 0 || width * height > isize::MAX
                    || rows@.len() != height,
                LoadError::BadRowLength(y) => y < rows@.len() && rows@[y as int]@.len() != width,
                LoadError::UnknownCell(y, x) => y < rows@.len() && x < rows@[y as int]@.len()
                    && cell_of_byte(rows@[y as int]@[x as int]).is_none(),
            },
    {
        let ghost rs = rows@.map_values(|v: Vec<u8>| v@);
        if width <= 0 || height <= 0 || width > isize::MAX / height {
            proof {
                if width > 0 && height > 0 {
                    assert(width * height > isize::MAX) by (nonlinear_arith)
                        requires
                            width > 0,
                            height > 0,
                            width > isize::MAX / height,
                    ;
                }
            }
            return Err(LoadError::BadDimensions);
        }
        assert(width * height <= isize::MAX) by (nonlinear_arith)
            requires
                width > 0,
                height > 0,
                width <= isize::MAX / height,
        ;
        if rows.len() != height as usize {
            return Err(LoadError::BadDimensions);
        }
        let mut grid: Vec<CellType> = Vec::new();
        let mut y: usize = 0;
        while y < rows.len()
            invariant
                rs == rows@.map_values(|v: Vec<u8>| v@),
                width > 0,
                height > 0,
                width * height <= isize::MAX,
                rows@.len() == height,
                0 <= y <= rows@.len(),
                grid@.len() == y * width,
                forall|yy: int| 0 <= yy < y ==> #[trigger] rs[yy].len() == width,
                forall|yy: int, x: int|
                    0 <= yy < y && 0 <= x < width ==> (#[trigger] cell_of_byte(rs[yy][x])).is_some(),
                forall|yy: int, x: int|
                    0 <= yy < y && 0 <= x < width ==> Some(#[trigger] grid@[yy * width + x])
                        == cell_of_byte(rs[yy][x]),
            decreases rows@.len() - y,
        {
            let row = &rows[y];
            if row.len() != width as usize {
                return Err(LoadError::BadRowLength(y));
            }
            assert(y * width + width <= width * height) by (nonlinear_arith)
                requires
                    y < height,
                    width > 0,
            ;
            let ghost g0 = grid@;
            let mut x: usize = 0;
            while x < row.len()
                invariant
                    rs == rows@.map_values(|v: Vec<u8>| v@),
                    width > 0,
                    y < rows@.len(),
                    row@ == rs[y as int],
                    row@.len() == width,
                    y * width + width <= isize::MAX,
                    0 <= x <= width,
                    grid@.len() == y * width + x,
                    grid@.subrange(0, y * width) == g0,
                    forall|xx: int| 0 <= xx < x ==> (#[trigger] cell_of_byte(rs[y as int][xx])).is_some(),
                    forall|xx: int| 0 <= xx < x ==> Some(#[trigger] grid@[y * width + xx])
                        == cell_of_byte(rs[y as int][xx]),
                decreases width - x,
            {
                match CellType::try_from(row[x]) {
                    Some(c) => {
                        grid.push(c);
                        assert(grid@.subrange(0, y * width) == g0);
                    },
                    None => {
                        return Err(LoadError::UnknownCell(y, x));
                    },
                }
                x = x + 1;
            }
            proof {
                assert forall|yy: int, xx: int|
                    0 <= yy < y + 1 && 0 <= xx < width implies Some(#[trigger] grid@[yy * width + xx])
                        == cell_of_byte(rs[yy][xx]) by {
                    if yy < y {
                        assert(yy * width + xx < y * width) by (nonlinear_arith)
                            requires
                                yy + 1 <= y,
                                0 <= xx < width,
                        ;
                        assert(grid@[yy * width + xx] == g0[yy * width + xx]);
                    }
                }
                assert((y + 1) * width == y * width + width) by (nonlinear_arith);
            }
            y = y + 1;
        }
        assert(y * width == width * height) by (nonlinear_arith)
            requires
                y == height,
        ;
        let wm = WorldModel::new((width, height), grid);
        proof {
            assert forall|x: isize, yy: isize|
                0 <= x < width && 0 <= yy < height implies Some(#[trigger] wm.cell((x, yy)))
                    == cell_of_byte(rows@[yy as int]@[x as int]) by {
                assert(Some(grid@[yy * width + x]) == cell_of_byte(rs[yy as int][x as int]));
            }
        }
        Ok(wm)
    }

    /// Takes in one turn: the scores, the units in sight (each tracked unit
    /// seen again has its properties replaced, a new one is added, units out
    /// of sight keep their last known state), and the pellets in sight, which
    /// replace all earlier ones. Advances the turn counter and records `now`
    /// as the turn's start.
    pub fn apply_turn(
        &mut self,
        my_score: i32,
        opp_score: i32,
        seen: &Vec<PacSighting>,
        pellets: Vec<Pellet>,
        now: u64,
    )
        requires
            old(self).wf(),
            old(self).turn < u32::MAX,
        ensures
            final(self).wf(),
            final(self).turn == old(self).turn + 1,
            final(self).turn_start == Some(now),
            final(self).my_score == my_score,
            final(self).opp_score == opp_score,
            final(self).dim == old(self).dim,
            final(self).grid@ == old(self).grid@,
            final(self).pacs@ == after_sightings(old(self).pacs@, seen@),
            forall|q: Position|
                #[trigger] final(self).pellet_lookup(q) == find_pellet(pellets@, q),
    {
        self.turn_start = Some(now);
        self.turn = self.turn + 1;
        self.my_score = my_score;
        self.opp_score = opp_score;
        let ghost pacs0 = self.pacs@;
        let mut i: usize = 0;
        while i < seen.len()
            invariant
                self.wf(),
                0 <= i <= seen@.len(),
                self.pacs@ == after_sightings(pacs0, seen@.subrange(0, i as int)),
                self.turn == old(self).turn + 1,
                self.turn_start == Some(now),
                self.my_score == my_score,
                self.opp_score == opp_score,
                self.dim == old(self).dim,
                self.grid@ == old(self).grid@,
            decreases seen@.len() - i,
        {
            let u = seen[i];
            let team = if u.mine { Team::Us } else { Team::Opp };
            self.upsert_unit(team, u.id, u.prop);
            assert(seen@.subrange(0, i as int + 1).drop_last() == seen@.subrange(0, i as int));
            i = i + 1;
        }
        assert(seen@.subrange(0, seen@.len() as int) == seen@);
        self.replace_pellets(pellets);
    }

    pub fn in_maze(&self, pos: Position) -> (r: bool)
        ensures
            r == self.in_bounds(pos),
    {
        0 <= pos.0 && pos.0 < self.dim.0 && 0 <= pos.1 && pos.1 < self.dim.1
    }

    pub(crate) fn flat_index(&self, pos: Position) -> (r: usize)
        requires
            self.wf(),
            self.in_bounds(pos),
        ensures
            r == self.flat(pos),
            r < self.grid@.len(),
    {
        proof {
            self.lemma_flat_in_range(pos);
        }
        (pos.1 * self.dim.0 + pos.0) as usize
    }

    /// The kind of the cell at `pos`.
    pub fn kind(&self, pos: Position) -> (r: &CellType)
        requires
            self.wf(),
            self.in_bounds(pos),
        ensures
            *r == self.cell(pos),
    {
        let i = self.flat_index(pos);
        &self.grid[i]
    }

    /// Positions reachable from `pos` in one move: the adjacent cells, wrapped
    /// around the edges, that are floor, in the order left, up, right, down.
    pub fn neighbors(&self, pos: Position) -> (r: Vec<Position>)
        requires
            self.wf(),
            self.in_bounds(pos),
        ensures
            r@ == self.neighbors_of(pos),
    {
        let w = self.dim.0;
        let h = self.dim.1;
        let left = if pos.0 == 0 { w - 1 } else { pos.0 - 1 };
        let up = if pos.1 == 0 { h - 1 } else { pos.1 - 1 };
        let right = if pos.0 + 1 == w { 0 } else { pos.0 + 1 };
        let down = if pos.1 + 1 == h { 0 } else { pos.1 + 1 };
        let candidates: [Position; 4] = [(left, pos.1), (pos.0, up), (right, pos.1), (pos.0, down)];
        let ghost adj = self.adjacent(pos);
        assert(candidates@ == adj);
        let mut out: Vec<Position> = Vec::new();
        let mut i: usize = 0;
        while i < 4
            invariant
                self.wf(),
                candidates@ == adj,
                adj == self.adjacent(pos),
                self.in_bounds(pos),
                0 <= i <= 4,
                out@ == self.keep_floor(adj.subrange(0, i as int)),
            decreases 4 - i,
        {
            let c = candidates[i];
            assert(self.in_bounds(c));
            assert(adj.subrange(0, i as int + 1).drop_last() == adj.subrange(0, i as int));
            let k = self.kind(c);
            if *k == CellType::Floor {
                out.push(c);
            }
            i = i + 1;
        }
        assert(adj.subrange(0, 4) == adj);
        out
    }

    pub fn turn(&self) -> (r: u32)
        ensures
            r == self.turn,
    {
        self.turn
    }

    /// When the current turn began, in microseconds on the caller's clock;
    /// `None` before the first turn.
    pub fn turn_start(&self) -> (r: Option<u64>)
        ensures
            r == self.turn_start,
    {
        self.turn_start
    }
}

} // verus!

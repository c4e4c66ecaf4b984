//! Board rules for the 8x8 game: tiles, coordinates, the bit-packed board,
//! move legality, game end, winner determination and position enumeration.
use vstd::prelude::*;

verus! {

/// One side of the game, or an empty square. `Empty` doubles as the
/// "drawn" outcome when used as a winner tag.
#[derive(Debug, Clone, Copy, PartialEq, Eq, Hash, Structural)]
pub enum Tile {
    X,
    O,
    Empty,
}

/// Relation of one tile to another, as seen from a match outcome:
/// the same side, the opposing side, or neither (a draw).
#[derive(Debug, Clone, Copy, PartialEq, Eq, Structural)]
pub enum Relation {
    Same,
    Opponent,
    Neutral,
}

impl Tile {
    /// The two-bit encoding of a tile inside the packed board word.
    pub open spec fn bits_spec(self) -> u128 {
        match self {
            Tile::Empty => 0,
            Tile::X => 1,
            Tile::O => 2,
        }
    }

    /// The tile encoded by the two-bit value `b` (3 encodes nothing).
    pub open spec fn from_bits_spec(b: u128) -> Tile {
        if b == 1 {
            Tile::X
        } else if b == 2 {
            Tile::O
        } else {
            Tile::Empty
        }
    }

    fn bits(self) -> (b: u128)
        ensures
            b == self.bits_spec(),
    {
        match self {
            Tile::Empty => 0,
            Tile::X => 1,
            Tile::O => 2,
        }
    }

    /// The side opposing `self`.
    pub open spec fn opponent_spec(self) -> Tile
        recommends
            self != Tile::Empty,
    {
        match self {
            Tile::X => Tile::O,
            Tile::O => Tile::X,
            Tile::Empty => Tile::Empty,
        }
    }

    /// The side opposing `self`; only the two player tiles have one.
    pub fn opponent(&self) -> (t: Tile)
        requires
            *self != Tile::Empty,
        ensures
            t == self.opponent_spec(),
    {
        match self {
            Tile::X => Tile::O,
            Tile::O => Tile::X,
            Tile::Empty => Tile::Empty,
        }
    }

    /// The two player tiles in turn order.
    pub fn opponent_iter() -> (r: Vec<Tile>)
        ensures
            r@ == seq![Tile::X, Tile::O],
    {
        let mut v: Vec<Tile> = Vec::new();
        v.push(Tile::X);
        v.push(Tile::O);
        proof {
            assert(v@ =~= seq![Tile::X, Tile::O]);
        }
        v
    }
}

/// A board coordinate: column `x` and row `y`, both `0..8` when on the board.
#[derive(Debug, Clone, Copy, PartialEq, Eq, Hash, Structural)]
pub struct Vec2 {
    pub x: isize,
    pub y: isize,
}

impl Vec2 {
    pub fn new(x: isize, y: isize) -> (v: Vec2)
        ensures
            v.x == x && v.y == y,
    {
        Vec2 { x, y }
    }

    /// Both coordinates within `0..8`.
    pub open spec fn in_board_spec(self) -> bool {
        0 <= self.x < 8 && 0 <= self.y < 8
    }

    pub fn is_in_board(&self) -> (r: bool)
        ensures
            r == self.in_board_spec(),
    {
        0 <= self.x && self.x < 8 && 0 <= self.y && self.y < 8
    }

    /// The coordinate for flat cell index `i` (column-major).
    pub open spec fn cell_spec(i: int) -> Vec2 {
        Vec2 { x: (i / 8) as isize, y: (i % 8) as isize }
    }

    /// All 64 board coordinates, in flat index order.
    pub fn board_iter() -> (r: Vec<Vec2>)
        ensures
            r@.len() == 64,
            forall|i: int| 0 <= i < 64 ==> r@[i] == #[trigger] Vec2::cell_spec(i),
    {
        let mut v: Vec<Vec2> = Vec::new();
        let mut i: usize = 0;
        while i < 64
            invariant
                i <= 64,
                v@.len() == i,
                forall|k: int| 0 <= k < i ==> v@[k] == #[trigger] Vec2::cell_spec(k),
            decreases 64 - i,
        {
            v.push(Vec2 { x: (i / 8) as isize, y: (i % 8) as isize });
            i += 1;
        }
        v
    }
}

/// The flat cell index of an on-board coordinate.
pub open spec fn raw_place_spec(v: Vec2) -> int {
    v.x * 8 + v.y
}

/// The 8x8 board, two bits per square packed into one word.
#[derive(Debug, Clone, Copy, PartialEq, Eq, Hash, Structural)]
pub struct Board {
    state: u128,
}

impl Board {
    /// The raw two-bit value of flat cell `i`.
    pub closed spec fn cell_bits(self, i: int) -> u128 {
        (self.state >> ((2 * i) as u128)) & 3
    }

    /// Every cell holds a meaningful tile encoding.
    pub open spec fn wf(self) -> bool {
        forall|i: int| 0 <= i < 64 ==> #[trigger] self.cell_bits(i) != 3
    }

    /// The tile on the square with coordinates `(x, y)`.
    pub open spec fn at(self, x: int, y: int) -> Tile {
        Tile::from_bits_spec(self.cell_bits(x * 8 + y))
    }

    /// The tile at coordinate `v`.
    pub open spec fn get_spec(self, v: Vec2) -> Tile {
        self.at(v.x as int, v.y as int)
    }

    /// A board with every square empty.
    pub fn empty() -> (b: Board)
        ensures
            b.wf(),
            forall|x: int, y: int| 0 <= x < 8 && 0 <= y < 8 ==> #[trigger] b.at(x, y) == Tile::Empty,
    {
        let b = Board { state: 0 };
        proof {
            assert forall|i: int| 0 <= i < 64 implies #[trigger] b.cell_bits(i) == 0 by {
                let sh = (2 * i) as u128;
                assert((0u128 >> sh) & 3 == 0) by (bit_vector);
            }
        }
        b
    }

    pub fn get(&self, pos: Vec2) -> (t: Tile)
        requires
            self.wf(),
            pos.in_board_spec(),
        ensures
            t == self.get_spec(pos),
    {
        let place: usize = (pos.x * 8 + pos.y) as usize;
        let bits = (self.state >> ((2 * place) as u128)) & 3;
        assert(bits == self.cell_bits(place as int));
        assert(bits != 3);
        if bits == 1 {
            Tile::X
        } else if bits == 2 {
            Tile::O
        } else {
            Tile::Empty
        }
    }

    pub fn set(&mut self, pos: Vec2, tile: Tile)
        requires
            old(self).wf(),
            pos.in_board_spec(),
        ensures
            final(self).wf(),
            final(self).get_spec(pos) == tile,
            forall|x: int, y: int|
                0 <= x < 8 && 0 <= y < 8 && !(x == pos.x as int && y == pos.y as int)
                    ==> #[trigger] final(self).at(x, y) == old(self).at(x, y),
    {
        let place: usize = (pos.x * 8 + pos.y) as usize;
        let sh: u128 = (2 * place) as u128;
        let t = tile.bits();
        let ghost s0 = self.state;
        self.state = (self.state & !(3u128 << sh)) | (t << sh);
        proof {
            let p = place as int;
            lemma_two_bit_set(s0, self.state, p, t);
            assert(self.cell_bits(p) == t);
            assert forall|i: int| 0 <= i < 64 && i != p implies #[trigger] self.cell_bits(i)
                == Board { state: s0 }.cell_bits(i) by {
                lemma_two_bit_other(s0, self.state, p, t, i);
            }
            assert forall|x: int, y: int|
                0 <= x < 8 && 0 <= y < 8 && !(x == pos.x as int && y == pos.y as int) implies #[trigger] self
                .at(x, y) == old(self).at(x, y) by {
                let idx = x * 8 + y;
                assert(0 <= idx < 64);
                if idx == p {
                    lemma_raw_place_injective(x, y, pos.x as int, pos.y as int);
                }
            }
        }
    }
}

/// After a two-bit write at cell `p`, the written cell reads back `t`.
proof fn lemma_two_bit_set(s0: u128, s1: u128, p: int, t: u128)
    requires
        0 <= p < 64,
        t <= 2,
        s1 == (s0 & !(3u128 << ((2 * p) as u128))) | (t << ((2 * p) as u128)),
    ensures
        (s1 >> ((2 * p) as u128)) & 3 == t,
{
    let sh = (2 * p) as u128;
    assert(sh <= 126);
    assert forall|a: u128, b: u128, x: u128|
        b <= 126 && x <= 2 implies ((((a & !(3u128 << b)) | (x << b)) >> b) & 3) == x by {
        assert(b <= 126 && x <= 2 ==> ((((a & !(3u128 << b)) | (x << b)) >> b) & 3) == x)
            by (bit_vector);
    }
}

/// A two-bit write at cell `p` leaves every other cell's bits unchanged.
proof fn lemma_two_bit_other(s0: u128, s1: u128, p: int, t: u128, i: int)
    requires
        0 <= p < 64,
        0 <= i < 64,
        i != p,
        t <= 2,
        s1 == (s0 & !(3u128 << ((2 * p) as u128))) | (t << ((2 * p) as u128)),
    ensures
        (s1 >> ((2 * i) as u128)) & 3 == (s0 >> ((2 * i) as u128)) & 3,
{
    let b = (2 * p) as u128;
    let c = (2 * i) as u128;
    assert(b <= 126 && c <= 126 && b % 2 == 0 && c % 2 == 0 && b != c);
    assert forall|a: u128, x: u128|
        x <= 2 implies ((((a & !(3u128 << b)) | (x << b)) >> c) & 3) == ((a >> c) & 3) by {
        assert(b <= 126 && c <= 126 && b % 2 == 0 && c % 2 == 0 && b != c && x <= 2 ==> ((((a
            & !(3u128 << b)) | (x << b)) >> c) & 3) == ((a >> c) & 3)) by (bit_vector);
    }
}

/// Distinct on-board coordinates have distinct flat indices.
proof fn lemma_raw_place_injective(x1: int, y1: int, x2: int, y2: int)
    requires
        0 <= x1 < 8,
        0 <= y1 < 8,
        0 <= x2 < 8,
        0 <= y2 < 8,
        x1 * 8 + y1 == x2 * 8 + y2,
    ensures
        x1 == x2 && y1 == y2,
{
}

/// A unit direction: both components in `-1..=1`, not both zero.
pub open spec fn is_dir(d: Vec2) -> bool {
    -1 <= d.x <= 1 && -1 <= d.y <= 1 && !(d.x == 0 && d.y == 0)
}

/// The `k`-th of the eight unit directions.
pub open spec fn dir_spec(k: int) -> Vec2 {
    if k == 0 {
        Vec2 { x: -1isize, y: -1isize }
    } else if k == 1 {
        Vec2 { x: -1isize, y: 0isize }
    } else if k == 2 {
        Vec2 { x: -1isize, y: 1isize }
    } else if k == 3 {
        Vec2 { x: 0isize, y: -1isize }
    } else if k == 4 {
        Vec2 { x: 0isize, y: 1isize }
    } else if k == 5 {
        Vec2 { x: 1isize, y: -1isize }
    } else if k == 6 {
        Vec2 { x: 1isize, y: 0isize }
    } else {
        Vec2 { x: 1isize, y: 1isize }
    }
}

/// The eight unit directions, in a fixed scan order.
fn dirs() -> (r: Vec<Vec2>)
    ensures
        r@.len() == 8,
        forall|k: int| 0 <= k < 8 ==> r@[k] == #[trigger] dir_spec(k),
{
    let mut v: Vec<Vec2> = Vec::new();
    v.push(Vec2 { x: -1, y: -1 });
    v.push(Vec2 { x: -1, y: 0 });
    v.push(Vec2 { x: -1, y: 1 });
    v.push(Vec2 { x: 0, y: -1 });
    v.push(Vec2 { x: 0, y: 1 });
    v.push(Vec2 { x: 1, y: -1 });
    v.push(Vec2 { x: 1, y: 0 });
    v.push(Vec2 { x: 1, y: 1 });
    v
}

/// The square `j` steps from `mv` in direction `d`, as unbounded coordinates.
pub open spec fn step_spec(mv: Vec2, d: Vec2, j: int) -> (int, int) {
    (mv.x + j * d.x, mv.y + j * d.y)
}

/// Unbounded coordinates that land on the board.
pub open spec fn on_board(c: (int, int)) -> bool {
    0 <= c.0 < 8 && 0 <= c.1 < 8
}

/// The square `j` steps from `mv` in direction `d`.
fn step_cell(mv: Vec2, d: Vec2, j: usize) -> (v: Vec2)
    requires
        mv.in_board_spec(),
        is_dir(d),
        j <= 16,
    ensures
        v.x as int == step_spec(mv, d, j as int).0,
        v.y as int == step_spec(mv, d, j as int).1,
{
    let x = if d.x == 1 {
        mv.x + j as isize
    } else if d.x == -1 {
        mv.x - j as isize
    } else {
        mv.x
    };
    let y = if d.y == 1 {
        mv.y + j as isize
    } else if d.y == -1 {
        mv.y - j as isize
    } else {
        mv.y
    };
    proof {
        lemma_unit_mul(j as int, d.x as int);
        lemma_unit_mul(j as int, d.y as int);
    }
    Vec2 { x, y }
}

/// Multiplication by a unit factor.
proof fn lemma_unit_mul(j: int, c: int)
    requires
        -1 <= c <= 1,
    ensures
        c == 1 ==> j * c == j,
        c == -1 ==> j * c == -j,
        c == 0 ==> j * c == 0,
{
    assert(j * 1 == j) by (nonlinear_arith);
    assert(j * -1 == -j) by (nonlinear_arith);
    assert(j * 0 == 0) by (nonlinear_arith);
}

/// A ray starting on the board leaves it within seven steps.
proof fn lemma_ray_leaves_board(mv: Vec2, d: Vec2, i: int)
    requires
        mv.in_board_spec(),
        is_dir(d),
        i >= 1,
        on_board(step_spec(mv, d, i)),
    ensures
        i <= 7,
{
    if d.x != 0 {
        lemma_unit_mul(i, d.x as int);
    } else {
        lemma_unit_mul(i, d.y as int);
    }
}

/// Rays from one origin in distinct directions share no square but the origin.
proof fn lemma_rays_disjoint(mv: Vec2, d1: Vec2, d2: Vec2, i: int, j: int)
    requires
        is_dir(d1),
        is_dir(d2),
        d1 != d2,
        i >= 1,
        j >= 1,
    ensures
        step_spec(mv, d1, i) != step_spec(mv, d2, j),
{
    lemma_unit_mul(i, d1.x as int);
    lemma_unit_mul(j, d2.x as int);
    lemma_unit_mul(i, d1.y as int);
    lemma_unit_mul(j, d2.y as int);
}

/// No step along a ray returns to the origin.
proof fn lemma_ray_avoids_origin(mv: Vec2, d: Vec2, j: int)
    requires
        is_dir(d),
        j >= 1,
    ensures
        step_spec(mv, d, j) != (mv.x as int, mv.y as int),
{
    lemma_unit_mul(j, d.x as int);
    lemma_unit_mul(j, d.y as int);
}

/// `n` opposing tiles from `mv` along `d`, bracketed by one of `player`'s own.
pub open spec fn captures_to(b: Board, player: Tile, mv: Vec2, d: Vec2, n: int) -> bool {
    &&& player != Tile::Empty
    &&& n >= 1
    &&& forall|j: int|
        1 <= j <= n ==> on_board(#[trigger] step_spec(mv, d, j)) && b.at(
            step_spec(mv, d, j).0,
            step_spec(mv, d, j).1,
        ) == player.opponent_spec()
    &&& on_board(step_spec(mv, d, n + 1))
    &&& b.at(step_spec(mv, d, n + 1).0, step_spec(mv, d, n + 1).1) == player
}

/// How many of the opponent's tiles a move at `mv` would flip along `d`.
pub open spec fn capture_count(b: Board, player: Tile, mv: Vec2, d: Vec2) -> int {
    if exists|n: int| captures_to(b, player, mv, d, n) {
        choose|n: int| captures_to(b, player, mv, d, n)
    } else {
        0
    }
}

/// The capture length along a direction is unique.
proof fn lemma_captures_unique(b: Board, player: Tile, mv: Vec2, d: Vec2, n1: int, n2: int)
    requires
        captures_to(b, player, mv, d, n1),
        captures_to(b, player, mv, d, n2),
    ensures
        n1 == n2,
{
    if n1 < n2 {
        assert(b.at(step_spec(mv, d, n1 + 1).0, step_spec(mv, d, n1 + 1).1) == player);
        assert(1 <= n1 + 1 <= n2);
    } else if n2 < n1 {
        assert(b.at(step_spec(mv, d, n2 + 1).0, step_spec(mv, d, n2 + 1).1) == player);
        assert(1 <= n2 + 1 <= n1);
    }
}

/// Capture counts agree on boards that agree along the ray.
proof fn lemma_capture_frame(b1: Board, b2: Board, player: Tile, mv: Vec2, d: Vec2)
    requires
        forall|j: int|
            j >= 1 && on_board(#[trigger] step_spec(mv, d, j)) ==> b1.at(
                step_spec(mv, d, j).0,
                step_spec(mv, d, j).1,
            ) == b2.at(step_spec(mv, d, j).0, step_spec(mv, d, j).1),
    ensures
        capture_count(b1, player, mv, d) == capture_count(b2, player, mv, d),
{
    assert forall|n: int| #[trigger] captures_to(b1, player, mv, d, n) implies captures_to(
        b2,
        player,
        mv,
        d,
        n,
    ) by {
        assert forall|j: int| 1 <= j <= n implies on_board(#[trigger] step_spec(mv, d, j)) && b2.at(
            step_spec(mv, d, j).0,
            step_spec(mv, d, j).1,
        ) == player.opponent_spec() by {
            assert(on_board(step_spec(mv, d, j)));
        }
    }
    assert forall|n: int| #[trigger] captures_to(b2, player, mv, d, n) implies captures_to(
        b1,
        player,
        mv,
        d,
        n,
    ) by {
        assert forall|j: int| 1 <= j <= n implies on_board(#[trigger] step_spec(mv, d, j)) && b1.at(
            step_spec(mv, d, j).0,
            step_spec(mv, d, j).1,
        ) == player.opponent_spec() by {
            assert(on_board(step_spec(mv, d, j)));
        }
    }
    if exists|n: int| captures_to(b1, player, mv, d, n) {
        let n1 = choose|n: int| captures_to(b1, player, mv, d, n);
        let n2 = choose|n: int| captures_to(b2, player, mv, d, n);
        assert(captures_to(b2, player, mv, d, n1));
        lemma_captures_unique(b2, player, mv, d, n1, n2);
    } else {
        assert(!exists|n: int| captures_to(b2, player, mv, d, n));
    }
}

impl Board {
    /// Length of the capture run from `mv` along `d` for `player`,
    /// or zero when the run is not bracketed by one of `player`'s tiles.
    fn scan_dir(&self, player: Tile, mv: Vec2, d: Vec2) -> (n: usize)
        requires
            self.wf(),
            player != Tile::Empty,
            mv.in_board_spec(),
            is_dir(d),
        ensures
            n as int == capture_count(*self, player, mv, d),
            n <= 7,
    {
        let opp = player.opponent();
        let mut j: usize = 1;
        #[verifier::loop_isolation(true)]
        loop
            invariant
                self.wf(),
                player != Tile::Empty,
                mv.in_board_spec(),
                is_dir(d),
                opp == player.opponent_spec(),
                1 <= j <= 8,
                forall|i: int|
                    1 <= i < j ==> on_board(#[trigger] step_spec(mv, d, i)) && self.at(
                        step_spec(mv, d, i).0,
                        step_spec(mv, d, i).1,
                    ) == player.opponent_spec(),
            ensures
                1 <= j <= 8,
                forall|i: int|
                    1 <= i < j ==> on_board(#[trigger] step_spec(mv, d, i)) && self.at(
                        step_spec(mv, d, i).0,
                        step_spec(mv, d, i).1,
                    ) == player.opponent_spec(),
                !(on_board(step_spec(mv, d, j as int)) && self.at(
                    step_spec(mv, d, j as int).0,
                    step_spec(mv, d, j as int).1,
                ) == player.opponent_spec()),
            decreases 8 - j,
        {
            let cur = step_cell(mv, d, j);
            if !cur.is_in_board() {
                break ;
            }
            if !(self.get(cur) == opp) {
                break ;
            }
            proof {
                lemma_ray_leaves_board(mv, d, j as int);
            }
            j += 1;
        }
        let cur = step_cell(mv, d, j);
        if j > 1 && cur.is_in_board() && self.get(cur) == player {
            proof {
                assert(captures_to(*self, player, mv, d, j - 1));
                let nn = choose|n: int| captures_to(*self, player, mv, d, n);
                lemma_captures_unique(*self, player, mv, d, nn, j - 1);
            }
            j - 1
        } else {
            proof {
                if exists|n: int| captures_to(*self, player, mv, d, n) {
                    let n = choose|n: int| captures_to(*self, player, mv, d, n);
                    if n + 1 < j {
                        assert(self.at(step_spec(mv, d, n + 1).0, step_spec(mv, d, n + 1).1)
                            == player.opponent_spec());
                        assert(player.opponent_spec() != player);
                        assert(false);
                    } else if n + 1 == j {
                        assert(on_board(step_spec(mv, d, j as int)));
                        assert(false);
                    } else {
                        assert(1 <= j <= n);
                        assert(on_board(step_spec(mv, d, j as int)));
                        assert(false);
                    }
                }
            }
            0
        }
    }

    /// Turn the first `n` squares from `mv` along `d` over to `player`.
    fn flip_ray(&mut self, player: Tile, mv: Vec2, d: Vec2, n: usize)
        requires
            old(self).wf(),
            player != Tile::Empty,
            mv.in_board_spec(),
            is_dir(d),
            n <= 7,
            forall|jj: int| 1 <= jj <= n ==> on_board(#[trigger] step_spec(mv, d, jj)),
        ensures
            final(self).wf(),
            forall|x: int, y: int|
                0 <= x < 8 && 0 <= y < 8 ==> #[trigger] final(self).at(x, y) == (if (exists|jj: int|
                    1 <= jj <= n && step_spec(mv, d, jj) == (x, y)
                ) {
                    player
                } else {
                    old(self).at(x, y)
                }),
    {
        let mut j: usize = 1;
        while j <= n
            invariant
                1 <= j <= n + 1,
                self.wf(),
                forall|x: int, y: int|
                    0 <= x < 8 && 0 <= y < 8 ==> #[trigger] self.at(x, y) == (if (exists|jj: int|
                        1 <= jj < j && step_spec(mv, d, jj) == (x, y)
                    ) {
                        player
                    } else {
                        old(self).at(x, y)
                    }),
            decreases n + 1 - j,
        {
            let cur = step_cell(mv, d, j);
            let ghost prev = *self;
            self.set(cur, player);
            proof {
                assert forall|x: int, y: int| 0 <= x < 8 && 0 <= y < 8 implies #[trigger] self.at(
                    x,
                    y,
                ) == (if (exists|jj: int| 1 <= jj < j + 1 && step_spec(mv, d, jj) == (x, y)) {
                    player
                } else {
                    old(self).at(x, y)
                }) by {
                    if x == cur.x as int && y == cur.y as int {
                        assert(step_spec(mv, d, j as int) == (x, y));
                        assert(self.get_spec(cur) == player);
                    } else {
                        assert(self.at(x, y) == prev.at(x, y));
                        assert forall|jj: int|
                            1 <= jj < j + 1 && step_spec(mv, d, jj) == (x, y) implies 1 <= jj
                            < j by {
                            if jj == j {
                                assert(step_spec(mv, d, jj) == (cur.x as int, cur.y as int));
                            }
                        }
                    }
                }
            }
            j += 1;
        }
    }
}

/// Some direction captures at least one tile for a move at `mv`.
pub open spec fn has_capture(b: Board, player: Tile, mv: Vec2) -> bool {
    exists|k: int| 0 <= k < 8 && capture_count(b, player, mv, dir_spec(k)) > 0
}

/// `(x, y)` lies on the capture run of one of the first `kmax` directions.
pub open spec fn flipped_cell(b: Board, player: Tile, mv: Vec2, x: int, y: int, kmax: int) -> bool {
    exists|k: int, j: int|
        0 <= k < kmax && 1 <= j <= capture_count(b, player, mv, dir_spec(k)) && step_spec(
            mv,
            dir_spec(k),
            j,
        ) == (x, y)
}

/// What a move by `player` at `mv` leaves on square `(x, y)`.
pub open spec fn place_cell_spec(b: Board, player: Tile, mv: Vec2, x: int, y: int) -> Tile {
    if x == mv.x as int && y == mv.y as int {
        player
    } else if flipped_cell(b, player, mv, x, y, 8) {
        player
    } else {
        b.at(x, y)
    }
}

/// Splitting a flipped-cell witness at the last direction considered.
proof fn lemma_flip_decompose(b: Board, player: Tile, mv: Vec2, x: int, y: int, k: int)
    requires
        0 <= k < 8,
    ensures
        flipped_cell(b, player, mv, x, y, k + 1) <==> (flipped_cell(b, player, mv, x, y, k) || (
        exists|j: int|
            1 <= j <= capture_count(b, player, mv, dir_spec(k)) && step_spec(mv, dir_spec(k), j) == (
            x,
            y,
            ))),
{
    if flipped_cell(b, player, mv, x, y, k + 1) {
        let (k2, j2) = choose|k2: int, j2: int|
            0 <= k2 < k + 1 && 1 <= j2 <= capture_count(b, player, mv, dir_spec(k2)) && step_spec(
                mv,
                dir_spec(k2),
                j2,
            ) == (x, y);
        if k2 < k {
            assert(flipped_cell(b, player, mv, x, y, k));
        } else {
            assert(1 <= j2 <= capture_count(b, player, mv, dir_spec(k)) && step_spec(
                mv,
                dir_spec(k),
                j2,
            ) == (x, y));
        }
    }
    if flipped_cell(b, player, mv, x, y, k) {
        let (k2, j2) = choose|k2: int, j2: int|
            0 <= k2 < k && 1 <= j2 <= capture_count(b, player, mv, dir_spec(k2)) && step_spec(
                mv,
                dir_spec(k2),
                j2,
            ) == (x, y);
        assert(0 <= k2 < k + 1 && 1 <= j2 <= capture_count(b, player, mv, dir_spec(k2))
            && step_spec(mv, dir_spec(k2), j2) == (x, y));
    }
    if exists|j: int|
        1 <= j <= capture_count(b, player, mv, dir_spec(k)) && step_spec(mv, dir_spec(k), j) == (
        x,
        y,
        ) {
        let j2 = choose|j: int|
            1 <= j <= capture_count(b, player, mv, dir_spec(k)) && step_spec(mv, dir_spec(k), j)
                == (x, y);
        assert(0 <= k < k + 1 && 1 <= j2 <= capture_count(b, player, mv, dir_spec(k)) && step_spec(
            mv,
            dir_spec(k),
            j2,
        ) == (x, y));
    }
}

/// A board position: the squares and whose turn it is.
#[derive(Debug, Clone, Copy, PartialEq, Eq, Hash, Structural)]
pub struct Pos {
    pub board: Board,
    pub next_player: Tile,
}

impl Pos {
    /// The board is consistent and some player is to move.
    pub open spec fn wf(self) -> bool {
        self.board.wf() && self.next_player != Tile::Empty
    }

    /// The standard opening position with `X` to move.
    pub fn new() -> (p: Pos)
        ensures
            p.wf(),
            p.next_player == Tile::X,
            p.board.at(3, 3) == Tile::O,
            p.board.at(3, 4) == Tile::X,
            p.board.at(4, 3) == Tile::X,
            p.board.at(4, 4) == Tile::O,
            forall|x: int, y: int|
                0 <= x < 8 && 0 <= y < 8 && !(3 <= x <= 4 && 3 <= y <= 4)
                    ==> #[trigger] p.board.at(x, y) == Tile::Empty,
    {
        let mut board = Board::empty();
        board.set(Vec2 { x: 3, y: 3 }, Tile::O);
        board.set(Vec2 { x: 3, y: 4 }, Tile::X);
        board.set(Vec2 { x: 4, y: 3 }, Tile::X);
        board.set(Vec2 { x: 4, y: 4 }, Tile::O);
        Pos { board, next_player: Tile::X }
    }

    /// Put the mover's tile on `place`, flip every bracketed run, and pass
    /// the turn; reports whether any tile was flipped.
    #[verifier::rlimit(60)]
    pub fn place(&mut self, place: Vec2) -> (flipped: bool)
        requires
            old(self).wf(),
            place.in_board_spec(),
        ensures
            final(self).wf(),
            final(self).next_player == old(self).next_player.opponent_spec(),
            forall|x: int, y: int|
                0 <= x < 8 && 0 <= y < 8 ==> #[trigger] final(self).board.at(x, y)
                    == place_cell_spec(old(self).board, old(self).next_player, place, x, y),
            flipped == has_capture(old(self).board, old(self).next_player, place),
    {
        let player = self.next_player;
        let ghost b0 = self.board;
        self.board.set(place, player);
        let ghost b1 = self.board;
        let mut flipped = false;
        let dirs_v = dirs();
        let mut k: usize = 0;
        while k < 8
            invariant
                k <= 8,
                self.next_player == player,
                self.board.wf(),
                forall|x: int, y: int|
                    0 <= x < 8 && 0 <= y < 8 ==> #[trigger] self.board.at(x, y) == (if (x
                        == place.x as int && y == place.y as int) {
                        player
                    } else if flipped_cell(b0, player, place, x, y, k as int) {
                        player
                    } else {
                        b0.at(x, y)
                    }),
                flipped == exists|kk: int|
                    0 <= kk < k && capture_count(b0, player, place, #[trigger] dir_spec(kk)) > 0,
            decreases 8 - k,
        {
            let d = dirs_v[k];
            proof {
                assert(d == dir_spec(k as int));
                assert(is_dir(d));
                assert forall|jj: int|
                    jj >= 1 && on_board(#[trigger] step_spec(place, d, jj)) implies self.board.at(
                    step_spec(place, d, jj).0,
                    step_spec(place, d, jj).1,
                ) == b0.at(step_spec(place, d, jj).0, step_spec(place, d, jj).1) by {
                    let c = step_spec(place, d, jj);
                    lemma_ray_avoids_origin(place, d, jj);
                    if flipped_cell(b0, player, place, c.0, c.1, k as int) {
                        let (k2, j2) = choose|k2: int, j2: int|
                            0 <= k2 < k && 1 <= j2 <= capture_count(
                                b0,
                                player,
                                place,
                                dir_spec(k2),
                            ) && step_spec(place, dir_spec(k2), j2) == c;
                        assert(dir_spec(k2) != d);
                        lemma_rays_disjoint(place, dir_spec(k2), d, j2, jj);
                        assert(false);
                    }
                }
                lemma_capture_frame(self.board, b0, player, place, d);
            }
            let n = self.board.scan_dir(player, place, d);
            proof {
                if n > 0 {
                    assert(capture_count(b0, player, place, d) == n);
                    let nn = choose|m: int| captures_to(b0, player, place, d, m);
                    lemma_captures_unique(b0, player, place, d, nn, n as int);
                    assert(captures_to(b0, player, place, d, n as int));
                }
            }
            if n > 0 {
                flipped = true;
            }
            let ghost before = self.board;
            self.board.flip_ray(player, place, d, n);
            k += 1;
            proof {
                assert forall|x: int, y: int| 0 <= x < 8 && 0 <= y < 8 implies #[trigger] self
                    .board
                    .at(x, y) == (if (x == place.x as int && y == place.y as int) {
                    player
                } else if flipped_cell(b0, player, place, x, y, k as int) {
                    player
                } else {
                    b0.at(x, y)
                }) by {
                    lemma_flip_decompose(b0, player, place, x, y, k - 1);
                    if x == place.x as int && y == place.y as int {
                        if exists|jj: int| 1 <= jj <= n && step_spec(place, d, jj) == (x, y) {
                            let jj = choose|jj: int|
                                1 <= jj <= n && step_spec(place, d, jj) == (x, y);
                            lemma_ray_avoids_origin(place, d, jj);
                        }
                    }
                }
            }
        }
        self.next_player = player.opponent();
        proof {
            assert forall|x: int, y: int| 0 <= x < 8 && 0 <= y < 8 implies #[trigger] self
                .board
                .at(x, y) == place_cell_spec(b0, player, place, x, y) by {}
        }
        flipped
    }
}

/// The flat index of `(x, y)` splits back into `x` and `y`.
proof fn lemma_cell_index(x: int, y: int)
    requires
        0 <= x < 8,
        0 <= y < 8,
    ensures
        0 <= x * 8 + y < 64,
        (x * 8 + y) / 8 == x,
        (x * 8 + y) % 8 == y,
{
    assert((x * 8 + y) / 8 == x && (x * 8 + y) % 8 == y) by (nonlinear_arith)
        requires
            0 <= x < 8,
            0 <= y < 8,
    ;
}

/// Boards that agree on every square are the same board.
proof fn lemma_board_ext(b1: Board, b2: Board)
    requires
        forall|i: int| 0 <= i < 64 ==> #[trigger] b1.cell_bits(i) == #[trigger] b2.cell_bits(i),
    ensures
        b1 == b2,
{
    let s1 = b1.state;
    let s2 = b2.state;
    assert forall|j: int| 0 <= j < 64 implies #[trigger] ((s1 >> ((2 * j) as u128)) & 3) == (s2
        >> ((2 * j) as u128)) & 3 by {
        assert(b1.cell_bits(j) == b2.cell_bits(j));
    }
    lemma_low_bits_eq(s1, s2, 63);
    assert((s1 >> ((2 * 63) as u128)) & 3 == (s2 >> ((2 * 63) as u128)) & 3);
    assert((s1 & (((1u128 << 126u128) - 1) as u128) == s2 & (((1u128 << 126u128) - 1) as u128)) && (
    (s1 >> 126u128) & 3 == (s2 >> 126u128) & 3) ==> s1 == s2) by (bit_vector);
}

/// Equality of all two-bit slices below `i` transfers to the low bits.
proof fn lemma_low_bits_eq(s1: u128, s2: u128, i: int)
    requires
        0 <= i <= 63,
        forall|j: int|
            0 <= j < 64 ==> #[trigger] ((s1 >> (((2 * j)) as u128)) & 3) == (s2 >> (((2 * j)) as u128)) & 3,
    ensures
        s1 & (((1u128 << ((2 * i) as u128)) - 1) as u128) == s2 & (((1u128 << ((2 * i) as u128))
            - 1) as u128),
    decreases i,
{
    if i == 0 {
        assert(s1 & (((1u128 << 0u128) - 1) as u128) == s2 & (((1u128 << 0u128) - 1) as u128))
            by (bit_vector);
    } else {
        lemma_low_bits_eq(s1, s2, i - 1);
        let sh = (2 * (i - 1)) as u128;
        assert((s1 >> sh) & 3 == (s2 >> sh) & 3);
        assert(sh <= 124 && (s1 & (((1u128 << sh) - 1) as u128) == s2 & (((1u128 << sh)
            - 1) as u128)) && ((s1 >> sh) & 3 == (s2 >> sh) & 3) ==> s1 & (((1u128 << ((sh
            + 2) as u128)) - 1) as u128) == s2 & (((1u128 << ((sh + 2) as u128)) - 1) as u128))
            by (bit_vector);
        assert((sh + 2) as u128 == (2 * i) as u128);
    }
}

/// Squares and mover of `q` are exactly what a move by `p`'s mover at `mv`
/// leaves behind.
pub open spec fn is_place_result(p: Pos, mv: Vec2, q: Pos) -> bool {
    &&& q.board.wf()
    &&& q.next_player == p.next_player.opponent_spec()
    &&& forall|x: int, y: int|
        0 <= x < 8 && 0 <= y < 8 ==> #[trigger] q.board.at(x, y) == place_cell_spec(
            p.board,
            p.next_player,
            mv,
            x,
            y,
        )
}

/// Applying a move is deterministic: the squares-and-mover description
/// pins down one position.
pub proof fn lemma_place_deterministic(p: Pos, mv: Vec2, q1: Pos, q2: Pos)
    requires
        is_place_result(p, mv, q1),
        is_place_result(p, mv, q2),
    ensures
        q1 == q2,
{
    assert forall|i: int| 0 <= i < 64 implies #[trigger] q1.board.cell_bits(i)
        == #[trigger] q2.board.cell_bits(i) by {
        let x = i / 8;
        let y = i % 8;
        lemma_cell_index(x, y);
        assert(q1.board.at(x, y) == q2.board.at(x, y));
        let c1 = q1.board.cell_bits(i);
        let c2 = q2.board.cell_bits(i);
        assert(c1 != 3 && c2 != 3);
        assert(Tile::from_bits_spec(c1) == Tile::from_bits_spec(c2));
        assert(c1 <= 3 && c2 <= 3) by {
            let s1 = q1.board.state;
            let s2 = q2.board.state;
            let sh = (2 * i) as u128;
            assert((s1 >> sh) & 3 <= 3 && (s2 >> sh) & 3 <= 3) by (bit_vector);
        }
    }
    lemma_board_ext(q1.board, q2.board);
}

/// A move at `mv` is open to `p`'s mover: the square is empty, on the
/// board, and some direction captures.
pub open spec fn is_valid_move_spec(p: Pos, mv: Vec2) -> bool {
    &&& mv.in_board_spec()
    &&& p.board.get_spec(mv) == Tile::Empty
    &&& has_capture(p.board, p.next_player, mv)
}

/// The valid moves among the first `i` squares, in square order.
pub open spec fn valid_cells_upto(p: Pos, i: int) -> Seq<Vec2>
    decreases i,
{
    if i <= 0 {
        Seq::empty()
    } else {
        valid_cells_upto(p, i - 1) + (if is_valid_move_spec(p, Vec2::cell_spec(i - 1)) {
            seq![Vec2::cell_spec(i - 1)]
        } else {
            Seq::empty()
        })
    }
}

/// All valid moves of `p`, in square order.
pub open spec fn valid_moves_spec(p: Pos) -> Seq<Vec2> {
    valid_cells_upto(p, 64)
}

/// Every entry of the valid-move list is a valid move, and every valid
/// move is an entry.
pub proof fn lemma_valid_moves_membership(p: Pos, v: Vec2)
    ensures
        valid_moves_spec(p).contains(v) <==> is_valid_move_spec(p, v),
{
    lemma_valid_upto_membership(p, v, 64);
    if is_valid_move_spec(p, v) {
        lemma_cell_index(v.x as int, v.y as int);
        assert(Vec2::cell_spec(raw_place_spec(v)) == v);
    }
}

proof fn lemma_valid_upto_membership(p: Pos, v: Vec2, i: int)
    requires
        0 <= i <= 64,
    ensures
        valid_cells_upto(p, i).contains(v) <==> exists|c: int|
            0 <= c < i && #[trigger] Vec2::cell_spec(c) == v && is_valid_move_spec(p, v),
    decreases i,
{
    if i > 0 {
        lemma_valid_upto_membership(p, v, i - 1);
        let pre = valid_cells_upto(p, i - 1);
        let whole = valid_cells_upto(p, i);
        if whole.contains(v) {
            let idx = choose|idx: int| 0 <= idx < whole.len() && whole[idx] == v;
            if idx < pre.len() {
                assert(pre.contains(v));
            } else {
                assert(v == Vec2::cell_spec(i - 1) && is_valid_move_spec(p, v));
            }
        }
        if exists|c: int| 0 <= c < i && #[trigger] Vec2::cell_spec(c) == v && is_valid_move_spec(p, v) {
            let c = choose|c: int| 0 <= c < i && #[trigger] Vec2::cell_spec(c) == v && is_valid_move_spec(p, v);
            if c < i - 1 {
                assert(pre.contains(v));
                let idx = choose|idx: int| 0 <= idx < pre.len() && pre[idx] == v;
                assert(whole[idx] == v);
                assert(whole.contains(v));
            } else {
                assert(whole[whole.len() - 1] == v);
                assert(whole.contains(v));
            }
        }
    }
}

impl Pos {
    /// Whether `mv` is a move the position's mover may make.
    pub fn is_valid_move(&self, mv: Vec2) -> (r: bool)
        requires
            self.wf(),
        ensures
            r == is_valid_move_spec(*self, mv),
    {
        if !mv.is_in_board() {
            return false;
        }
        if !(self.board.get(mv) == Tile::Empty) {
            return false;
        }
        let dirs_v = dirs();
        let mut k: usize = 0;
        while k < 8
            invariant
                k <= 8,
                forall|kk: int|
                    0 <= kk < k ==> capture_count(
                        self.board,
                        self.next_player,
                        mv,
                        #[trigger] dir_spec(kk),
                    ) == 0,
            decreases 8 - k,
        {
            let d = dirs_v[k];
            proof {
                assert(d == dir_spec(k as int));
            }
            let n = self.board.scan_dir(self.next_player, mv, d);
            if n > 0 {
                proof {
                    assert(capture_count(self.board, self.next_player, mv, dir_spec(k as int)) > 0);
                }
                return true;
            }
            k += 1;
        }
        proof {
            if has_capture(self.board, self.next_player, mv) {
                let kk = choose|kk: int|
                    0 <= kk < 8 && capture_count(self.board, self.next_player, mv, dir_spec(kk))
                        > 0;
                assert(false);
            }
        }
        false
    }

    /// The list of the mover's valid moves, in square order.
    pub fn valid_moves(&self) -> (r: Vec<Vec2>)
        requires
            self.wf(),
        ensures
            r@ == valid_moves_spec(*self),
    {
        let mut r: Vec<Vec2> = Vec::new();
        let mut i: usize = 0;
        while i < 64
            invariant
                i <= 64,
                r@ == valid_cells_upto(*self, i as int),
            decreases 64 - i,
        {
            let cell = Vec2 { x: (i / 8) as isize, y: (i % 8) as isize };
            proof {
                assert(cell == Vec2::cell_spec(i as int));
            }
            let ghost pre = r@;
            if self.is_valid_move(cell) {
                r.push(cell);
                proof {
                    assert(r@ =~= valid_cells_upto(*self, i as int + 1));
                }
            } else {
                proof {
                    assert(r@ =~= valid_cells_upto(*self, i as int + 1));
                }
            }
            i += 1;
        }
        r
    }

    /// Neither player has any valid move anywhere.
    pub open spec fn is_game_over_spec(self) -> bool {
        forall|c: int, t: Tile|
            0 <= c < 64 && t != Tile::Empty ==> !#[trigger] is_valid_move_spec(
                Pos { board: self.board, next_player: t },
                Vec2::cell_spec(c),
            )
    }

    /// Whether the game has ended: no square gives either player a move.
    pub fn is_game_over(&self) -> (r: bool)
        requires
            self.wf(),
        ensures
            r == self.is_game_over_spec(),
    {
        let mut i: usize = 0;
        while i < 64
            invariant
                i <= 64,
                forall|c: int, t: Tile|
                    0 <= c < i && t != Tile::Empty ==> !#[trigger] is_valid_move_spec(
                        Pos { board: self.board, next_player: t },
                        Vec2::cell_spec(c),
                    ),
            decreases 64 - i,
        {
            let cell = Vec2 { x: (i / 8) as isize, y: (i % 8) as isize };
            proof {
                assert(cell == Vec2::cell_spec(i as int));
            }
            let px = Pos { board: self.board, next_player: Tile::X };
            if px.is_valid_move(cell) {
                return false;
            }
            let po = Pos { board: self.board, next_player: Tile::O };
            if po.is_valid_move(cell) {
                return false;
            }
            proof {
                assert forall|t: Tile| t != Tile::Empty implies !is_valid_move_spec(
                    Pos { board: self.board, next_player: t },
                    Vec2::cell_spec(i as int),
                ) by {
                    if t == Tile::X {
                    } else {
                        assert(t == Tile::O);
                    }
                }
            }
            i += 1;
        }
        true
    }
}

impl Tile {
    /// How `other` relates to `self` when `self` is a match outcome.
    pub open spec fn relation_spec(self, other: Tile) -> Relation {
        if self == other {
            Relation::Same
        } else if self != Tile::Empty && other == self.opponent_spec() {
            Relation::Opponent
        } else {
            Relation::Neutral
        }
    }

    /// How `other` relates to `self`: the same side, its opponent, or
    /// neither (the drawn outcome relates to every side as neutral).
    pub fn relation(&self, other: Tile) -> (r: Relation)
        ensures
            r == self.relation_spec(other),
    {
        match (self, other) {
            (Tile::X, Tile::X) => Relation::Same,
            (Tile::O, Tile::O) => Relation::Same,
            (Tile::Empty, Tile::Empty) => Relation::Same,
            (Tile::X, Tile::O) => Relation::Opponent,
            (Tile::O, Tile::X) => Relation::Opponent,
            _ => Relation::Neutral,
        }
    }
}

/// How many of `t`'s tiles stand among the first `i` squares.
pub open spec fn count_upto(b: Board, t: Tile, i: int) -> int
    decreases i,
{
    if i <= 0 {
        0
    } else {
        count_upto(b, t, i - 1) + (if b.at((i - 1) / 8, (i - 1) % 8) == t {
            1int
        } else {
            0int
        })
    }
}

/// How many of `t`'s tiles stand on the board.
pub open spec fn count_spec(b: Board, t: Tile) -> int {
    count_upto(b, t, 64)
}

impl Board {
    /// The number of squares holding `t`.
    pub fn count(&self, t: Tile) -> (n: usize)
        requires
            self.wf(),
        ensures
            n == count_spec(*self, t),
    {
        let mut n: usize = 0;
        let mut i: usize = 0;
        while i < 64
            invariant
                i <= 64,
                n <= i,
                n as int == count_upto(*self, t, i as int),
            decreases 64 - i,
        {
            let cell = Vec2 { x: (i / 8) as isize, y: (i % 8) as isize };
            if self.get(cell) == t {
                n += 1;
            }
            i += 1;
        }
        n
    }
}

impl Pos {
    /// The side with more tiles, or `Empty` for a drawn board.
    pub open spec fn winner_spec(self) -> Tile {
        if count_spec(self.board, Tile::X) > count_spec(self.board, Tile::O) {
            Tile::X
        } else if count_spec(self.board, Tile::X) < count_spec(self.board, Tile::O) {
            Tile::O
        } else {
            Tile::Empty
        }
    }

    /// The winner by tile count; `Empty` stands for a draw.
    pub fn winner(&self) -> (w: Tile)
        requires
            self.wf(),
        ensures
            w == self.winner_spec(),
    {
        let cx = self.board.count(Tile::X);
        let co = self.board.count(Tile::O);
        if cx > co {
            Tile::X
        } else if cx < co {
            Tile::O
        } else {
            Tile::Empty
        }
    }

    /// Apply `mv` for the mover, flipping bracketed runs and passing the turn.
    pub fn play(&mut self, mv: Vec2)
        requires
            old(self).wf(),
            mv.in_board_spec(),
        ensures
            final(self).wf(),
            is_place_result(*old(self), mv, *final(self)),
    {
        let _ = self.place(mv);
    }

    /// The position reached by applying `mv`, leaving `self` unchanged.
    pub fn play_clone(&self, mv: Vec2) -> (p: Pos)
        requires
            self.wf(),
            mv.in_board_spec(),
        ensures
            p.wf(),
            is_place_result(*self, mv, p),
    {
        let mut p = *self;
        p.play(mv);
        p
    }
}

/// `q` can be reached from `p` by exactly `n` valid moves.
pub open spec fn reachable_in(p: Pos, q: Pos, n: nat) -> bool
    decreases n,
{
    if n == 0 {
        q == p
    } else {
        exists|mv: Vec2, mid: Pos|
            is_valid_move_spec(p, mv) && #[trigger] is_place_result(p, mv, mid) && reachable_in(
                mid,
                q,
                (n - 1) as nat,
            )
    }
}

/// `q` can be reached from `p` by playing `mv` and then `n` more valid
/// moves.
pub open spec fn step_reaches(p: Pos, mv: Vec2, q: Pos, n: nat) -> bool {
    exists|mid: Pos| #[trigger] is_place_result(p, mv, mid) && reachable_in(mid, q, n)
}

impl Pos {
    /// The positions reached by every sequence of `depth` valid moves
    /// from this one.
    pub fn tree_end(&self, depth: usize) -> (r: Vec<Pos>)
        requires
            self.wf(),
        ensures
            forall|i: int|
                0 <= i < r@.len() ==> r@[i].wf() && reachable_in(*self, #[trigger] r@[i], depth as nat),
            forall|q: Pos| reachable_in(*self, q, depth as nat) ==> r@.contains(q),
            depth == 0 ==> r@ == seq![*self],
        decreases depth,
    {
        if depth == 0 {
            let mut r: Vec<Pos> = Vec::new();
            r.push(*self);
            proof {
                assert(r@ =~= seq![*self]);
                assert forall|q: Pos| reachable_in(*self, q, depth as nat) implies r@.contains(
                    q,
                ) by {
                    assert(r@[0] == q);
                }
            }
            return r;
        }
        let moves = self.valid_moves();
        let mut r: Vec<Pos> = Vec::new();
        let mut j: usize = 0;
        while j < moves.len()
            invariant
                j <= moves.len(),
                forall|i: int|
                    0 <= i < r@.len() ==> r@[i].wf() && reachable_in(
                        *self,
                        #[trigger] r@[i],
                        depth as nat,
                    ),
                forall|q: Pos, jj: int|
                    0 <= jj < j && #[trigger] step_reaches(
                        *self,
                        moves@[jj],
                        q,
                        (depth - 1) as nat,
                    ) ==> r@.contains(q),
            decreases moves.len() - j,
        {
            let mv = moves[j];
            proof {
                assert(moves@.contains(mv));
                lemma_valid_moves_membership(*self, mv);
            }
            let child = self.play_clone(mv);
            let mut sub = child.tree_end(depth - 1);
            proof {
                assert forall|i: int| 0 <= i < sub@.len() implies sub@[i].wf() && reachable_in(
                    *self,
                    #[trigger] sub@[i],
                    depth as nat,
                ) by {
                    assert(reachable_in(child, sub@[i], (depth - 1) as nat));
                    assert(is_place_result(*self, mv, child));
                }
            }
            let ghost r0 = r@;
            let ghost sub0 = sub@;
            r.append(&mut sub);
            proof {
                assert forall|q: Pos, jj: int|
                    0 <= jj < j + 1 && #[trigger] step_reaches(
                        *self,
                        moves@[jj],
                        q,
                        (depth - 1) as nat,
                    ) implies r@.contains(q) by {
                    if jj < j {
                        assert(r0.contains(q));
                        let w = choose|w: int| 0 <= w < r0.len() && r0[w] == q;
                        assert(r@[w] == q);
                    } else {
                        assert(moves@[jj] == mv);
                        let mid = choose|mid: Pos|
                            #[trigger] is_place_result(*self, mv, mid) && reachable_in(
                                mid,
                                q,
                                (depth - 1) as nat,
                            );
                        lemma_place_deterministic(*self, mv, mid, child);
                        assert(sub0.contains(q));
                        let w = choose|w: int| 0 <= w < sub0.len() && sub0[w] == q;
                        assert(r@[r0.len() + w] == q);
                    }
                }
            }
            j += 1;
        }
        proof {
            assert forall|q: Pos| reachable_in(*self, q, depth as nat) implies r@.contains(q) by {
                let (mv, mid) = choose|mv: Vec2, mid: Pos|
                    is_valid_move_spec(*self, mv) && #[trigger] is_place_result(*self, mv, mid)
                        && reachable_in(mid, q, (depth - 1) as nat);
                lemma_valid_moves_membership(*self, mv);
                assert(moves@.contains(mv));
                let jj = choose|jj: int| 0 <= jj < moves@.len() && moves@[jj] == mv;
                assert(step_reaches(*self, moves@[jj], q, (depth - 1) as nat));
            }
        }
        r
    }
}

/// The letter naming column `x` of a move token.
pub open spec fn col_char_spec(x: int) -> char {
    if x == 0 {
        'a'
    } else if x == 1 {
        'b'
    } else if x == 2 {
        'c'
    } else if x == 3 {
        'd'
    } else if x == 4 {
        'e'
    } else if x == 5 {
        'f'
    } else if x == 6 {
        'g'
    } else {
        'h'
    }
}

/// The digit naming row `y` of a move token.
pub open spec fn row_char_spec(y: int) -> char {
    if y == 0 {
        '1'
    } else if y == 1 {
        '2'
    } else if y == 2 {
        '3'
    } else if y == 3 {
        '4'
    } else if y == 4 {
        '5'
    } else if y == 5 {
        '6'
    } else if y == 6 {
        '7'
    } else {
        '8'
    }
}

/// The two-character token naming the square `v`.
pub open spec fn move_token_spec(v: Vec2) -> Seq<char> {
    seq![col_char_spec(v.x as int), row_char_spec(v.y as int)]
}

fn col_str(x: isize) -> (r: &'static str)
    requires
        0 <= x < 8,
    ensures
        r@ == seq![col_char_spec(x as int)],
{
    proof {
        reveal_strlit("a");
        reveal_strlit("b");
        reveal_strlit("c");
        reveal_strlit("d");
        reveal_strlit("e");
        reveal_strlit("f");
        reveal_strlit("g");
        reveal_strlit("h");
    }
    let r = match x {
        0 => "a",
        1 => "b",
        2 => "c",
        3 => "d",
        4 => "e",
        5 => "f",
        6 => "g",
        _ => "h",
    };
    proof {
        assert(r@ =~= seq![col_char_spec(x as int)]);
    }
    r
}

fn row_str(y: isize) -> (r: &'static str)
    requires
        0 <= y < 8,
    ensures
        r@ == seq![row_char_spec(y as int)],
{
    proof {
        reveal_strlit("1");
        reveal_strlit("2");
        reveal_strlit("3");
        reveal_strlit("4");
        reveal_strlit("5");
        reveal_strlit("6");
        reveal_strlit("7");
        reveal_strlit("8");
    }
    let r = match y {
        0 => "1",
        1 => "2",
        2 => "3",
        3 => "4",
        4 => "5",
        5 => "6",
        6 => "7",
        _ => "8",
    };
    proof {
        assert(r@ =~= seq![row_char_spec(y as int)]);
    }
    r
}

impl Vec2 {
    /// The canonical token naming this square, such as `d3`.
    pub fn move_string(&self) -> (r: String)
        requires
            self.in_board_spec(),
        ensures
            r@ == move_token_spec(*self),
    {
        let mut s = String::from_str(col_str(self.x));
        s.append(row_str(self.y));
        proof {
            assert(s@ =~= move_token_spec(*self));
        }
        s
    }
}

/// The character standing for tile `t` in the board encoding.
pub open spec fn tile_char_spec(t: Tile) -> char {
    match t {
        Tile::X => 'x',
        Tile::O => 'o',
        Tile::Empty => '.',
    }
}

/// The one-character encoding of tile `t`.
pub fn tile_str(t: Tile) -> (r: &'static str)
    ensures
        r@ == seq![tile_char_spec(t)],
{
    proof {
        reveal_strlit("x");
        reveal_strlit("o");
        reveal_strlit(".");
    }
    let r = match t {
        Tile::X => "x",
        Tile::O => "o",
        Tile::Empty => ".",
    };
    proof {
        assert(r@ =~= seq![tile_char_spec(t)]);
    }
    r
}

/// The 64-character encoding of a board, squares in flat index order.
pub open spec fn board_chars_spec(b: Board) -> Seq<char> {
    Seq::new(64, |i: int| tile_char_spec(b.at(i / 8, i % 8)))
}

impl Board {
    /// The canonical 64-character encoding of the board.
    pub fn board_string(&self) -> (r: String)
        requires
            self.wf(),
        ensures
            r@ == board_chars_spec(*self),
    {
        let mut s = String::new();
        let mut i: usize = 0;
        while i < 64
            invariant
                i <= 64,
                s@.len() == i,
                forall|k: int| 0 <= k < i ==> s@[k] == board_chars_spec(*self)[k],
            decreases 64 - i,
        {
            let cell = Vec2 { x: (i / 8) as isize, y: (i % 8) as isize };
            s.append(tile_str(self.get(cell)));
            i += 1;
        }
        proof {
            assert(s@ =~= board_chars_spec(*self));
        }
        s
    }

    /// A board holding the four standard opening tiles.
    pub fn new() -> (b: Board)
        ensures
            b.wf(),
            b.at(3, 3) == Tile::O,
            b.at(3, 4) == Tile::X,
            b.at(4, 3) == Tile::X,
            b.at(4, 4) == Tile::O,
            forall|x: int, y: int|
                0 <= x < 8 && 0 <= y < 8 && !(3 <= x <= 4 && 3 <= y <= 4)
                    ==> #[trigger] b.at(x, y) == Tile::Empty,
    {
        let p = Pos::new();
        p.board
    }
}

} // verus!

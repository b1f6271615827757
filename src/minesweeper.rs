use crate::count::{count2, lemma_count2_bound, lemma_count2_congr, lemma_count2_mono, lemma_count2_none, lemma_count2_split, lemma_count2_update};
use vstd::arithmetic::div_mod::{lemma_fundamental_div_mod, lemma_fundamental_div_mod_converse, lemma_mod_pos_bound};
use vstd::prelude::*;

verus! {

#[derive(Clone, Copy, Debug, PartialEq, Eq, Structural)]
pub enum GameStatus {
    Win,
    GameOver,
    Running,
}

/// Settings for a game: board width, board height and number of mines.
pub struct Settings {
    /// Width of the game board.
    pub dx: usize,
    /// Height of the game board.
    pub dy: usize,
    /// Number of mines on the game board.
    pub mine_count: usize,
}

impl Settings {
    /// At least one row and one column, a cell count that fits in `usize`, and fewer
    /// mines than cells.
    pub open spec fn valid(&self) -> bool {
        &&& self.dx >= 1
        &&& self.dy >= 1
        &&& self.dx * self.dy <= usize::MAX
        &&& self.mine_count < self.dx * self.dy
    }

    /// 8 x 8 cells, 10 mines.
    pub fn beginner() -> (r: Settings)
        ensures
            r.dx == 8 && r.dy == 8 && r.mine_count == 10,
            r.valid(),
    {
        Settings { dx: 8, dy: 8, mine_count: 10 }
    }

    /// 16 x 16 cells, 40 mines.
    pub fn intermediate() -> (r: Settings)
        ensures
            r.dx == 16 && r.dy == 16 && r.mine_count == 40,
            r.valid(),
    {
        Settings { dx: 16, dy: 16, mine_count: 40 }
    }

    /// 30 x 16 cells, 99 mines.
    pub fn expert() -> (r: Settings)
        ensures
            r.dx == 30 && r.dy == 16 && r.mine_count == 99,
            r.valid(),
    {
        Settings { dx: 30, dy: 16, mine_count: 99 }
    }
}

/// A single cell of the board.
#[derive(Clone, Copy, Debug, PartialEq, Eq, Structural)]
pub struct Field {
    /// Whether the cell holds a mine.
    is_mine: bool,
    /// Whether the cell has been revealed.
    is_revealed: bool,
    /// Whether the cell carries a flag.
    is_flagged: bool,
    /// The number of mines among the neighbouring cells.
    adjacent_mines: usize,
}

impl Field {
    pub closed spec fn mine(self) -> bool {
        self.is_mine
    }

    pub closed spec fn revealed(self) -> bool {
        self.is_revealed
    }

    pub closed spec fn flagged(self) -> bool {
        self.is_flagged
    }

    /// The cell with its flag put on or taken off.
    pub closed spec fn toggled(self) -> Field {
        Field { is_flagged: !self.is_flagged, ..self }
    }

    pub closed spec fn adjacent(self) -> nat {
        self.adjacent_mines as nat
    }

    /// Whether the cell is a mine; `false` while it is not revealed, so that a hidden
    /// cell gives nothing away.
    pub fn is_mine(&self) -> (r: bool)
        ensures
            r == (self.revealed() && self.mine()),
    {
        if !self.is_revealed {
            return false;
        }
        self.is_mine
    }

    pub fn is_revealed(&self) -> (r: bool)
        ensures
            r == self.revealed(),
    {
        self.is_revealed
    }

    pub fn is_flagged(&self) -> (r: bool)
        ensures
            r == self.flagged(),
    {
        self.is_flagged
    }

    /// The number of neighbouring mines once revealed, zero before.
    pub fn adjacent_mines(&self) -> (r: usize)
        ensures
            r == (if self.revealed() { self.adjacent() } else { 0 }),
    {
        if !self.is_revealed {
            return 0;
        }
        self.adjacent_mines
    }
}

pub open spec fn mine_p() -> spec_fn(Field) -> bool {
    |f: Field| f.mine()
}

pub open spec fn revealed_p() -> spec_fn(Field) -> bool {
    |f: Field| f.revealed()
}

pub open spec fn flagged_p() -> spec_fn(Field) -> bool {
    |f: Field| f.flagged()
}

pub open spec fn flagged_mine_p() -> spec_fn(Field) -> bool {
    |f: Field| f.flagged() && f.mine()
}

pub open spec fn safe_p() -> spec_fn(Field) -> bool {
    |f: Field| !f.mine()
}

/// The rows of a board as sequences of cells.
pub open spec fn grid(b: Seq<Vec<Field>>) -> Seq<Seq<Field>> {
    b.map_values(|r: Vec<Field>| r@)
}

/// 1 where (x, y) lies on the grid and holds a mine, else 0.
pub open spec fn mine_at(c: Seq<Seq<Field>>, x: int, y: int) -> nat {
    if 0 <= y < c.len() && 0 <= x < c[y].len() && c[y][x].mine() {
        1
    } else {
        0
    }
}

/// The number of mines among the up to eight cells around (x, y) that lie on the grid.
pub open spec fn neighbor_mines(c: Seq<Seq<Field>>, x: int, y: int) -> nat {
    mine_at(c, x - 1, y - 1) + mine_at(c, x, y - 1) + mine_at(c, x + 1, y - 1) + mine_at(c, x - 1, y)
        + mine_at(c, x + 1, y) + mine_at(c, x - 1, y + 1) + mine_at(c, x, y + 1) + mine_at(
        c,
        x + 1,
        y + 1,
    )
}

/// Whether a grid of `h` rows of `w` cells is that shape.
pub open spec fn shaped(c: Seq<Seq<Field>>, w: int, h: int) -> bool {
    &&& c.len() == h
    &&& forall|y: int| 0 <= y < h ==> #[trigger] c[y].len() == w
}

/// Two grids whose cells agree on where the mines are.
pub open spec fn same_mines(c: Seq<Seq<Field>>, d: Seq<Seq<Field>>) -> bool {
    &&& c.len() == d.len()
    &&& forall|y: int| 0 <= y < c.len() ==> #[trigger] c[y].len() == d[y].len()
    &&& forall|y: int, x: int|
        0 <= y < c.len() && 0 <= x < c[y].len() ==> #[trigger] c[y][x].mine() == d[y][x].mine()
}

proof fn lemma_same_mines(c: Seq<Seq<Field>>, d: Seq<Seq<Field>>)
    requires
        same_mines(c, d),
    ensures
        forall|x: int, y: int| #[trigger] neighbor_mines(c, x, y) == neighbor_mines(d, x, y),
        count2(c, mine_p()) == count2(d, mine_p()),
{
    assert forall|x: int, y: int| #[trigger] mine_at(c, x, y) == mine_at(d, x, y) by {}
    lemma_count2_congr(c, mine_p(), d, mine_p());
}

/// Replaces the cell at (x, y).
fn put(board: &mut Vec<Vec<Field>>, x: usize, y: usize, f: Field)
    requires
        y < old(board)@.len(),
        x < old(board)@[y as int]@.len(),
    ensures
        grid(final(board)@) == grid(old(board)@).update(
            y as int,
            grid(old(board)@)[y as int].update(x as int, f),
        ),
{
    board[y][x] = f;
    assert(grid(final(board)@) =~= grid(old(board)@).update(
        y as int,
        grid(old(board)@)[y as int].update(x as int, f),
    ));
}


/// Relies on web_time's SystemTime::elapsed, measured from UNIX_EPOCH: the wall clock
/// in whole milliseconds, `None` where it reads earlier than the epoch.
#[verifier::external_body]
fn clock_ms() -> (r: Option<u64>) {
    web_time::UNIX_EPOCH.elapsed().ok().map(|d| d.as_millis() as u64)
}

/// Whole seconds from `start_ms` to `now_ms`, zero where `now_ms` is earlier.
pub open spec fn elapsed_spec(start_ms: int, now_ms: int) -> int {
    if now_ms >= start_ms {
        (now_ms - start_ms) / 1000
    } else {
        0
    }
}

/// Whole seconds from `start_ms` to `now_ms` (both in milliseconds), zero where
/// `now_ms` is earlier.
pub fn elapsed_seconds(start_ms: u64, now_ms: u64) -> (r: u64)
    ensures
        r == elapsed_spec(start_ms as int, now_ms as int),
{
    if now_ms >= start_ms {
        (now_ms - start_ms) / 1000
    } else {
        0
    }
}

/// The wall clock in milliseconds, zero where it reads earlier than the epoch.
fn now_ms() -> (r: u64) {
    match clock_ms() {
        Some(t) => t,
        None => 0,
    }
}

/// Relies on rand's IteratorRandom::choose_multiple over `0..n` with the thread-local
/// generator: it keeps items of the range, each at most once, and returns `k` of them,
/// or all `n` where the range holds fewer.
#[verifier::external_body]
fn sample_indices(n: usize, k: usize) -> (r: Vec<usize>)
    ensures
        r@.len() == if k <= n { k } else { n },
        r@.no_duplicates(),
        forall|i: int| 0 <= i < r@.len() ==> r@[i] < n,
{
    rand::seq::IteratorRandom::choose_multiple(0..n, &mut rand::thread_rng(), k)
}

/// The state of one game.
pub struct Minesweeper {
    status: GameStatus,
    /// Wall-clock time, in milliseconds, at which the game (re)started.
    start_ms: u64,
    /// Width of the game board.
    dx: usize,
    /// Height of the game board.
    dy: usize,
    /// Number of mines on the game board.
    mine_count: usize,
    /// Number of revealed cells.
    revealed_count: usize,
    /// Number of flags.
    flagged_count: usize,
    /// Number of flagged cells that hold a mine.
    flagged_mines_count: usize,
    /// The cells, row by row.
    board: Vec<Vec<Field>>,
}

impl Minesweeper {
    pub closed spec fn cells(&self) -> Seq<Seq<Field>> {
        grid(self.board@)
    }

    pub closed spec fn width(&self) -> int {
        self.dx as int
    }

    pub closed spec fn height(&self) -> int {
        self.dy as int
    }

    pub closed spec fn mines(&self) -> int {
        self.mine_count as int
    }

    pub closed spec fn state(&self) -> GameStatus {
        self.status
    }

    pub closed spec fn revealed(&self) -> int {
        self.revealed_count as int
    }

    pub closed spec fn flags(&self) -> int {
        self.flagged_count as int
    }

    pub closed spec fn flagged_mines(&self) -> int {
        self.flagged_mines_count as int
    }

    pub open spec fn in_bounds(&self, x: int, y: int) -> bool {
        0 <= x < self.width() && 0 <= y < self.height()
    }

    pub open spec fn cell(&self, x: int, y: int) -> Field {
        self.cells()[y][x]
    }

    pub open spec fn size(&self) -> int {
        self.width() * self.height()
    }

    /// The shape and the settings, which no move changes.
    pub open spec fn same_game(&self, o: &Minesweeper) -> bool {
        &&& self.width() == o.width()
        &&& self.height() == o.height()
        &&& self.mines() == o.mines()
    }

    /// Every cell of the board but (x, y) is as in `o`.
    pub open spec fn others_same(&self, o: &Minesweeper, x: int, y: int) -> bool {
        forall|a: int, b: int| o.in_bounds(a, b) && (a != x || b != y) ==> #[trigger] self.cell(a, b) == o.cell(a, b)
    }

    /// The cell at (x, y) keeps its mine, flag and count, as in `o`.
    pub open spec fn same_contents(&self, o: &Minesweeper, x: int, y: int) -> bool {
        &&& self.cell(x, y).mine() == o.cell(x, y).mine()
        &&& self.cell(x, y).flagged() == o.cell(x, y).flagged()
        &&& self.cell(x, y).adjacent() == o.cell(x, y).adjacent()
    }

    /// Every mine lies under a flag.
    pub open spec fn all_mines_flagged(&self) -> bool {
        forall|x: int, y: int| self.in_bounds(x, y) && #[trigger] self.cell(x, y).mine() ==> self.cell(x, y).flagged()
    }

    /// Every cell without a mine is revealed, and no mine is.
    pub open spec fn exactly_safe_revealed(&self) -> bool {
        forall|x: int, y: int| self.in_bounds(x, y) ==> #[trigger] self.cell(x, y).revealed() == !self.cell(x, y).mine()
    }

    /// The settings are valid, the board has their shape, no cell is both revealed and
    /// flagged, every cell holds the number of mines around it, the board holds as many
    /// mines as the settings say, and the counters agree with the board.
    pub closed spec fn wf_board(&self) -> bool {
        &&& self.dx >= 1
        &&& self.dy >= 1
        &&& self.dx * self.dy <= usize::MAX
        &&& self.mine_count < self.dx * self.dy
        &&& shaped(self.cells(), self.dx as int, self.dy as int)
        &&& board_ok(self.cells(), self.dx as int, self.dy as int)
        &&& count2(self.cells(), mine_p()) == self.mine_count
        &&& count2(self.cells(), revealed_p()) == self.revealed_count
        &&& count2(self.cells(), flagged_p()) == self.flagged_count
        &&& count2(self.cells(), flagged_mine_p()) == self.flagged_mines_count
    }

    /// The board is well formed, and the game is lost exactly when a mine is revealed.
    pub closed spec fn wf(&self) -> bool {
        &&& self.wf_board()
        &&& (self.status == GameStatus::GameOver) == !no_revealed_mine(self.cells())
    }

    /// Reveals a hidden cell without a flag and counts it.
    #[verifier::rlimit(80)]
    fn uncover(&mut self, x: usize, y: usize)
        requires
            old(self).wf_board(),
            (old(self).status == GameStatus::GameOver) == (!no_revealed_mine(old(self).cells())
                || old(self).cell(x as int, y as int).mine()),
            old(self).in_bounds(x as int, y as int),
            !old(self).cell(x as int, y as int).revealed(),
            !old(self).cell(x as int, y as int).flagged(),
        ensures
            final(self).wf(),
            final(self).board@.len() == old(self).board@.len(),
            final(self).cells() == old(self).cells().update(
                y as int,
                old(self).cells()[y as int].update(x as int, Field { is_revealed: true, ..old(self).cell(x as int, y as int) }),
            ),
            final(self).revealed_count == old(self).revealed_count + 1,
            final(self).revealed_count <= final(self).dx * final(self).dy,
            grows(old(self).cells(), final(self).cells()),
            final(self).status == old(self).status,
            final(self).dx == old(self).dx && final(self).dy == old(self).dy,
            final(self).mine_count == old(self).mine_count,
            final(self).flagged_count == old(self).flagged_count,
            final(self).flagged_mines_count == old(self).flagged_mines_count,
    {
        let f = self.board[y][x];
        let g = Field { is_revealed: true, ..f };
        let ghost c = self.cells();
        put(&mut self.board, x, y, g);
        proof {
            let d = self.cells();
            lemma_count2_update(c, y as int, x as int, g, mine_p());
            lemma_count2_update(c, y as int, x as int, g, revealed_p());
            lemma_count2_update(c, y as int, x as int, g, flagged_p());
            lemma_count2_update(c, y as int, x as int, g, flagged_mine_p());
            lemma_same_mines(c, d);
            lemma_count2_bound(d, self.dx as int, revealed_p());
            assert(self.dy * self.dx == self.dx * self.dy) by (nonlinear_arith);
        }
        self.revealed_count = self.revealed_count + 1;
        proof {
            let d = self.cells();
            lemma_same_mines(c, d);
            lemma_update_ok(c, d, y as int, x as int, self.dx as int, self.dy as int);
        }
    }

    /// Puts a flag on a hidden cell without one, or takes the flag off one with it.
    #[verifier::rlimit(80)]
    fn toggle_flag(&mut self, x: usize, y: usize)
        requires
            old(self).wf(),
            old(self).in_bounds(x as int, y as int),
            !old(self).cell(x as int, y as int).revealed(),
        ensures
            final(self).wf(),
            final(self).board@.len() == old(self).board@.len(),
            final(self).cells() == old(self).cells().update(
                y as int,
                old(self).cells()[y as int].update(x as int, old(self).cell(x as int, y as int).toggled()),
            ),
            final(self).revealed_count == old(self).revealed_count,
            final(self).flagged_count == old(self).flagged_count + if old(self).cell(x as int, y as int).flagged() { -1int } else { 1int },
            final(self).flagged_mines_count == old(self).flagged_mines_count + if !old(self).cell(x as int, y as int).mine() {
                0int
            } else if old(self).cell(x as int, y as int).flagged() {
                -1int
            } else {
                1int
            },
            final(self).status == old(self).status,
            final(self).dx == old(self).dx && final(self).dy == old(self).dy,
            final(self).mine_count == old(self).mine_count,
    {
        let f = self.board[y][x];
        let g = Field { is_flagged: !f.is_flagged, ..f };
        let ghost c = self.cells();
        put(&mut self.board, x, y, g);
        proof {
            let d = self.cells();
            lemma_count2_update(c, y as int, x as int, g, mine_p());
            lemma_count2_update(c, y as int, x as int, g, revealed_p());
            lemma_count2_update(c, y as int, x as int, g, flagged_p());
            lemma_count2_update(c, y as int, x as int, g, flagged_mine_p());
            lemma_same_mines(c, d);
            lemma_count2_bound(d, self.dx as int, flagged_p());
            lemma_count2_bound(d, self.dx as int, flagged_mine_p());
        }
        if f.is_flagged {
            self.flagged_count = self.flagged_count - 1;
            if f.is_mine {
                self.flagged_mines_count = self.flagged_mines_count - 1;
            }
        } else {
            self.flagged_count = self.flagged_count + 1;
            if f.is_mine {
                self.flagged_mines_count = self.flagged_mines_count + 1;
            }
        }
        proof {
            let d = self.cells();
            lemma_same_mines(c, d);
            lemma_update_ok(c, d, y as int, x as int, self.dx as int, self.dy as int);
        }
    }

    /// The board shows a win: every cell without a mine is revealed, or every mine
    /// carries a flag.
    pub open spec fn won(&self) -> bool {
        self.revealed() == self.size() - self.mines() || self.flagged_mines() == self.mines()
    }

    /// A won game shows a win, and a running game with mines shows none: some mine is
    /// without a flag, and some cell without a mine is hidden.
    pub open spec fn status_ok(&self) -> bool {
        &&& self.state() == GameStatus::Win ==> self.won()
        &&& self.state() == GameStatus::Running && self.mines() > 0 ==> self.flagged_mines() < self.mines()
            && self.revealed() < self.size() - self.mines()
    }

    /// Outside a lost game, at most the cells without a mine are revealed, and at most
    /// the mines carry a flag that counts.
    proof fn lemma_bounds(&self)
        requires
            self.wf(),
        ensures
            self.state() != GameStatus::GameOver ==> self.revealed() <= self.size() - self.mines(),
            self.flagged_mines() <= self.mines(),
    {
        let c = self.cells();
        lemma_count2_mono(c, flagged_mine_p(), mine_p());
        if self.status != GameStatus::GameOver {
            reveal(no_revealed_mine);
            lemma_count2_mono(c, revealed_p(), safe_p());
            lemma_count2_split(c, self.dx as int, mine_p(), safe_p());
            assert(self.dy * self.dx == self.dx * self.dy) by (nonlinear_arith);
        }
    }

    /// Declares a running game won where the board shows a win.
    fn check_win(&mut self)
        requires
            old(self).wf(),
        ensures
            final(self).wf(),
            final(self).cells() == old(self).cells(),
            final(self).same_game(old(self)),
            final(self).revealed() == old(self).revealed(),
            final(self).flags() == old(self).flags(),
            final(self).flagged_mines() == old(self).flagged_mines(),
            final(self).state() == if old(self).state() == GameStatus::Running && old(self).won() {
                GameStatus::Win
            } else {
                old(self).state()
            },
    {
        if self.status != GameStatus::Running {
            return;
        }
        let n = self.dx * self.dy;
        if self.revealed_count == n - self.mine_count {
            self.status = GameStatus::Win;
        }
        if self.flagged_mines_count == self.mine_count {
            self.status = GameStatus::Win;
        }
    }

    /// Pushes the neighbours of a cell with no mine around it that lie on the board.
    #[verifier::rlimit(100)]
    fn push_neighbors(&self, stack: &mut Vec<(usize, usize)>, x: usize, y: usize)
        requires
            self.wf(),
            self.in_bounds(x as int, y as int),
            self.cell(x as int, y as int).adjacent() == 0,
        ensures
            old(stack)@.len() <= final(stack)@.len() <= old(stack)@.len() + 8,
            final(stack)@.subrange(0, old(stack)@.len() as int) == old(stack)@,
            forall|i: int| old(stack)@.len() <= i < final(stack)@.len() ==> {
                let (a, b) = #[trigger] final(stack)@[i];
                &&& self.in_bounds(a as int, b as int)
                &&& !self.cell(a as int, b as int).mine()
                &&& is_neighbor(x as int, y as int, a as int, b as int)
            },
            forall|c: int, d: int| #[trigger] is_neighbor(x as int, y as int, c, d) && self.in_bounds(c, d)
                ==> final(stack)@.contains((c as usize, d as usize)),
    {
        let ghost s0 = stack@;
        let ghost c = self.cells();
        proof {
            reveal(board_ok);
        }
        assert(neighbor_mines(c, x as int, y as int) == 0);
        if y > 0 && x > 0 {
            let ghost sp = stack@;
            stack.push((x - 1, y - 1));
            proof {
                lemma_push_keeps(sp, stack@[stack@.len() - 1]);
                assert(stack@ == sp.push(stack@[stack@.len() - 1]));
            }
        }
        if y > 0 {
            let ghost sp = stack@;
            stack.push((x, y - 1));
            proof {
                lemma_push_keeps(sp, stack@[stack@.len() - 1]);
                assert(stack@ == sp.push(stack@[stack@.len() - 1]));
            }
        }
        if y > 0 && x < self.dx - 1 {
            let ghost sp = stack@;
            stack.push((x + 1, y - 1));
            proof {
                lemma_push_keeps(sp, stack@[stack@.len() - 1]);
                assert(stack@ == sp.push(stack@[stack@.len() - 1]));
            }
        }
        if x > 0 {
            let ghost sp = stack@;
            stack.push((x - 1, y));
            proof {
                lemma_push_keeps(sp, stack@[stack@.len() - 1]);
                assert(stack@ == sp.push(stack@[stack@.len() - 1]));
            }
        }
        if x < self.dx - 1 {
            let ghost sp = stack@;
            stack.push((x + 1, y));
            proof {
                lemma_push_keeps(sp, stack@[stack@.len() - 1]);
                assert(stack@ == sp.push(stack@[stack@.len() - 1]));
            }
        }
        if y < self.dy - 1 && x > 0 {
            let ghost sp = stack@;
            stack.push((x - 1, y + 1));
            proof {
                lemma_push_keeps(sp, stack@[stack@.len() - 1]);
                assert(stack@ == sp.push(stack@[stack@.len() - 1]));
            }
        }
        if y < self.dy - 1 {
            let ghost sp = stack@;
            stack.push((x, y + 1));
            proof {
                lemma_push_keeps(sp, stack@[stack@.len() - 1]);
                assert(stack@ == sp.push(stack@[stack@.len() - 1]));
            }
        }
        if y < self.dy - 1 && x < self.dx - 1 {
            let ghost sp = stack@;
            stack.push((x + 1, y + 1));
            proof {
                lemma_push_keeps(sp, stack@[stack@.len() - 1]);
                assert(stack@ == sp.push(stack@[stack@.len() - 1]));
            }
        }
        assert(stack@.subrange(0, s0.len() as int) =~= s0);
        assert(x >= 1 && y >= 1 ==> stack@.contains(((x - 1) as usize, (y - 1) as usize)));
        assert(y >= 1 ==> stack@.contains(((x) as usize, (y - 1) as usize)));
        assert(x + 1 < self.dx && y >= 1 ==> stack@.contains(((x + 1) as usize, (y - 1) as usize)));
        assert(x >= 1 ==> stack@.contains(((x - 1) as usize, (y) as usize)));
        assert(x + 1 < self.dx ==> stack@.contains(((x + 1) as usize, (y) as usize)));
        assert(x >= 1 && y + 1 < self.dy ==> stack@.contains(((x - 1) as usize, (y + 1) as usize)));
        assert(y + 1 < self.dy ==> stack@.contains(((x) as usize, (y + 1) as usize)));
        assert(x + 1 < self.dx && y + 1 < self.dy ==> stack@.contains(((x + 1) as usize, (y + 1) as usize)));
    }

    /// Reveals, with an explicit work list, the cells that revealing (x, y) uncovers: the
    /// cell itself and, where it has no mine around it, every cell reachable through hidden,
    /// unflagged cells with no mine around them, together with their hidden, unflagged
    /// neighbours. A cell that is revealed or flagged already stops the flood there; where
    /// (x, y) is such a cell, nothing changes.
    fn reveal_zeros(&mut self, x: usize, y: usize)
        requires
            old(self).wf(),
            old(self).status == GameStatus::Running,
            old(self).in_bounds(x as int, y as int),
            !old(self).cell(x as int, y as int).revealed() && !old(self).cell(x as int, y as int).flagged()
                ==> !old(self).cell(x as int, y as int).mine(),
        ensures
            final(self).wf(),
            final(self).status == GameStatus::Running,
            final(self).same_game(old(self)),
            final(self).flags() == old(self).flags(),
            final(self).flagged_mines() == old(self).flagged_mines(),
            grows(old(self).cells(), final(self).cells()),
            final(self).revealed() >= old(self).revealed(),
            old(self).cell(x as int, y as int).revealed() || old(self).cell(x as int, y as int).flagged()
                ==> *final(self) == *old(self),
            !old(self).cell(x as int, y as int).revealed() && !old(self).cell(x as int, y as int).flagged() ==> {
                &&& final(self).revealed() > old(self).revealed()
                &&& final(self).cell(x as int, y as int).revealed()
                &&& forall|a: int, b: int| old(self).in_bounds(a, b) ==> #[trigger] final(self).cell(a, b).revealed()
                    == (old(self).cell(a, b).revealed() || in_flood(
                    old(self).cells(),
                    x as int,
                    y as int,
                    a,
                    b,
                    old(self).width(),
                    old(self).height(),
                ))
            },
    {
        proof {
            assert(self.cells()[y as int].len() == self.dx);
        }
        if self.board[y][x].is_revealed || self.board[y][x].is_flagged {
            return;
        }
        let ghost o = self.cells();
        let ghost w = self.dx as int;
        let ghost h = self.dy as int;
        let ghost r0 = self.revealed_count;
        let ghost fc = self.flagged_count;
        let ghost fm = self.flagged_mines_count;
        let ghost s0 = seq![(x, y)];
        proof {
            reveal(flood_inv);
            assert(s0 == Seq::<(usize, usize)>::empty().push((x, y)));
            assert(flood_inv(o, o, s0, x as int, y as int, w, h));
        }
        self.uncover(x, y);
        assert(grows(o, self.cells()));
        let mut stack: Vec<(usize, usize)> = Vec::new();
        if self.board[y][x].adjacent_mines == 0 {
            self.push_neighbors(&mut stack, x, y);
            assert forall|i: int| 0 <= i < stack@.len() implies #[trigger] pair_ok(stack@[i], o, self.dx as int, self.dy as int) by {
                let (a, b) = stack@[i];
                assert(self.cells()[b as int][a as int].mine() == o[b as int][a as int].mine());
            }
        }
        proof {
            assert(stack@.subrange(0, 0) =~= Seq::<(usize, usize)>::empty());
            lemma_flood_step(o, o, self.cells(), s0, Seq::empty(), stack@, (x, y), x as int, y as int, w, h);
        }
        while stack.len() > 0
            invariant
                self.wf(),
                self.status == GameStatus::Running,
                self.dx == old(self).dx && self.dy == old(self).dy,
                self.mine_count == old(self).mine_count,
                self.flagged_count == fc && self.flagged_mines_count == fm,
                o == old(self).cells(),
                w == self.dx && h == self.dy,
                r0 == old(self).revealed_count,
                grows(o, self.cells()),
                self.in_bounds(x as int, y as int),
                self.cell(x as int, y as int).revealed(),
                self.revealed_count > r0,
                self.revealed_count <= self.dx * self.dy,
                stack_ok(stack@, o, self.dx as int, self.dy as int),
                flood_inv(o, self.cells(), stack@, x as int, y as int, w, h),
            decreases 9 * (self.dx * self.dy - self.revealed_count) + stack@.len(),
        {
            self.flood_step(&mut stack, Ghost(o), x, y);
        }
        proof {
            assert(stack@ =~= Seq::<(usize, usize)>::empty());
            assert forall|a: int, b: int| old(self).in_bounds(a, b) implies #[trigger] self.cell(a, b).revealed()
                == (old(self).cell(a, b).revealed() || in_flood(o, x as int, y as int, a, b, w, h)) by {
                reveal(flood_inv);
                if in_flood(o, x as int, y as int, a, b, w, h) {
                    lemma_flood_complete(o, self.cells(), x as int, y as int, w, h, a, b);
                }
            }
        }
    }

    /// Takes one cell off the work list and reveals it where it is hidden and has no
    /// flag; where it has no mine around it, its neighbours go onto the list.
    #[verifier::rlimit(100)]
    fn flood_step(&mut self, stack: &mut Vec<(usize, usize)>, Ghost(o): Ghost<Seq<Seq<Field>>>, x: usize, y: usize)
        requires
            old(self).wf(),
            old(self).status == GameStatus::Running,
            grows(o, old(self).cells()),
            shaped(o, old(self).dx as int, old(self).dy as int),
            old(self).in_bounds(x as int, y as int),
            old(self).cell(x as int, y as int).revealed(),
            old(self).revealed_count <= old(self).dx * old(self).dy,
            old(stack)@.len() > 0,
            stack_ok(old(stack)@, o, old(self).dx as int, old(self).dy as int),
            flood_inv(o, old(self).cells(), old(stack)@, x as int, y as int, old(self).dx as int, old(self).dy as int),
        ensures
            final(self).wf(),
            final(self).status == GameStatus::Running,
            final(self).dx == old(self).dx && final(self).dy == old(self).dy,
            final(self).mine_count == old(self).mine_count,
            final(self).flagged_count == old(self).flagged_count,
            final(self).flagged_mines_count == old(self).flagged_mines_count,
            grows(o, final(self).cells()),
            final(self).cell(x as int, y as int).revealed(),
            final(self).revealed_count >= old(self).revealed_count,
            final(self).revealed_count <= final(self).dx * final(self).dy,
            stack_ok(final(stack)@, o, final(self).dx as int, final(self).dy as int),
            flood_inv(o, final(self).cells(), final(stack)@, x as int, y as int, final(self).dx as int, final(self).dy as int),
            9 * (final(self).dx * final(self).dy - final(self).revealed_count) + final(stack)@.len()
                < 9 * (old(self).dx * old(self).dy - old(self).revealed_count) + old(stack)@.len(),
    {
        let ghost s0 = stack@;
        let ghost n0 = self.cells();
        let (cx, cy) = stack.pop().unwrap();
        let ghost s1 = stack@;
        assert(s0[s0.len() - 1] == (cx, cy));
        assert(s0 =~= s1.push((cx, cy)));
        assert(pair_ok(s0[s0.len() - 1], o, self.dx as int, self.dy as int));
        assert(self.cells()[cy as int].len() == self.dx);
        assert(stack_ok(stack@, o, self.dx as int, self.dy as int)) by {
            assert forall|i: int| 0 <= i < stack@.len() implies #[trigger] pair_ok(stack@[i], o, self.dx as int, self.dy as int) by {
                assert(stack@[i] == s0[i]);
            }
        }
        let f = self.board[cy][cx];
        if !f.is_revealed && !f.is_flagged {
            let ghost c1 = self.cells();
            self.uncover(cx, cy);
            proof {
                lemma_grows_trans(o, c1, self.cells());
                assert(c1[y as int][x as int].revealed());
                assert(self.cells()[y as int][x as int].revealed());
            }
            if f.adjacent_mines == 0 {
                let ghost s1 = stack@;
                self.push_neighbors(stack, cx, cy);
                assert forall|i: int| 0 <= i < stack@.len() implies #[trigger] pair_ok(stack@[i], o, self.dx as int, self.dy as int) by {
                    if i < s1.len() {
                        assert(stack@[i] == stack@.subrange(0, s1.len() as int)[i]);
                    } else {
                        let (a, b) = stack@[i];
                        assert(self.cells()[b as int][a as int].mine() == o[b as int][a as int].mine());
                    }
                }
            } else {
                assert(stack@.subrange(0, s1.len() as int) =~= s1);
            }
        } else {
            assert(stack@.subrange(0, s1.len() as int) =~= s1);
        }
        proof {
            lemma_flood_step(o, n0, self.cells(), s0, s1, stack@, (cx, cy), x as int, y as int, self.dx as int, self.dy as int);
        }
    }
}

proof fn lemma_push_keeps(s: Seq<(usize, usize)>, p: (usize, usize))
    ensures
        s.push(p).contains(p),
        forall|q: (usize, usize)| #[trigger] s.contains(q) ==> s.push(p).contains(q),
{
    assert(s.push(p)[s.len() as int] == p);
    assert forall|q: (usize, usize)| #[trigger] s.contains(q) implies s.push(p).contains(q) by {
        let j = choose|j: int| 0 <= j < s.len() && s[j] == q;
        assert(s.push(p)[j] == q);
    }
}

/// (c, d) is one of the eight cells around (a, b).
pub open spec fn is_neighbor(a: int, b: int, c: int, d: int) -> bool {
    &&& a - 1 <= c <= a + 1
    &&& b - 1 <= d <= b + 1
    &&& (c != a || d != b)
}

/// In the grid `o` of `h` rows of `w` cells, (a, b) lies on the board, hidden and
/// without a flag.
pub open spec fn open_at(o: Seq<Seq<Field>>, a: int, b: int, w: int, h: int) -> bool {
    &&& 0 <= a < w
    &&& 0 <= b < h
    &&& !o[b][a].revealed()
    &&& !o[b][a].flagged()
}

/// (a, b) is hidden, without a flag, and has no mine around it.
pub open spec fn zero_at(o: Seq<Seq<Field>>, a: int, b: int, w: int, h: int) -> bool {
    open_at(o, a, b, w, h) && o[b][a].adjacent() == 0
}

/// `p` is a walk from (x, y) through hidden, unflagged cells with no mine around them,
/// each step to one of the eight neighbours.
pub open spec fn zpath(o: Seq<Seq<Field>>, p: Seq<(int, int)>, x: int, y: int, w: int, h: int) -> bool {
    &&& p.len() >= 1
    &&& p[0] == (x, y)
    &&& forall|i: int| 0 <= i < p.len() ==> zero_at(o, #[trigger] p[i].0, p[i].1, w, h)
    &&& forall|i: int| 0 <= i < p.len() - 1 ==> is_neighbor(#[trigger] p[i].0, p[i].1, p[i + 1].0, p[i + 1].1)
}

/// (a, b) can be reached from (x, y) through hidden, unflagged cells with no mine around them.
pub open spec fn reach(o: Seq<Seq<Field>>, x: int, y: int, a: int, b: int, w: int, h: int) -> bool {
    exists|p: Seq<(int, int)>| #[trigger] zpath(o, p, x, y, w, h) && p.last() == (a, b)
}

/// (a, b) is a neighbour of a cell that can be reached from (x, y).
pub open spec fn near_reach(o: Seq<Seq<Field>>, x: int, y: int, a: int, b: int, w: int, h: int) -> bool {
    exists|c: int, d: int| #[trigger] is_neighbor(c, d, a, b) && reach(o, x, y, c, d, w, h)
}

/// The cells that revealing (x, y) uncovers: (x, y) itself, every cell reachable from it
/// through hidden, unflagged cells with no mine around them, and every hidden, unflagged
/// neighbour of such a cell.
pub open spec fn in_flood(o: Seq<Seq<Field>>, x: int, y: int, a: int, b: int, w: int, h: int) -> bool {
    ||| a == x && b == y
    ||| reach(o, x, y, a, b, w, h)
    ||| open_at(o, a, b, w, h) && near_reach(o, x, y, a, b, w, h)
}

/// Where (x, y) is not a hidden, unflagged cell with no mine around it, the flood from
/// it holds that cell alone.
proof fn lemma_no_flood(o: Seq<Seq<Field>>, x: int, y: int, a: int, b: int, w: int, h: int)
    requires
        !zero_at(o, x, y, w, h),
        a != x || b != y,
    ensures
        !in_flood(o, x, y, a, b, w, h),
{
    if reach(o, x, y, a, b, w, h) {
        let p = choose|p: Seq<(int, int)>| #[trigger] zpath(o, p, x, y, w, h) && p.last() == (a, b);
        assert(zero_at(o, p[0].0, p[0].1, w, h));
    }
    if near_reach(o, x, y, a, b, w, h) {
        let (c, d) = choose|c: int, d: int| #[trigger] is_neighbor(c, d, a, b) && reach(o, x, y, c, d, w, h);
        let p = choose|p: Seq<(int, int)>| #[trigger] zpath(o, p, x, y, w, h) && p.last() == (c, d);
        assert(zero_at(o, p[0].0, p[0].1, w, h));
    }
}

proof fn lemma_reach_start(o: Seq<Seq<Field>>, x: int, y: int, w: int, h: int)
    requires
        zero_at(o, x, y, w, h),
    ensures
        reach(o, x, y, x, y, w, h),
{
    let p = seq![(x, y)];
    assert(zpath(o, p, x, y, w, h));
}

proof fn lemma_reach_extend(o: Seq<Seq<Field>>, x: int, y: int, c: int, d: int, a: int, b: int, w: int, h: int)
    requires
        reach(o, x, y, c, d, w, h),
        is_neighbor(c, d, a, b),
        zero_at(o, a, b, w, h),
    ensures
        reach(o, x, y, a, b, w, h),
{
    let p = choose|p: Seq<(int, int)>| #[trigger] zpath(o, p, x, y, w, h) && p.last() == (c, d);
    let q = p.push((a, b));
    assert forall|i: int| 0 <= i < q.len() implies zero_at(o, #[trigger] q[i].0, q[i].1, w, h) by {
        if i < p.len() {
            assert(q[i] == p[i]);
        }
    }
    assert forall|i: int| 0 <= i < q.len() - 1 implies is_neighbor(#[trigger] q[i].0, q[i].1, q[i + 1].0, q[i + 1].1) by {
        assert(q[i] == p[i]);
        if i + 1 < p.len() {
            assert(q[i + 1] == p[i + 1]);
        }
    }
    assert(zpath(o, q, x, y, w, h));
    assert(q.last() == (a, b));
}

/// The work-list invariant of a flood from (x, y) over the grid `o`: every revealed cell
/// of `n` was revealed in `o` or lies in the flood; every entry of `s` lies on the board
/// and is the start or a neighbour of a reachable cell; and every flooded cell with no
/// mine around it has each neighbour revealed, flagged or waiting in `s`.
#[verifier::opaque]
pub open spec fn flood_inv(o: Seq<Seq<Field>>, n: Seq<Seq<Field>>, s: Seq<(usize, usize)>, x: int, y: int, w: int, h: int) -> bool {
    &&& forall|a: int, b: int| 0 <= a < w && 0 <= b < h && #[trigger] n[b][a].revealed() ==> o[b][a].revealed() || in_flood(o, x, y, a, b, w, h)
    &&& forall|i: int| 0 <= i < s.len() ==> {
        let (a, b) = #[trigger] s[i];
        &&& a < w && b < h
        &&& (a == x && b == y) || near_reach(o, x, y, a as int, b as int, w, h)
    }
    &&& forall|a: int, b: int, c: int, d: int|
        #[trigger] is_neighbor(a, b, c, d) && 0 <= a < w && 0 <= b < h && 0 <= c < w && 0 <= d < h
            && n[b][a].revealed() && !o[b][a].revealed() && n[b][a].adjacent() == 0 ==> n[d][c].revealed()
            || n[d][c].flagged() || s.contains((c as usize, d as usize))
}

/// One step of the flood keeps its invariant: the last entry `p` of `s0` is taken off,
/// revealed where it was hidden and unflagged, and, where it has no mine around it, its
/// neighbours are added.
proof fn lemma_flood_step(
    o: Seq<Seq<Field>>,
    n0: Seq<Seq<Field>>,
    n2: Seq<Seq<Field>>,
    s0: Seq<(usize, usize)>,
    s1: Seq<(usize, usize)>,
    s2: Seq<(usize, usize)>,
    p: (usize, usize),
    x: int,
    y: int,
    w: int,
    h: int,
)
    requires
        w <= usize::MAX && h <= usize::MAX,
        shaped(o, w, h),
        shaped(n0, w, h),
        grows(o, n0),
        flood_inv(o, n0, s0, x, y, w, h),
        s0 == s1.push(p),
        s1.len() <= s2.len(),
        s2.subrange(0, s1.len() as int) == s1,
        n0[p.1 as int][p.0 as int].revealed() || n0[p.1 as int][p.0 as int].flagged() ==> n2 == n0 && s2 == s1,
        !n0[p.1 as int][p.0 as int].revealed() && !n0[p.1 as int][p.0 as int].flagged() ==> {
            &&& n2 == n0.update(p.1 as int, n0[p.1 as int].update(p.0 as int, n2[p.1 as int][p.0 as int]))
            &&& n2[p.1 as int][p.0 as int].revealed()
            &&& !n2[p.1 as int][p.0 as int].flagged()
            &&& n2[p.1 as int][p.0 as int].adjacent() == n0[p.1 as int][p.0 as int].adjacent()
            &&& n2[p.1 as int][p.0 as int].mine() == n0[p.1 as int][p.0 as int].mine()
        },
        n2[p.1 as int][p.0 as int].adjacent() != 0 ==> s2 == s1,
        forall|i: int| s1.len() <= i < s2.len() ==> is_neighbor(p.0 as int, p.1 as int, #[trigger] s2[i].0 as int, s2[i].1 as int),
        forall|i: int| s1.len() <= i < s2.len() ==> #[trigger] s2[i].0 < w && s2[i].1 < h,
        !n0[p.1 as int][p.0 as int].revealed() && !n0[p.1 as int][p.0 as int].flagged()
            && n2[p.1 as int][p.0 as int].adjacent() == 0 ==> forall|c: int, d: int|
            #[trigger] is_neighbor(p.0 as int, p.1 as int, c, d) && 0 <= c < w && 0 <= d < h ==> s2.contains(
                (c as usize, d as usize),
            ),
    ensures
        flood_inv(o, n2, s2, x, y, w, h),
        shaped(n2, w, h),
        grows(o, n2),
{
    reveal(flood_inv);
    let pa = p.0 as int;
    let pb = p.1 as int;
    let fresh = !n0[pb][pa].revealed() && !n0[pb][pa].flagged();
    assert(s0[s0.len() - 1] == p);
    assert(pa < w && pb < h);
    if fresh {
        assert(grows(n0, n2));
        lemma_grows_trans(o, n0, n2);
        // p lies in the flood
        assert(!o[pb][pa].revealed());
        assert(open_at(o, pa, pb, w, h));
        assert((pa == x && pb == y) || near_reach(o, x, y, pa, pb, w, h));
        if n2[pb][pa].adjacent() == 0 {
            assert(zero_at(o, pa, pb, w, h));
            if pa == x && pb == y {
                lemma_reach_start(o, x, y, w, h);
            } else {
                let (c, d) = choose|c: int, d: int| #[trigger] is_neighbor(c, d, pa, pb) && reach(o, x, y, c, d, w, h);
                lemma_reach_extend(o, x, y, c, d, pa, pb, w, h);
            }
            assert(reach(o, x, y, pa, pb, w, h));
        }
    }
    assert forall|a: int, b: int| 0 <= a < w && 0 <= b < h && #[trigger] n2[b][a].revealed() implies o[b][a].revealed() || in_flood(o, x, y, a, b, w, h) by {
        if !(a == pa && b == pb) || !fresh {
            assert(n2[b][a] == n0[b][a]);
        }
    }
    assert forall|i: int| 0 <= i < s2.len() implies {
        let (a, b) = #[trigger] s2[i];
        &&& a < w && b < h
        &&& (a == x && b == y) || near_reach(o, x, y, a as int, b as int, w, h)
    } by {
        if i < s1.len() {
            assert(s2[i] == s2.subrange(0, s1.len() as int)[i]);
            assert(s1[i] == s0[i]);
        } else {
            assert(is_neighbor(pa, pb, s2[i].0 as int, s2[i].1 as int));
        }
    }
    assert forall|a: int, b: int, c: int, d: int|
        #[trigger] is_neighbor(a, b, c, d) && 0 <= a < w && 0 <= b < h && 0 <= c < w && 0 <= d < h
            && n2[b][a].revealed() && !o[b][a].revealed() && n2[b][a].adjacent() == 0 implies n2[d][c].revealed()
            || n2[d][c].flagged() || s2.contains((c as usize, d as usize)) by {
        let q = (c as usize, d as usize);
        if fresh && a == pa && b == pb {
            assert(is_neighbor(pa, pb, c, d));
        } else {
            assert(n2[b][a] == n0[b][a]);
            assert(n0[d][c].revealed() || n0[d][c].flagged() || s0.contains(q));
            if s0.contains(q) && !n0[d][c].revealed() && !n0[d][c].flagged() {
                let j = choose|j: int| 0 <= j < s0.len() && s0[j] == q;
                if j < s1.len() {
                    assert(s1[j] == q);
                    assert(s2[j] == s2.subrange(0, s1.len() as int)[j]);
                    assert(s2.contains(q));
                } else {
                    assert(q == p);
                    assert(c == pa && d == pb);
                }
            }
        }
    }
}

/// Once the work list is empty, every cell of the flood is revealed.
proof fn lemma_flood_complete(o: Seq<Seq<Field>>, n: Seq<Seq<Field>>, x: int, y: int, w: int, h: int, a: int, b: int)
    requires
        w <= usize::MAX && h <= usize::MAX,
        shaped(o, w, h),
        grows(o, n),
        flood_inv(o, n, Seq::empty(), x, y, w, h),
        0 <= x < w && 0 <= y < h,
        n[y][x].revealed(),
        0 <= a < w && 0 <= b < h,
        in_flood(o, x, y, a, b, w, h),
    ensures
        n[b][a].revealed(),
{
    if reach(o, x, y, a, b, w, h) {
        let p = choose|p: Seq<(int, int)>| #[trigger] zpath(o, p, x, y, w, h) && p.last() == (a, b);
        lemma_path_revealed(o, n, x, y, w, h, p);
    } else if !(a == x && b == y) {
        let (c, d) = choose|c: int, d: int| #[trigger] is_neighbor(c, d, a, b) && reach(o, x, y, c, d, w, h);
        let p = choose|p: Seq<(int, int)>| #[trigger] zpath(o, p, x, y, w, h) && p.last() == (c, d);
        lemma_path_revealed(o, n, x, y, w, h, p);
        assert(zero_at(o, p[p.len() - 1].0, p[p.len() - 1].1, w, h));
        reveal(flood_inv);
        assert(n[d][c].revealed() && !o[d][c].revealed() && n[d][c].adjacent() == 0);
        assert(!Seq::<(usize, usize)>::empty().contains((a as usize, b as usize)));
        assert(n[b][a].flagged() == o[b][a].flagged());
    }
}

proof fn lemma_path_revealed(o: Seq<Seq<Field>>, n: Seq<Seq<Field>>, x: int, y: int, w: int, h: int, p: Seq<(int, int)>)
    requires
        w <= usize::MAX && h <= usize::MAX,
        shaped(o, w, h),
        grows(o, n),
        flood_inv(o, n, Seq::empty(), x, y, w, h),
        n[y][x].revealed(),
        zpath(o, p, x, y, w, h),
    ensures
        n[p.last().1][p.last().0].revealed(),
    decreases p.len(),
{
    if p.len() > 1 {
        let q = p.drop_last();
        assert forall|i: int| 0 <= i < q.len() implies zero_at(o, #[trigger] q[i].0, q[i].1, w, h) by {
            assert(q[i] == p[i]);
        }
        assert forall|i: int| 0 <= i < q.len() - 1 implies is_neighbor(#[trigger] q[i].0, q[i].1, q[i + 1].0, q[i + 1].1) by {
            assert(q[i] == p[i]);
            assert(q[i + 1] == p[i + 1]);
        }
        assert(zpath(o, q, x, y, w, h));
        lemma_path_revealed(o, n, x, y, w, h, q);
        let (c, d) = q.last();
        let (a, b) = p.last();
        assert(zero_at(o, p[p.len() - 2].0, p[p.len() - 2].1, w, h));
        assert(zero_at(o, p[p.len() - 1].0, p[p.len() - 1].1, w, h));
        assert(is_neighbor(p[p.len() - 2].0, p[p.len() - 2].1, p[p.len() - 1].0, p[p.len() - 1].1));
        reveal(flood_inv);
        assert(is_neighbor(c, d, a, b));
        assert(n[d][c].revealed() && !o[d][c].revealed() && n[d][c].adjacent() == 0);
        assert(!Seq::<(usize, usize)>::empty().contains((a as usize, b as usize)));
        assert(n[b][a].flagged() == o[b][a].flagged());
    }
}

/// A work-list entry lies on the board and, in the grid `o`, holds no mine.
pub open spec fn pair_ok(p: (usize, usize), o: Seq<Seq<Field>>, w: int, h: int) -> bool {
    &&& 0 <= p.0 < w
    &&& 0 <= p.1 < h
    &&& !o[p.1 as int][p.0 as int].mine()
}

pub open spec fn stack_ok(s: Seq<(usize, usize)>, o: Seq<Seq<Field>>, w: int, h: int) -> bool {
    forall|i: int| 0 <= i < s.len() ==> #[trigger] pair_ok(s[i], o, w, h)
}

impl Minesweeper {
    /// Reveals the cell at (x, y). Nothing happens where the game is not running, or
    /// the cell lies off the board, is revealed or carries a flag. A mine ends the game;
    /// a cell with no mine around it reveals its whole region; then a running game whose
    /// board shows a win is won.
    pub fn reveal_cell(&mut self, x: usize, y: usize)
        requires
            old(self).wf(),
            old(self).status_ok(),
        ensures
            final(self).wf(),
            final(self).status_ok(),
            final(self).same_game(old(self)),
            final(self).flags() == old(self).flags(),
            final(self).flagged_mines() == old(self).flagged_mines(),
            final(self).revealed() >= old(self).revealed(),
            grows(old(self).cells(), final(self).cells()),
            old(self).state() != GameStatus::Running || !old(self).in_bounds(x as int, y as int)
                || old(self).cell(x as int, y as int).revealed()
                || old(self).cell(x as int, y as int).flagged() ==> *final(self) == *old(self),
            old(self).state() == GameStatus::Running && old(self).in_bounds(x as int, y as int)
                && !old(self).cell(x as int, y as int).revealed()
                && !old(self).cell(x as int, y as int).flagged() ==> {
                &&& final(self).cell(x as int, y as int).revealed()
                &&& final(self).revealed() > old(self).revealed()
                &&& old(self).cell(x as int, y as int).mine() ==> final(self).state() == GameStatus::GameOver
                    && final(self).revealed() == old(self).revealed() + 1
                    && final(self).others_same(old(self), x as int, y as int)
                &&& old(self).cell(x as int, y as int).adjacent() != 0 ==> final(self).others_same(old(self), x as int, y as int)
                &&& !old(self).cell(x as int, y as int).mine() ==> final(self).state() == if final(self).won() {
                    GameStatus::Win
                } else {
                    GameStatus::Running
                }
                &&& old(self).cell(x as int, y as int).adjacent() != 0 ==> final(self).revealed() == old(self).revealed() + 1
                &&& !old(self).cell(x as int, y as int).mine() ==> no_revealed_mine(final(self).cells())
                &&& !old(self).cell(x as int, y as int).mine() ==> forall|a: int, b: int| old(self).in_bounds(a, b)
                    ==> #[trigger] final(self).cell(a, b).revealed() == (old(self).cell(a, b).revealed() || in_flood(
                    old(self).cells(),
                    x as int,
                    y as int,
                    a,
                    b,
                    old(self).width(),
                    old(self).height(),
                ))
            },
            old(self).state() == GameStatus::Running && old(self).in_bounds(x as int, y as int)
                && !old(self).cell(x as int, y as int).revealed()
                && !old(self).cell(x as int, y as int).flagged()
                && final(self).exactly_safe_revealed() ==> final(self).state() == GameStatus::Win,
    {
        if self.status != GameStatus::Running || x >= self.dx || y >= self.dy {
            return;
        }
        proof {
            assert(self.cells()[y as int].len() == self.dx);
        }
        let f = self.board[y][x];
        if f.is_revealed || f.is_flagged {
            return;
        }
        if f.is_mine {
            self.status = GameStatus::GameOver;
            proof {
                reveal(no_revealed_mine);
            }
            self.uncover(x, y);
            proof {
                reveal(no_revealed_mine);
                assert(self.cells()[y as int][x as int].revealed() && self.cells()[y as int][x as int].mine());
            }
            return;
        } else if f.adjacent_mines == 0 {
            self.reveal_zeros(x, y);
        } else {
            self.uncover(x, y);
        }
        let ghost mid = *self;
        proof {
            reveal(no_revealed_mine);
        }
        self.check_win();
        proof {
            let o = old(self).cells();
            assert forall|a: int, b: int| old(self).in_bounds(a, b) implies #[trigger] self.cell(a, b).revealed()
                == (old(self).cell(a, b).revealed() || in_flood(o, x as int, y as int, a, b, old(self).width(), old(self).height())) by {
                assert(mid.cell(a, b) == self.cell(a, b));
                if f.adjacent_mines != 0 && (a != x || b != y) {
                    lemma_no_flood(o, x as int, y as int, a, b, old(self).width(), old(self).height());
                }
            }
        }
        proof {
            if self.exactly_safe_revealed() {
                self.lemma_clearance();
            }
            self.lemma_bounds();
        }
    }

    /// Where exactly the cells without a mine are revealed, the revealed count is the
    /// number of cells less the number of mines.
    proof fn lemma_clearance(&self)
        requires
            self.wf(),
            self.exactly_safe_revealed(),
        ensures
            self.revealed() == self.size() - self.mines(),
    {
        let c = self.cells();
        assert forall|y: int, x: int| 0 <= y < c.len() && 0 <= x < c[y].len() implies revealed_p()(c[y][x]) == safe_p()(c[y][x]) by {
            assert(self.in_bounds(x, y));
            assert(c[y][x] == self.cell(x, y));
        }
        lemma_count2_congr(c, revealed_p(), c, safe_p());
        lemma_count2_split(c, self.dx as int, mine_p(), safe_p());
        assert(self.dy * self.dx == self.dx * self.dy) by (nonlinear_arith);
    }

    /// Where every mine carries a flag, the flagged-mine count is the number of mines.
    proof fn lemma_all_flagged(&self)
        requires
            self.wf(),
            self.all_mines_flagged(),
        ensures
            self.flagged_mines() == self.mines(),
    {
        let c = self.cells();
        assert forall|y: int, x: int| 0 <= y < c.len() && 0 <= x < c[y].len() implies flagged_mine_p()(c[y][x]) == mine_p()(c[y][x]) by {
            assert(self.in_bounds(x, y));
            assert(c[y][x] == self.cell(x, y));
        }
        lemma_count2_congr(c, flagged_mine_p(), c, mine_p());
    }

    /// Puts a flag on the cell at (x, y) or takes it off. Nothing happens where the game
    /// is not running, or the cell lies off the board or is revealed. Then a running game
    /// whose board shows a win is won.
    pub fn flag(&mut self, x: usize, y: usize)
        requires
            old(self).wf(),
            old(self).status_ok(),
        ensures
            final(self).wf(),
            final(self).status_ok(),
            final(self).same_game(old(self)),
            final(self).revealed() == old(self).revealed(),
            old(self).state() != GameStatus::Running || !old(self).in_bounds(x as int, y as int)
                || old(self).cell(x as int, y as int).revealed() ==> *final(self) == *old(self),
            old(self).state() == GameStatus::Running && old(self).in_bounds(x as int, y as int)
                && !old(self).cell(x as int, y as int).revealed() ==> {
                &&& final(self).cells() == old(self).cells().update(
                    y as int,
                    old(self).cells()[y as int].update(x as int, old(self).cell(x as int, y as int).toggled()),
                )
                &&& final(self).cell(x as int, y as int).flagged() == !old(self).cell(x as int, y as int).flagged()
                &&& final(self).cell(x as int, y as int).mine() == old(self).cell(x as int, y as int).mine()
                &&& final(self).cell(x as int, y as int).revealed() == old(self).cell(x as int, y as int).revealed()
                &&& final(self).cell(x as int, y as int).adjacent() == old(self).cell(x as int, y as int).adjacent()
                &&& final(self).others_same(old(self), x as int, y as int)
                &&& final(self).flags() == old(self).flags() + if old(self).cell(x as int, y as int).flagged() { -1int } else { 1int }
                &&& final(self).flagged_mines() == old(self).flagged_mines() + if !old(self).cell(x as int, y as int).mine() {
                    0int
                } else if old(self).cell(x as int, y as int).flagged() {
                    -1int
                } else {
                    1int
                }
                &&& final(self).state() == if final(self).won() { GameStatus::Win } else { GameStatus::Running }
            },
            old(self).state() == GameStatus::Running && old(self).in_bounds(x as int, y as int)
                && !old(self).cell(x as int, y as int).revealed()
                && final(self).all_mines_flagged() ==> final(self).state() == GameStatus::Win,
    {
        if self.status != GameStatus::Running || x >= self.dx || y >= self.dy {
            return;
        }
        proof {
            assert(self.cells()[y as int].len() == self.dx);
        }
        if self.board[y][x].is_revealed {
            return;
        }
        self.toggle_flag(x, y);
        self.check_win();
        proof {
            if self.all_mines_flagged() {
                self.lemma_all_flagged();
            }
            self.lemma_bounds();
        }
    }
}

/// Some element of `s` equals `v`.
pub open spec fn holds_index(s: Seq<usize>, v: int) -> bool {
    exists|i: int| 0 <= i < s.len() && s[i] == v
}

pub closed spec fn blank() -> Field {
    Field { is_mine: false, is_revealed: false, is_flagged: false, adjacent_mines: 0 }
}

/// A board of `dy` rows of `dx` blank cells.
fn blank_board(dx: usize, dy: usize) -> (b: Vec<Vec<Field>>)
    ensures
        shaped(grid(b@), dx as int, dy as int),
        forall|y: int, x: int| 0 <= y < dy && 0 <= x < dx ==> #[trigger] grid(b@)[y][x] == blank(),
{
    let mut b: Vec<Vec<Field>> = Vec::new();
    let mut y: usize = 0;
    while y < dy
        invariant
            y <= dy,
            b@.len() == y,
            forall|j: int| 0 <= j < y ==> #[trigger] b@[j]@.len() == dx,
            forall|j: int, i: int| 0 <= j < y && 0 <= i < dx ==> #[trigger] b@[j]@[i] == blank(),
        decreases dy - y,
    {
        let mut row: Vec<Field> = Vec::new();
        let mut x: usize = 0;
        while x < dx
            invariant
                x <= dx,
                row@.len() == x,
                forall|i: int| 0 <= i < x ==> #[trigger] row@[i] == blank(),
            decreases dx - x,
        {
            row.push(Field { is_mine: false, is_revealed: false, is_flagged: false, adjacent_mines: 0 });
            x = x + 1;
        }
        b.push(row);
        y = y + 1;
    }
    b
}

/// The number of mines around (x, y) on a board of `dy` rows of `dx` cells.
fn count_adjacent(b: &Vec<Vec<Field>>, x: usize, y: usize, dx: usize, dy: usize) -> (r: usize)
    requires
        shaped(grid(b@), dx as int, dy as int),
        x < dx && y < dy,
    ensures
        r == neighbor_mines(grid(b@), x as int, y as int),
{
    let ghost c = grid(b@);
    assert(forall|j: int| 0 <= j < dy ==> #[trigger] b@[j]@.len() == c[j].len());
    let mut n: usize = 0;
    if y > 0 && x > 0 && b[y - 1][x - 1].is_mine {
        n = n + 1;
    }
    if y > 0 && b[y - 1][x].is_mine {
        n = n + 1;
    }
    if y > 0 && x < dx - 1 && b[y - 1][x + 1].is_mine {
        n = n + 1;
    }
    if x > 0 && b[y][x - 1].is_mine {
        n = n + 1;
    }
    if x < dx - 1 && b[y][x + 1].is_mine {
        n = n + 1;
    }
    if y < dy - 1 && x > 0 && b[y + 1][x - 1].is_mine {
        n = n + 1;
    }
    if y < dy - 1 && b[y + 1][x].is_mine {
        n = n + 1;
    }
    if y < dy - 1 && x < dx - 1 && b[y + 1][x + 1].is_mine {
        n = n + 1;
    }
    n
}

/// A board of blank cells with a mine on each cell whose index, counted row by row,
/// is in `mines`.
#[verifier::rlimit(60)]
fn mined_board(dx: usize, dy: usize, mines: &Vec<usize>) -> (b: Vec<Vec<Field>>)
    requires
        dx >= 1,
        dx * dy <= usize::MAX,
        mines@.no_duplicates(),
        forall|i: int| 0 <= i < mines@.len() ==> mines@[i] < dx * dy,
    ensures
        shaped(grid(b@), dx as int, dy as int),
        count2(grid(b@), mine_p()) == mines@.len(),
        forall|y: int, x: int| 0 <= y < dy && 0 <= x < dx ==> {
            let f = #[trigger] grid(b@)[y][x];
            &&& f.mine() == holds_index(mines@, y * dx + x)
            &&& !f.revealed() && !f.flagged() && f.adjacent() == 0
        },
{
    let mut b = blank_board(dx, dy);
    proof {
        lemma_count2_none(grid(b@), mine_p());
    }
    let mut k: usize = 0;
    while k < mines.len()
        invariant
            k <= mines@.len(),
            dx >= 1,
            dx * dy <= usize::MAX,
            mines@.no_duplicates(),
            forall|i: int| 0 <= i < mines@.len() ==> mines@[i] < dx * dy,
            shaped(grid(b@), dx as int, dy as int),
            count2(grid(b@), mine_p()) == k,
            forall|y: int, x: int| 0 <= y < dy && 0 <= x < dx ==> {
                let f = #[trigger] grid(b@)[y][x];
                &&& f.mine() == holds_index(mines@.subrange(0, k as int), y * dx + x)
                &&& !f.revealed() && !f.flagged() && f.adjacent() == 0
            },
        decreases mines@.len() - k,
    {
        let m = mines[k];
        let row = m / dx;
        let col = m % dx;
        proof {
            lemma_fundamental_div_mod(m as int, dx as int);
            lemma_mod_pos_bound(m as int, dx as int);
            let (mi, di, ri, ci, dyi) = (m as int, dx as int, row as int, col as int, dy as int);
            assert(ri < dyi) by (nonlinear_arith)
                requires
                    mi == di * ri + ci,
                    0 <= ci,
                    mi < di * dyi,
                    di > 0,
                    ri >= 0,
            {}
            assert(ri * di + ci == mi) by (nonlinear_arith)
                requires
                    mi == di * ri + ci,
            {}
            assert(!holds_index(mines@.subrange(0, k as int), m as int)) by {
                if holds_index(mines@.subrange(0, k as int), m as int) {
                    let j = choose|j: int| 0 <= j < k && mines@.subrange(0, k as int)[j] == m;
                    assert(mines@[j] == mines@[k as int]);
                }
            }
            assert(!grid(b@)[row as int][col as int].mine());
        }
        let ghost c = grid(b@);
        put(&mut b, col, row, Field { is_mine: true, is_revealed: false, is_flagged: false, adjacent_mines: 0 });
        proof {
            let f = Field { is_mine: true, is_revealed: false, is_flagged: false, adjacent_mines: 0 };
            lemma_count2_update(c, row as int, col as int, f, mine_p());
            let s1 = mines@.subrange(0, k as int + 1);
            assert(s1 =~= mines@.subrange(0, k as int).push(m));
            assert forall|y: int, x: int| 0 <= y < dy && 0 <= x < dx implies {
                let f = #[trigger] grid(b@)[y][x];
                &&& f.mine() == holds_index(s1, y * dx + x)
                &&& !f.revealed() && !f.flagged() && f.adjacent() == 0
            } by {
                assert(c[y][x] == c[y][x]);
                if y * dx + x == m {
                    lemma_fundamental_div_mod_converse(m as int, dx as int, y, x);
                }
                if y == row && x == col {
                    assert(y * dx + x == m);
                    assert(s1[k as int] == m);
                }
                if holds_index(s1, y * dx + x) && y * dx + x != m {
                    let j = choose|j: int| 0 <= j < s1.len() && s1[j] == y * dx + x;
                    assert(mines@.subrange(0, k as int)[j] == s1[j]);
                }
                if holds_index(mines@.subrange(0, k as int), y * dx + x) {
                    let j = choose|j: int| 0 <= j < k && mines@.subrange(0, k as int)[j] == y * dx + x;
                    assert(s1[j] == mines@.subrange(0, k as int)[j]);
                }
            }
        }
        k = k + 1;
    }
    assert(mines@.subrange(0, k as int) =~= mines@);
    b
}

/// A copy of the board `b1` in which each cell holds the number of mines around it,
/// hidden and without a flag.
#[verifier::rlimit(60)]
fn counted_board(b1: &Vec<Vec<Field>>, dx: usize, dy: usize) -> (b2: Vec<Vec<Field>>)
    requires
        shaped(grid(b1@), dx as int, dy as int),
    ensures
        b2@.len() == dy,
        forall|j: int| 0 <= j < dy ==> #[trigger] b2@[j]@.len() == dx,
        forall|j: int, i: int| 0 <= j < dy && 0 <= i < dx ==> {
            let f = #[trigger] b2@[j]@[i];
            &&& f.mine() == grid(b1@)[j][i].mine()
            &&& f.adjacent() == neighbor_mines(grid(b1@), i, j)
            &&& !f.revealed() && !f.flagged()
        },
{
    let ghost c1 = grid(b1@);
        let mut b2: Vec<Vec<Field>> = Vec::new();
        let mut y: usize = 0;
        while y < dy
            invariant
                y <= dy,
                shaped(c1, dx as int, dy as int),
                c1 == grid(b1@),
                b2@.len() == y,
                forall|j: int| 0 <= j < y ==> #[trigger] b2@[j]@.len() == dx,
                forall|j: int, i: int| 0 <= j < y && 0 <= i < dx ==> {
                    let f = #[trigger] b2@[j]@[i];
                    &&& f.mine() == c1[j][i].mine()
                    &&& f.adjacent() == neighbor_mines(c1, i, j)
                    &&& !f.revealed() && !f.flagged()
                },
            decreases dy - y,
        {
            let mut row: Vec<Field> = Vec::new();
            let mut x: usize = 0;
            while x < dx
                invariant
                    x <= dx,
                    y < dy,
                    shaped(c1, dx as int, dy as int),
                    c1 == grid(b1@),
                    row@.len() == x,
                    forall|i: int| 0 <= i < x ==> {
                        let f = #[trigger] row@[i];
                        &&& f.mine() == c1[y as int][i].mine()
                        &&& f.adjacent() == neighbor_mines(c1, i, y as int)
                        &&& !f.revealed() && !f.flagged()
                    },
                decreases dx - x,
            {
                let n = count_adjacent(&b1, x, y, dx, dy);
                proof {
                    assert(c1[y as int].len() == dx);
                }
                let m = b1[y][x].is_mine;
                row.push(Field { is_mine: m, is_revealed: false, is_flagged: false, adjacent_mines: n });
                x = x + 1;
            }
            b2.push(row);
            y = y + 1;
        }
    b2
}

impl Minesweeper {
    /// The board's shape and the settings are valid.
    pub closed spec fn settings_ok(&self) -> bool {
        &&& self.dx >= 1
        &&& self.dy >= 1
        &&& self.dx * self.dy <= usize::MAX
        &&& self.mine_count < self.dx * self.dy
    }

    /// Starts the game over with a mine on each cell whose index, counted row by row
    /// (`y * width + x`), is in `mines`.
    #[verifier::rlimit(100)]
    pub fn restart_with_mines(&mut self, mines: &Vec<usize>)
        requires
            old(self).settings_ok(),
            mines@.len() == old(self).mines(),
            mines@.no_duplicates(),
            forall|i: int| 0 <= i < mines@.len() ==> mines@[i] < old(self).size(),
        ensures
            final(self).wf(),
            final(self).same_game(old(self)),
            final(self).state() == GameStatus::Running,
            final(self).revealed() == 0 && final(self).flags() == 0 && final(self).flagged_mines() == 0,
            final(self).status_ok(),
            forall|x: int, y: int| #![trigger final(self).cell(x, y)] final(self).in_bounds(x, y) ==> {
                &&& final(self).cell(x, y).mine() == holds_index(mines@, y * final(self).width() + x)
                &&& !final(self).cell(x, y).revealed()
                &&& !final(self).cell(x, y).flagged()
            },
    {
        let dx = self.dx;
        let dy = self.dy;
        let b1 = mined_board(dx, dy, mines);
        let ghost c1 = grid(b1@);
        let b2 = counted_board(&b1, dx, dy);
        self.board = b2;
        self.status = GameStatus::Running;
        self.start_ms = now_ms();
        self.revealed_count = 0;
        self.flagged_count = 0;
        self.flagged_mines_count = 0;
        proof {
            lemma_fresh_board(c1, self.board@, dx as int, dy as int);
        }
    }
}

/// A board built by `counted_board` from `c1` is well formed, holds the mines of `c1`,
/// and has nothing revealed or flagged.
proof fn lemma_fresh_board(c1: Seq<Seq<Field>>, b: Seq<Vec<Field>>, dx: int, dy: int)
    requires
        shaped(c1, dx, dy),
        b.len() == dy,
        forall|j: int| 0 <= j < dy ==> #[trigger] b[j]@.len() == dx,
        forall|j: int, i: int| 0 <= j < dy && 0 <= i < dx ==> {
            let f = #[trigger] b[j]@[i];
            &&& f.mine() == c1[j][i].mine()
            &&& f.adjacent() == neighbor_mines(c1, i, j)
            &&& !f.revealed() && !f.flagged()
        },
    ensures
        shaped(grid(b), dx, dy),
        board_ok(grid(b), dx, dy),
        no_revealed_mine(grid(b)),
        count2(grid(b), mine_p()) == count2(c1, mine_p()),
        count2(grid(b), revealed_p()) == 0,
        count2(grid(b), flagged_p()) == 0,
        count2(grid(b), flagged_mine_p()) == 0,
{
    let c = grid(b);
    assert(shaped(c, dx, dy));
    assert(same_mines(c1, c));
    lemma_same_mines(c1, c);
    lemma_count2_none(c, revealed_p());
    lemma_count2_none(c, flagged_p());
    lemma_count2_none(c, flagged_mine_p());
    reveal(board_ok);
    reveal(no_revealed_mine);
    assert(board_ok(c, dx, dy));
}

impl Minesweeper {
    /// Starts the game over: a fresh board with the mines placed at random, the
    /// counters at zero and the clock started anew.
    pub fn restart(&mut self)
        requires
            old(self).settings_ok(),
        ensures
            final(self).wf(),
            final(self).same_game(old(self)),
            final(self).state() == GameStatus::Running,
            final(self).revealed() == 0 && final(self).flags() == 0 && final(self).flagged_mines() == 0,
            final(self).status_ok(),
            forall|x: int, y: int| #![trigger final(self).cell(x, y)] final(self).in_bounds(x, y) ==> {
                &&& !final(self).cell(x, y).revealed()
                &&& !final(self).cell(x, y).flagged()
            },
    {
        let mines = sample_indices(self.dx * self.dy, self.mine_count);
        self.restart_with_mines(&mines);
    }
}

/// A new game with the given settings, started with mines placed at random.
pub fn new(set: Settings) -> (m: Minesweeper)
    requires
        set.valid(),
    ensures
        m.wf(),
        m.width() == set.dx && m.height() == set.dy && m.mines() == set.mine_count,
        m.state() == GameStatus::Running,
        m.revealed() == 0 && m.flags() == 0 && m.flagged_mines() == 0,
        m.status_ok(),
        forall|x: int, y: int| #![trigger m.cell(x, y)] m.in_bounds(x, y) ==> {
            &&& !m.cell(x, y).revealed()
            &&& !m.cell(x, y).flagged()
        },
{
    let mut m = Minesweeper {
        status: GameStatus::Running,
        start_ms: now_ms(),
        dx: set.dx,
        dy: set.dy,
        mine_count: set.mine_count,
        revealed_count: 0,
        flagged_count: 0,
        flagged_mines_count: 0,
        board: Vec::new(),
    };
    m.restart();
    m
}

impl Minesweeper {
    pub fn status(&self) -> (r: GameStatus)
        ensures
            r == self.state(),
    {
        self.status
    }

    pub fn mine_count(&self) -> (r: usize)
        ensures
            r == self.mines(),
    {
        self.mine_count
    }

    pub fn flagged_count(&self) -> (r: usize)
        ensures
            r == self.flags(),
    {
        self.flagged_count
    }

    /// A copy of the board, row by row.
    pub fn board_clone(&self) -> (r: Vec<Vec<Field>>)
        requires
            self.wf(),
        ensures
            grid(r@) == self.cells(),
            shaped(grid(r@), self.width(), self.height()),
    {
        let mut r: Vec<Vec<Field>> = Vec::new();
        let mut y: usize = 0;
        while y < self.board.len()
            invariant
                y <= self.board@.len(),
                r@.len() == y,
                forall|j: int| 0 <= j < y ==> #[trigger] r@[j]@ == self.board@[j]@,
            decreases self.board@.len() - y,
        {
            let mut row: Vec<Field> = Vec::new();
            let mut x: usize = 0;
            while x < self.board[y].len()
                invariant
                    y < self.board@.len(),
                    x <= self.board@[y as int]@.len(),
                    row@ == self.board@[y as int]@.subrange(0, x as int),
                decreases self.board@[y as int]@.len() - x,
            {
                row.push(self.board[y][x]);
                x = x + 1;
                assert(row@ =~= self.board@[y as int]@.subrange(0, x as int));
            }
            assert(row@ =~= self.board@[y as int]@);
            r.push(row);
            y = y + 1;
        }
        assert(grid(r@) =~= self.cells());
        r
    }

    /// The wall-clock time, in milliseconds, at which the game (re)started.
    pub closed spec fn started(&self) -> int {
        self.start_ms as int
    }

    /// Whole seconds since the game (re)started, whatever its status: the elapsed time
    /// to some reading of the clock.
    pub fn seconds_running(&self) -> (r: u64)
        ensures
            exists|t: u64| r == elapsed_spec(self.started(), t as int),
    {
        let t = now_ms();
        let r = elapsed_seconds(self.start_ms, t);
        assert(r == elapsed_spec(self.started(), t as int));
        r
    }
}

/// On every well-formed game, each cell holds the number of mines among its up to
/// eight neighbours on the board.
pub proof fn lemma_adjacency(g: &Minesweeper)
    requires
        g.wf(),
    ensures
        forall|x: int, y: int| g.in_bounds(x, y) ==> #[trigger] g.cell(x, y).adjacent() == neighbor_mines(g.cells(), x, y),
{
    reveal(board_ok);
}

/// On every well-formed game the board holds as many mines as the settings say, and the
/// counters of revealed cells, of flags and of flagged mines equal a recount of the board.
pub proof fn lemma_counters(g: &Minesweeper)
    requires
        g.wf(),
    ensures
        count2(g.cells(), mine_p()) == g.mines(),
        count2(g.cells(), revealed_p()) == g.revealed(),
        count2(g.cells(), flagged_p()) == g.flags(),
        count2(g.cells(), flagged_mine_p()) == g.flagged_mines(),
{
}

/// On every well-formed game the board has `height()` rows of `width()` cells, and
/// there is at least one of each.
pub proof fn lemma_shape(g: &Minesweeper)
    requires
        g.wf(),
    ensures
        shaped(g.cells(), g.width(), g.height()),
        g.width() >= 1 && g.height() >= 1,
        g.mines() < g.size(),
        g.settings_ok(),
{
}

/// Putting a flag on a cell and taking it off again gives back the same cell.
pub proof fn lemma_toggle_twice(f: Field)
    ensures
        f.toggled().toggled() == f,
        f.toggled().flagged() == !f.flagged(),
        f.toggled().mine() == f.mine(),
        f.toggled().revealed() == f.revealed(),
        f.toggled().adjacent() == f.adjacent(),
{
}

/// On every well-formed game no cell is both revealed and flagged, and the game is lost
/// exactly when a mine is revealed.
pub proof fn lemma_exclusive(g: &Minesweeper)
    requires
        g.wf(),
    ensures
        forall|x: int, y: int| g.in_bounds(x, y) ==> !(#[trigger] g.cell(x, y).revealed() && g.cell(x, y).flagged()),
        g.state() == GameStatus::Running ==> no_revealed_mine(g.cells()),
        (g.state() == GameStatus::GameOver) == !no_revealed_mine(g.cells()),
{
    reveal(board_ok);
}

/// `d` is `c` with possibly more cells revealed and nothing else changed.
pub open spec fn grows(c: Seq<Seq<Field>>, d: Seq<Seq<Field>>) -> bool {
    &&& c.len() == d.len()
    &&& forall|y: int| 0 <= y < c.len() ==> #[trigger] c[y].len() == d[y].len()
    &&& forall|y: int, x: int|
        #![trigger c[y][x]]
        #![trigger d[y][x]]
        0 <= y < c.len() && 0 <= x < c[y].len() ==> {
            &&& c[y][x].mine() == d[y][x].mine()
            &&& c[y][x].flagged() == d[y][x].flagged()
            &&& c[y][x].adjacent() == d[y][x].adjacent()
            &&& (c[y][x].revealed() ==> d[y][x].revealed())
        }
}

proof fn lemma_grows_trans(c: Seq<Seq<Field>>, d: Seq<Seq<Field>>, e: Seq<Seq<Field>>)
    requires
        grows(c, d),
        grows(d, e),
    ensures
        grows(c, e),
{
    assert forall|y: int, x: int| 0 <= y < c.len() && 0 <= x < c[y].len() implies {
        &&& c[y][x].mine() == e[y][x].mine()
        &&& c[y][x].flagged() == e[y][x].flagged()
        &&& c[y][x].adjacent() == e[y][x].adjacent()
        &&& (c[y][x].revealed() ==> e[y][x].revealed())
    } by {
        assert(d[y][x] == d[y][x]);
    }
}

/// The grid has `h` rows of `w` cells, no cell is both revealed and flagged, and every
/// cell holds the number of mines around it.
#[verifier::opaque]
pub open spec fn board_ok(c: Seq<Seq<Field>>, w: int, h: int) -> bool {
    &&& shaped(c, w, h)
    &&& forall|y: int, x: int| 0 <= y < h && 0 <= x < w ==> !(#[trigger] c[y][x].revealed() && c[y][x].flagged())
    &&& forall|y: int, x: int| 0 <= y < h && 0 <= x < w ==> #[trigger] c[y][x].adjacent() == neighbor_mines(c, x, y)
}

/// No mine on the grid is revealed.
#[verifier::opaque]
pub open spec fn no_revealed_mine(c: Seq<Seq<Field>>) -> bool {
    forall|y: int, x: int| 0 <= y < c.len() && 0 <= x < c[y].len() ==> !(#[trigger] c[y][x].revealed() && c[y][x].mine())
}

proof fn lemma_update_ok(c: Seq<Seq<Field>>, d: Seq<Seq<Field>>, y: int, x: int, w: int, h: int)
    requires
        board_ok(c, w, h),
        0 <= y < h && 0 <= x < w,
        d == c.update(y, c[y].update(x, d[y][x])),
        d[y][x].mine() == c[y][x].mine(),
        d[y][x].adjacent() == c[y][x].adjacent(),
        !(d[y][x].revealed() && d[y][x].flagged()),
        !(c[y][x].revealed() && c[y][x].mine()),
    ensures
        shaped(d, w, h),
        board_ok(d, w, h),
        !(d[y][x].revealed() && d[y][x].mine()) ==> no_revealed_mine(d) == no_revealed_mine(c),
        d[y][x].revealed() && d[y][x].mine() ==> !no_revealed_mine(d),
        grows(c, d) <== (c[y][x].flagged() == d[y][x].flagged() && (c[y][x].revealed() ==> d[y][x].revealed())),
{
    reveal(board_ok);
    reveal(no_revealed_mine);
    assert(same_mines(c, d));
    lemma_same_mines(c, d);
    assert forall|b: int, a: int| 0 <= b < h && 0 <= a < w implies #[trigger] d[b][a].adjacent() == neighbor_mines(d, a, b) by {
        assert(c[b][a].adjacent() == neighbor_mines(c, a, b));
    }
    assert forall|b: int, a: int| 0 <= b < h && 0 <= a < w implies !(#[trigger] d[b][a].revealed() && d[b][a].flagged()) by {
        assert(!(c[b][a].revealed() && c[b][a].flagged()));
    }
    if !(d[y][x].revealed() && d[y][x].mine()) {
        if no_revealed_mine(c) {
            assert forall|b: int, a: int| 0 <= b < d.len() && 0 <= a < d[b].len() implies !(#[trigger] d[b][a].revealed() && d[b][a].mine()) by {
                assert(!(c[b][a].revealed() && c[b][a].mine()));
            }
        }
        if no_revealed_mine(d) {
            assert forall|b: int, a: int| 0 <= b < c.len() && 0 <= a < c[b].len() implies !(#[trigger] c[b][a].revealed() && c[b][a].mine()) by {
                assert(!(d[b][a].revealed() && d[b][a].mine()));
            }
        }
    } else {
        assert(d[y][x].revealed() && d[y][x].mine());
    }
}

} // verus!

//! The grid and the step-wise self-avoiding walk over it.
//!
//! A `Grid` owns an `N x N` matrix of `Tile`s, the ordered current path, a
//! transient list of cells pending release after backtracking, and a seeded
//! random source. Each `next_path` call either extends the path into a
//! random untried, unoccupied neighbor of the tip, backtracks one step, or
//! marks the walk done when the path covers the whole grid.

use vstd::prelude::*;

verus! {

/// One of the four axis directions a walk step can take, in the fixed table
/// order Up, Right, Down, Left.
#[derive(Clone, Copy, PartialEq, Eq, Structural, Debug)]
pub enum Direction {
    Up,
    Right,
    Down,
    Left,
}

/// A cell position: column `i`, row `j`.
#[derive(Clone, Copy, PartialEq, Eq, Structural, Debug)]
pub struct Pos {
    pub i: usize,
    pub j: usize,
}

/// Per-cell state: the position assigned at grid construction, an occupancy
/// flag, and one "this direction was already consumed from here" flag per
/// direction.
#[derive(Clone, Copy, Debug)]
pub struct Tile {
    occupied: bool,
    i: usize,
    j: usize,
    tried_up: bool,
    tried_right: bool,
    tried_down: bool,
    tried_left: bool,
}

impl Tile {
    /// Whether this tile is currently part of the live path or pending
    /// release.
    pub closed spec fn occupied_spec(self) -> bool {
        self.occupied
    }

    /// The position this tile was assigned at grid construction.
    pub closed spec fn pos_spec(self) -> Pos {
        Pos { i: self.i, j: self.j }
    }

    /// Whether the given direction has already been consumed from this tile
    /// since its last reset.
    pub closed spec fn tried_spec(self, d: Direction) -> bool {
        match d {
            Direction::Up => self.tried_up,
            Direction::Right => self.tried_right,
            Direction::Down => self.tried_down,
            Direction::Left => self.tried_left,
        }
    }

    /// A fresh tile: unoccupied, nothing tried, position not yet assigned.
    pub fn new() -> (t: Tile)
        ensures
            !t.occupied_spec(),
            t.pos_spec() == (Pos { i: 0, j: 0 }),
            forall|d: Direction| !t.tried_spec(d),
    {
        Tile {
            occupied: false,
            i: 0,
            j: 0,
            tried_up: false,
            tried_right: false,
            tried_down: false,
            tried_left: false,
        }
    }

    /// Assigns the tile its position; done once at grid construction.
    pub fn init(&mut self, i: usize, j: usize)
        ensures
            final(self).pos_spec() == (Pos { i, j }),
            final(self).occupied_spec() == old(self).occupied_spec(),
            forall|d: Direction| final(self).tried_spec(d) == old(self).tried_spec(d),
    {
        self.i = i;
        self.j = j;
    }

    /// Sets the occupancy flag; no other effect.
    pub fn set_occupied(&mut self, visited: bool)
        ensures
            final(self).occupied_spec() == visited,
            final(self).pos_spec() == old(self).pos_spec(),
            forall|d: Direction| final(self).tried_spec(d) == old(self).tried_spec(d),
    {
        self.occupied = visited;
    }

    /// Marks the given direction as consumed; idempotent, no other effect.
    pub fn add_tried(&mut self, direction: Direction)
        ensures
            final(self).tried_spec(direction),
            forall|d: Direction| d != direction ==> final(self).tried_spec(d) == old(
                self,
            ).tried_spec(d),
            final(self).occupied_spec() == old(self).occupied_spec(),
            final(self).pos_spec() == old(self).pos_spec(),
    {
        match direction {
            Direction::Up => {
                self.tried_up = true;
            },
            Direction::Right => {
                self.tried_right = true;
            },
            Direction::Down => {
                self.tried_down = true;
            },
            Direction::Left => {
                self.tried_left = true;
            },
        }
    }

    /// The directions not yet tried from this tile, in the fixed table
    /// order.
    pub fn can_try(&self) -> (r: Vec<Direction>)
        ensures
            r@ == untried_seq(*self),
    {
        let mut r: Vec<Direction> = Vec::new();
        if !self.tried_up {
            r.push(Direction::Up);
        }
        if !self.tried_right {
            r.push(Direction::Right);
        }
        if !self.tried_down {
            r.push(Direction::Down);
        }
        if !self.tried_left {
            r.push(Direction::Left);
        }
        proof {
            assert(r@ =~= untried_seq(*self));
        }
        r
    }

    /// Whether this tile is currently part of the live path or pending
    /// release.
    pub fn is_occupied(&self) -> (r: bool)
        ensures
            r == self.occupied_spec(),
    {
        self.occupied
    }

    /// Whether the given direction has already been consumed from this tile.
    pub fn was_tried(&self, d: Direction) -> (r: bool)
        ensures
            r == self.tried_spec(d),
    {
        match d {
            Direction::Up => self.tried_up,
            Direction::Right => self.tried_right,
            Direction::Down => self.tried_down,
            Direction::Left => self.tried_left,
        }
    }

    /// Resets all four tried flags; used only when a pending-release tile is
    /// freed.
    pub fn clear_tried(&mut self)
        ensures
            forall|d: Direction| !final(self).tried_spec(d),
            final(self).occupied_spec() == old(self).occupied_spec(),
            final(self).pos_spec() == old(self).pos_spec(),
    {
        self.tried_up = false;
        self.tried_right = false;
        self.tried_down = false;
        self.tried_left = false;
    }
}

/// Whether `p` lies on an `n x n` grid.
pub open spec fn pos_in(p: Pos, n: nat) -> bool {
    p.i < n && p.j < n
}

/// Whether every position of `s` lies on an `n x n` grid.
pub open spec fn seq_in_bounds(s: Seq<Pos>, n: nat) -> bool {
    forall|k: int| 0 <= k < s.len() ==> pos_in(#[trigger] s[k], n)
}

/// Whether two cells are grid-adjacent: they differ by exactly one unit in
/// exactly one axis.
pub open spec fn adjacent(a: Pos, b: Pos) -> bool {
    ||| (a.i == b.i && (a.j + 1 == b.j || b.j + 1 == a.j))
    ||| (a.j == b.j && (a.i + 1 == b.i || b.i + 1 == a.i))
}

/// Whether `s` visits no position twice.
pub open spec fn self_avoiding(s: Seq<Pos>) -> bool {
    forall|k: int, l: int| 0 <= k < l < s.len() ==> s[k] != s[l]
}

/// Whether consecutive positions of `s` are grid-adjacent.
pub open spec fn path_connected(s: Seq<Pos>) -> bool {
    forall|k: int| 0 <= k < s.len() - 1 ==> adjacent(#[trigger] s[k], s[k + 1])
}

/// The neighbor of `p` one step in direction `d` on an `n x n` grid, or
/// `None` when that step would leave the grid.
pub open spec fn neighbor_in(p: Pos, d: Direction, n: nat) -> Option<Pos> {
    match d {
        Direction::Up => if p.j >= 1 {
            Option::Some(Pos { i: p.i, j: (p.j - 1) as usize })
        } else {
            Option::None
        },
        Direction::Right => if p.i + 1 < n {
            Option::Some(Pos { i: (p.i + 1) as usize, j: p.j })
        } else {
            Option::None
        },
        Direction::Down => if p.j + 1 < n {
            Option::Some(Pos { i: p.i, j: (p.j + 1) as usize })
        } else {
            Option::None
        },
        Direction::Left => if p.i >= 1 {
            Option::Some(Pos { i: (p.i - 1) as usize, j: p.j })
        } else {
            Option::None
        },
    }
}

/// An in-grid neighbor is adjacent to its origin and on the grid.
pub proof fn lemma_neighbor_adjacent(p: Pos, d: Direction, n: nat)
    requires
        n <= usize::MAX,
        pos_in(p, n),
        neighbor_in(p, d, n) is Some,
    ensures
        adjacent(p, neighbor_in(p, d, n).unwrap()),
        pos_in(neighbor_in(p, d, n).unwrap(), n),
{
    let q = neighbor_in(p, d, n).unwrap();
    match d {
        Direction::Up => {
            assert(q.j + 1 == p.j);
        },
        Direction::Right => {
            assert(p.i + 1 == q.i);
        },
        Direction::Down => {
            assert(p.j + 1 == q.j);
        },
        Direction::Left => {
            assert(q.i + 1 == p.i);
        },
    }
}

/// The row-major index of an in-bounds position lies below the cell count.
proof fn lemma_flat_in_range(n: nat, a: Pos)
    by (nonlinear_arith)
    requires
        pos_in(a, n),
    ensures
        a.i * n + a.j < n * n,
{
}

/// Row-major indexing is injective on in-bounds positions.
proof fn lemma_flat_injective(n: nat, a: Pos, b: Pos)
    by (nonlinear_arith)
    requires
        pos_in(a, n),
        pos_in(b, n),
        a.i * n + a.j == b.i * n + b.j,
    ensures
        a == b,
{
}

/// The untried directions of a tile, in the fixed table order.
pub open spec fn untried_seq(t: Tile) -> Seq<Direction> {
    (if !t.tried_spec(Direction::Up) {
        seq![Direction::Up]
    } else {
        Seq::empty()
    }) + (if !t.tried_spec(Direction::Right) {
        seq![Direction::Right]
    } else {
        Seq::empty()
    }) + (if !t.tried_spec(Direction::Down) {
        seq![Direction::Down]
    } else {
        Seq::empty()
    }) + (if !t.tried_spec(Direction::Left) {
        seq![Direction::Left]
    } else {
        Seq::empty()
    })
}

/// The walk state: an `N x N` matrix of tiles stored row-major, the ordered
/// live path, the cells pending release since the last backtrack run, the
/// grid's own random source, and the completion flag.
pub struct Grid {
    grid: Vec<Tile>,
    size: usize,
    path: Vec<Pos>,
    undo_path: Vec<Pos>,
    rng: rand::rngs::StdRng,
    done: bool,
}

impl Grid {
    /// The grid dimension `N`.
    pub closed spec fn size_spec(self) -> nat {
        self.size as nat
    }

    /// The live path, front = start, back = current tip.
    pub closed spec fn path_spec(self) -> Seq<Pos> {
        self.path@
    }

    /// The cells popped off the path since the last successful extension and
    /// not yet released.
    pub closed spec fn pending_spec(self) -> Seq<Pos> {
        self.undo_path@
    }

    /// Whether the walk has covered the whole grid.
    pub closed spec fn done_spec(self) -> bool {
        self.done
    }

    /// The current tip of the path.
    pub open spec fn tip_spec(self) -> Pos {
        self.path_spec().last()
    }

    /// The tile at position `p`.
    pub closed spec fn tile_at(self, p: Pos) -> Tile {
        self.grid@[p.i * self.size + p.j]
    }

    /// Whether the tile at `p` is occupied.
    pub open spec fn occupied_at(self, p: Pos) -> bool {
        self.tile_at(p).occupied_spec()
    }

    /// Whether direction `d` has already been consumed from the tile at `p`.
    pub open spec fn tried_at(self, p: Pos, d: Direction) -> bool {
        self.tile_at(p).tried_spec(d)
    }

    /// The grid's structural invariant, maintained by every operation: the
    /// matrix has one tile per cell, tagged with its own position; the path
    /// is an in-bounds self-avoiding walk of adjacent cells; the pending
    /// list is in bounds and disjoint from the path; and a cell is occupied
    /// exactly when it lies on the path or is pending release.
    pub closed spec fn wf(self) -> bool {
        &&& 1 <= self.size
        &&& self.size * self.size <= usize::MAX
        &&& self.grid@.len() == self.size * self.size
        &&& forall|p: Pos|
            pos_in(p, self.size_spec()) ==> (#[trigger] self.tile_at(p)).pos_spec() == p
        &&& seq_in_bounds(self.path@, self.size_spec())
        &&& self_avoiding(self.path@)
        &&& path_connected(self.path@)
        &&& seq_in_bounds(self.undo_path@, self.size_spec())
        &&& forall|p: Pos| !(self.path@.contains(p) && #[trigger] self.undo_path@.contains(p))
        &&& forall|p: Pos|
            pos_in(p, self.size_spec()) ==> (self.occupied_at(p) <==> (self.path@.contains(p)
                || self.undo_path@.contains(p)))
    }

    /// Builds a fresh `size x size` grid with an empty path, nothing pending,
    /// every tile free and untried, and a random source determined by
    /// `seed`. A one-cell grid is trivially complete, so `done` starts true
    /// exactly then.
    pub fn new(size: usize, seed: u64) -> (g: Grid)
        requires
            1 <= size,
            size * size <= usize::MAX,
        ensures
            g.wf(),
            g.size_spec() == size,
            g.path_spec().len() == 0,
            g.pending_spec().len() == 0,
            g.done_spec() == (size == 1),
            forall|p: Pos| pos_in(p, size as nat) ==> !g.occupied_at(p),
            forall|p: Pos, d: Direction| pos_in(p, size as nat) ==> !g.tried_at(p, d),
    {
        let rng = crate::rng::rng_from_seed(seed);
        let mut tiles: Vec<Tile> = Vec::new();
        let mut i: usize = 0;
        while i < size
            invariant
                i <= size,
                size * size <= usize::MAX,
                tiles@.len() == i * size,
                forall|p: Pos|
                    pos_in(p, size as nat) && p.i * size + p.j < tiles@.len() ==> fresh_at(
                        tiles@,
                        p,
                        size as nat,
                    ),
            decreases size - i,
        {
            let mut j: usize = 0;
            proof {
                assert(i * size + size <= size * size) by (nonlinear_arith)
                    requires
                        i < size,
                ;
            }
            while j < size
                invariant
                    i < size,
                    j <= size,
                    size * size <= usize::MAX,
                    i * size + size <= size * size,
                    tiles@.len() == i * size + j,
                    forall|p: Pos|
                        pos_in(p, size as nat) && p.i * size + p.j < tiles@.len() ==> fresh_at(
                            tiles@,
                            p,
                            size as nat,
                        ),
                decreases size - j,
            {
                let mut t = Tile::new();
                t.init(i, j);
                tiles.push(t);
                proof {
                    let q = Pos { i, j };
                    assert forall|p: Pos|
                        pos_in(p, size as nat) && p.i * size + p.j < tiles@.len() implies fresh_at(
                        tiles@,
                        p,
                        size as nat,
                    ) by {
                        if p.i * size + p.j < tiles@.len() - 1 {
                        } else {
                            lemma_flat_injective(size as nat, p, q);
                        }
                    }
                }
                j = j + 1;
            }
            proof {
                assert(i * size + size == (i + 1) * size) by (nonlinear_arith);
            }
            i = i + 1;
        }
        let g = Grid {
            grid: tiles,
            size,
            path: Vec::new(),
            undo_path: Vec::new(),
            rng,
            done: size == 1,
        };
        proof {
            assert forall|p: Pos| pos_in(p, g.size_spec()) implies (#[trigger] g.tile_at(p)).pos_spec()
                == p && !g.occupied_at(p) && (forall|d: Direction| !g.tried_at(p, d)) by {
                lemma_flat_in_range(size as nat, p);
                assert(fresh_at(g.grid@, p, size as nat));
            }
        }
        g
    }

    /// The grid dimension.
    pub fn size(&self) -> (r: usize)
        ensures
            r == self.size_spec(),
    {
        self.size
    }

    /// Whether the walk has covered the whole grid.
    pub fn is_done(&self) -> (r: bool)
        ensures
            r == self.done_spec(),
    {
        self.done
    }

    /// A read-only snapshot of the live path, oldest to newest.
    pub fn current_path(&self) -> (r: Vec<Pos>)
        ensures
            r@ == self.path_spec(),
    {
        copy_positions(&self.path)
    }

    /// A read-only snapshot of the cells pending release.
    pub fn pending_release(&self) -> (r: Vec<Pos>)
        ensures
            r@ == self.pending_spec(),
    {
        copy_positions(&self.undo_path)
    }

    /// Seeds the walk: picks a uniformly random cell, pushes it onto the
    /// path and marks its tile occupied. The walk is seeded only once, from
    /// a fresh state; a grid whose path or pending list is already non-empty
    /// is left untouched.
    pub fn init(&mut self)
        requires
            old(self).wf(),
        ensures
            final(self).wf(),
            final(self).size_spec() == old(self).size_spec(),
            final(self).done_spec() == old(self).done_spec(),
            final(self).pending_spec() == old(self).pending_spec(),
            old(self).path_spec().len() != 0 || old(self).pending_spec().len() != 0 ==> *final(self)
                == *old(self),
            old(self).path_spec().len() == 0 && old(self).pending_spec().len() == 0 ==> {
                &&& final(self).path_spec().len() == 1
                &&& pos_in(final(self).path_spec()[0], final(self).size_spec())
                &&& final(self).occupied_at(final(self).path_spec()[0])
                &&& forall|p: Pos|
                    pos_in(p, old(self).size_spec()) && p != final(self).path_spec()[0]
                        ==> final(self).occupied_at(p) == old(self).occupied_at(p)
                &&& forall|p: Pos, d: Direction|
                    pos_in(p, old(self).size_spec()) ==> final(self).tried_at(p, d) == old(
                        self,
                    ).tried_at(p, d)
            },
    {
        if self.path.len() != 0 || self.undo_path.len() != 0 {
            return ;
        }
        let i = crate::rng::rand_below(&mut self.rng, self.size);
        let j = crate::rng::rand_below(&mut self.rng, self.size);
        let first = Pos { i, j };
        proof {
            lemma_flat_in_range(self.size as nat, first);
        }
        let k = i * self.size + j;
        let mut t = self.grid[k];
        t.set_occupied(true);
        self.grid[k] = t;
        self.path.push(first);
        proof {
            let n = self.size as nat;
            assert forall|p: Pos| pos_in(p, n) && p != first implies self.tile_at(p) == old(
                self,
            ).tile_at(p) by {
                lemma_flat_in_range(n, p);
                if p.i * n + p.j == first.i * n + first.j {
                    lemma_flat_injective(n, p, first);
                }
            }
            assert forall|p: Pos| pos_in(p, n) implies (self.occupied_at(p) <==> (
            self.path@.contains(p) || self.undo_path@.contains(p))) by {
                lemma_push_contains(old(self).path@, first, p);
                lemma_flat_in_range(n, p);
                if p == first {
                    assert(self.occupied_at(p));
                    assert(self.path@.contains(p));
                } else {
                    assert(self.tile_at(p) == old(self).tile_at(p));
                    assert(!old(self).occupied_at(p));
                }
            }
            assert forall|p: Pos| !(self.path@.contains(p)
                && #[trigger] self.undo_path@.contains(p)) by {
            }
        }
    }

    /// Pops the tip off the path onto the pending list; its tile keeps its
    /// occupancy and tried flags.
    fn undo_path(&mut self)
        requires
            old(self).wf(),
            old(self).path@.len() >= 1,
        ensures
            final(self).wf(),
            final(self).size == old(self).size,
            final(self).done == old(self).done,
            final(self).rng == old(self).rng,
            final(self).grid@ == old(self).grid@,
            final(self).path@ == old(self).path@.drop_last(),
            final(self).undo_path@ == old(self).undo_path@.push(old(self).path@.last()),
    {
        let last = self.path.pop();
        match last {
            Option::Some(tile) => {
                self.undo_path.push(tile);
            },
            Option::None => {},
        }
        proof {
            let n = self.size as nat;
            let tip = old(self).path@.last();
            assert(self.path@ =~= old(self).path@.drop_last());
            assert(old(self).path@ =~= self.path@.push(tip));
            assert(old(self).path@.contains(tip));
            assert forall|p: Pos| pos_in(p, n) implies (self.occupied_at(p) <==> (
            self.path@.contains(p) || self.undo_path@.contains(p))) by {
                lemma_push_contains(self.path@, tip, p);
                lemma_push_contains(old(self).undo_path@, tip, p);
                assert(old(self).occupied_at(p) <==> (old(self).path@.contains(p)
                    || old(self).undo_path@.contains(p)));
                assert(self.occupied_at(p) == old(self).occupied_at(p));
                assert(old(self).path@.contains(p) <==> (self.path@.contains(p) || p == tip));
            }
            assert forall|p: Pos| !(self.path@.contains(p)
                && #[trigger] self.undo_path@.contains(p)) by {
                lemma_push_contains(self.path@, tip, p);
                lemma_push_contains(old(self).undo_path@, tip, p);
                if self.path@.contains(p) {
                    assert(old(self).path@.contains(p));
                    if p == tip {
                        let m = choose|m: int|
                            0 <= m < self.path@.len() && self.path@[m] == p;
                        assert(old(self).path@[m] == p);
                        assert(old(self).path@[old(self).path@.len() - 1] == p);
                    }
                }
            }
            assert(self_avoiding(self.path@)) by {
                assert forall|k: int, l: int| 0 <= k < l < self.path@.len() implies self.path@[k]
                    != self.path@[l] by {
                    assert(old(self).path@[k] == self.path@[k]);
                    assert(old(self).path@[l] == self.path@[l]);
                }
            }
            assert(path_connected(self.path@)) by {
                assert forall|k: int| 0 <= k < self.path@.len() - 1 implies adjacent(
                    #[trigger] self.path@[k],
                    self.path@[k + 1],
                ) by {
                    assert(adjacent(old(self).path@[k], old(self).path@[k + 1]));
                }
            }
            assert forall|p: Pos| pos_in(p, n) implies (#[trigger] self.tile_at(p)).pos_spec()
                == p by {
                assert(self.tile_at(p) == old(self).tile_at(p));
            }
            assert(seq_in_bounds(self.path@, n));
            assert(seq_in_bounds(self.undo_path@, n)) by {
                assert forall|k: int| 0 <= k < self.undo_path@.len() implies pos_in(
                    #[trigger] self.undo_path@[k],
                    n,
                ) by {
                    if k < old(self).undo_path@.len() {
                    } else {
                        assert(self.undo_path@[k] == tip);
                        assert(pos_in(old(self).path@[old(self).path@.len() - 1], n));
                    }
                }
            }
        }
    }

    /// Frees every cell pending release — occupancy off, tried flags
    /// cleared — and empties the pending list.
    fn reset_undone(&mut self)
        requires
            old(self).wf(),
        ensures
            final(self).wf(),
            final(self).size == old(self).size,
            final(self).done == old(self).done,
            final(self).rng == old(self).rng,
            final(self).path@ == old(self).path@,
            final(self).undo_path@.len() == 0,
            forall|p: Pos|
                pos_in(p, old(self).size_spec()) ==> (#[trigger] final(self).occupied_at(p) <==> (
                old(self).occupied_at(p) && !old(self).undo_path@.contains(p))),
            forall|p: Pos, d: Direction|
                pos_in(p, old(self).size_spec()) ==> #[trigger] final(self).tried_at(p, d) == (if old(
                    self,
                ).undo_path@.contains(p) {
                    false
                } else {
                    old(self).tried_at(p, d)
                }),
    {
        let ghost n = old(self).size as nat;
        let mut idx: usize = 0;
        while idx < self.undo_path.len()
            invariant
                old(self).wf(),
                idx <= self.undo_path@.len(),
                self.size == old(self).size,
                self.path@ == old(self).path@,
                self.undo_path@ == old(self).undo_path@,
                self.done == old(self).done,
                self.rng == old(self).rng,
                self.grid@.len() == old(self).grid@.len(),
                n == old(self).size as nat,
                forall|p: Pos|
                    pos_in(p, n) && in_prefix(old(self).undo_path@, idx as int, p) ==> tile_cleared(
                        #[trigger] self.tile_at(p),
                    ),
                forall|p: Pos|
                    pos_in(p, n) && !in_prefix(old(self).undo_path@, idx as int, p)
                        ==> #[trigger] self.tile_at(p) == old(self).tile_at(p),
                forall|p: Pos|
                    pos_in(p, n) ==> (#[trigger] self.tile_at(p)).pos_spec() == old(self).tile_at(
                        p,
                    ).pos_spec(),
            decreases self.undo_path@.len() - idx,
        {
            let ghost prev = *self;
            let p = self.undo_path[idx];
            proof {
                assert(pos_in(p, n));
                lemma_flat_in_range(n, p);
            }
            let k = p.i * self.size + p.j;
            let mut t = self.grid[k];
            t.set_occupied(false);
            t.clear_tried();
            self.grid[k] = t;
            proof {
                assert forall|q: Pos| pos_in(q, n) && q != p implies #[trigger] self.tile_at(q)
                    == prev.tile_at(q) by {
                    lemma_flat_in_range(n, q);
                    if q.i * n + q.j == p.i * n + p.j {
                        lemma_flat_injective(n, q, p);
                    }
                }
                assert(tile_cleared(self.tile_at(p)));
                assert(self.tile_at(p).pos_spec() == prev.tile_at(p).pos_spec());
                assert forall|q: Pos|
                    pos_in(q, n) && in_prefix(old(self).undo_path@, idx + 1, q) implies tile_cleared(
                    #[trigger] self.tile_at(q),
                ) by {
                    if q != p {
                        let m = choose|m: int| 0 <= m < idx + 1 && old(self).undo_path@[m] == q;
                        assert(m < idx);
                        assert(in_prefix(old(self).undo_path@, idx as int, q));
                        assert(tile_cleared(prev.tile_at(q)));
                    }
                }
                assert forall|q: Pos|
                    pos_in(q, n) && !in_prefix(old(self).undo_path@, idx + 1, q)
                    implies #[trigger] self.tile_at(q) == old(self).tile_at(q) by {
                    assert(old(self).undo_path@[idx as int] == p);
                    if q == p {
                        assert(in_prefix(old(self).undo_path@, idx + 1, q));
                    }
                    assert(q != p);
                    assert(!in_prefix(old(self).undo_path@, idx as int, q)) by {
                        if in_prefix(old(self).undo_path@, idx as int, q) {
                            let m = choose|m: int|
                                0 <= m < idx && old(self).undo_path@[m] == q;
                            assert(in_prefix(old(self).undo_path@, idx + 1, q));
                        }
                    }
                }
            }
            idx = idx + 1;
        }
        let ghost before = *self;
        self.undo_path = Vec::new();
        proof {
            let s0 = *old(self);
            let len = s0.undo_path@.len() as int;
            assert forall|p: Pos| pos_in(p, n) implies in_prefix(s0.undo_path@, len, p)
                == s0.undo_path@.contains(p) by {
                if in_prefix(s0.undo_path@, len, p) {
                    let m = choose|m: int| 0 <= m < len && s0.undo_path@[m] == p;
                    assert(s0.undo_path@.contains(p));
                }
                if s0.undo_path@.contains(p) {
                    let m = choose|m: int| 0 <= m < s0.undo_path@.len() && s0.undo_path@[m] == p;
                    assert(in_prefix(s0.undo_path@, len, p));
                }
            }
            assert forall|p: Pos| pos_in(p, n) implies (#[trigger] self.occupied_at(p) <==> (
            s0.occupied_at(p) && !s0.undo_path@.contains(p))) by {
                assert(self.tile_at(p) == before.tile_at(p));
                assert(s0.occupied_at(p) <==> (s0.path@.contains(p) || s0.undo_path@.contains(
                    p,
                )));
                if s0.undo_path@.contains(p) {
                    assert(tile_cleared(before.tile_at(p)));
                } else {
                    assert(before.tile_at(p) == s0.tile_at(p));
                }
            }
            assert forall|p: Pos, d: Direction| pos_in(p, n) implies #[trigger] self.tried_at(p, d)
                == (if s0.undo_path@.contains(p) {
                false
            } else {
                s0.tried_at(p, d)
            }) by {
                assert(self.tile_at(p) == before.tile_at(p));
                if s0.undo_path@.contains(p) {
                    assert(tile_cleared(before.tile_at(p)));
                } else {
                    assert(before.tile_at(p) == s0.tile_at(p));
                }
            }
            assert forall|p: Pos| pos_in(p, n) implies (#[trigger] self.tile_at(p)).pos_spec()
                == p by {
                assert(before.tile_at(p).pos_spec() == s0.tile_at(p).pos_spec());
                assert(s0.tile_at(p).pos_spec() == p);
            }
            assert forall|p: Pos| pos_in(p, n) implies (self.occupied_at(p) <==> (
            self.path@.contains(p) || self.undo_path@.contains(p))) by {
                assert(s0.occupied_at(p) <==> (s0.path@.contains(p) || s0.undo_path@.contains(
                    p,
                )));
                if self.occupied_at(p) {
                    assert(s0.occupied_at(p) && !s0.undo_path@.contains(p));
                    assert(s0.path@.contains(p));
                }
                if self.path@.contains(p) {
                    assert(!s0.undo_path@.contains(p));
                    assert(s0.occupied_at(p));
                }
            }
        }
    }

    /// Appends the move in direction `d` from the tip to `cands` when the
    /// tip has not yet consumed `d` and the neighbor in `d` lies on the grid
    /// and is unoccupied; otherwise leaves `cands` as it is.
    fn consider(&self, tip: Pos, d: Direction, cands: &mut Vec<Candidate>)
        requires
            self.wf(),
            self.path_spec().len() >= 1,
            tip == self.tip_spec(),
        ensures
            valid_step(*self, d) ==> final(cands)@ == old(cands)@.push(
                Candidate { d, p: neighbor_in(tip, d, self.size_spec()).unwrap() },
            ),
            !valid_step(*self, d) ==> final(cands)@ == old(cands)@,
    {
        proof {
            assert(self.path_spec()[self.path_spec().len() - 1] == tip);
            assert(pos_in(tip, self.size_spec()));
        }
        let t = self.tile(tip.i, tip.j);
        if t.was_tried(d) {
            return ;
        }
        match step_pos(tip, d, self.size) {
            Option::Some(p) => {
                proof {
                    lemma_neighbor_adjacent(tip, d, self.size as nat);
                }
                let tp = self.tile(p.i, p.j);
                if !tp.is_occupied() {
                    cands.push(Candidate { d, p });
                }
            },
            Option::None => {},
        }
    }

    /// Advances the walk one step. When the walk is already done, nothing
    /// changes. When some untried direction leads from the tip to an
    /// in-grid, unoccupied cell, one such move is chosen uniformly at random
    /// and the path extends onto it, releasing every cell pending from
    /// earlier backtracking. At a dead end the walk raises `done` when the
    /// path covers the whole grid, and otherwise backtracks one step,
    /// deferring the release of the abandoned cell until growth resumes.
    pub fn next_path(&mut self)
        requires
            old(self).wf(),
            old(self).path_spec().len() >= 1,
        ensures
            final(self).wf(),
            final(self).size_spec() == old(self).size_spec(),
            old(self).done_spec() ==> *final(self) == *old(self),
            old(self).done_spec() ==> final(self).done_spec(),
            final(self).path_spec().len() > old(self).path_spec().len() ==> final(self)
                .pending_spec().len() == 0,
            !old(self).done_spec() && !stuck(*old(self)) ==> exists|d: Direction|
                valid_step(*old(self), d) && #[trigger] extended(*old(self), *final(self), d),
            !old(self).done_spec() && stuck(*old(self)) && old(self).path_spec().len() == old(
                self,
            ).size_spec() * old(self).size_spec() ==> completed(*old(self), *final(self)),
            !old(self).done_spec() && stuck(*old(self)) && old(self).path_spec().len() != old(
                self,
            ).size_spec() * old(self).size_spec() ==> backtracked(*old(self), *final(self)),
    {
        if self.done {
            return ;
        }
        let ghost s0 = *old(self);
        let ghost n = s0.size_spec();
        let tip = self.path[self.path.len() - 1];
        proof {
            assert(tip == s0.tip_spec());
            assert(pos_in(tip, n));
            assert(s0.path@.contains(tip)) by {
                assert(s0.path@[s0.path@.len() - 1] == tip);
            }
        }
        let mut cands: Vec<Candidate> = Vec::new();
        self.consider(tip, Direction::Up, &mut cands);
        self.consider(tip, Direction::Right, &mut cands);
        self.consider(tip, Direction::Down, &mut cands);
        self.consider(tip, Direction::Left, &mut cands);
        proof {
            assert forall|m: int| 0 <= m < cands@.len() implies valid_step(
                s0,
                (#[trigger] cands@[m]).d,
            ) && cands@[m].p == neighbor_in(tip, cands@[m].d, n).unwrap() by {
            }
            if cands@.len() == 0 {
                assert forall|d: Direction| !valid_step(s0, d) by {
                    if valid_step(s0, d) {
                        match d {
                            Direction::Up => assert(cands@.len() > 0),
                            Direction::Right => assert(cands@.len() > 0),
                            Direction::Down => assert(cands@.len() > 0),
                            Direction::Left => assert(cands@.len() > 0),
                        }
                    }
                }
            }
        }
        if cands.len() > 0 {
            let idx = crate::rng::rand_below(&mut self.rng, cands.len());
            let c = cands[idx];
            proof {
                assert(valid_step(s0, c.d));
                assert(c.p == neighbor_in(tip, c.d, n).unwrap());
                lemma_neighbor_adjacent(tip, c.d, n);
                lemma_flat_in_range(n, tip);
                lemma_flat_in_range(n, c.p);
                assert(s0.occupied_at(tip));
                assert(!s0.occupied_at(c.p));
                assert(tip != c.p);
                assert(!s0.path@.contains(c.p));
                assert(!s0.undo_path@.contains(c.p));
            }
            let k = tip.i * self.size + tip.j;
            let mut t = self.grid[k];
            t.add_tried(c.d);
            self.grid[k] = t;
            let k2 = c.p.i * self.size + c.p.j;
            let mut t2 = self.grid[k2];
            t2.set_occupied(true);
            self.grid[k2] = t2;
            self.path.push(c.p);
            proof {
                assert(tip.i * n + tip.j != c.p.i * n + c.p.j) by {
                    if tip.i * n + tip.j == c.p.i * n + c.p.j {
                        lemma_flat_injective(n, tip, c.p);
                    }
                }
                assert(self.tile_at(tip) == t);
                assert(self.tile_at(c.p) == t2);
                assert forall|q: Pos| pos_in(q, n) && q != tip && q != c.p
                    implies #[trigger] self.tile_at(q) == s0.tile_at(q) by {
                    lemma_flat_in_range(n, q);
                    if q.i * n + q.j == tip.i * n + tip.j {
                        lemma_flat_injective(n, q, tip);
                    }
                    if q.i * n + q.j == c.p.i * n + c.p.j {
                        lemma_flat_injective(n, q, c.p);
                    }
                }
                assert forall|q: Pos| pos_in(q, n) implies (#[trigger] self.tile_at(q)).pos_spec()
                    == q by {
                    assert(s0.tile_at(q).pos_spec() == q);
                }
                assert(self.path@ == s0.path@.push(c.p));
                assert(self_avoiding(self.path@)) by {
                    assert forall|a: int, b: int| 0 <= a < b < self.path@.len() implies self.path@[a]
                        != self.path@[b] by {
                        if b < s0.path@.len() {
                            assert(s0.path@[a] != s0.path@[b]);
                        } else {
                            assert(self.path@[b] == c.p);
                            if s0.path@[a] == c.p {
                                assert(s0.path@.contains(c.p));
                            }
                        }
                    }
                }
                assert(path_connected(self.path@)) by {
                    assert forall|a: int| 0 <= a < self.path@.len() - 1 implies adjacent(
                        #[trigger] self.path@[a],
                        self.path@[a + 1],
                    ) by {
                        if a < s0.path@.len() - 1 {
                            assert(adjacent(s0.path@[a], s0.path@[a + 1]));
                        } else {
                            assert(self.path@[a] == tip);
                            assert(self.path@[a + 1] == c.p);
                        }
                    }
                }
                assert(seq_in_bounds(self.path@, n)) by {
                    assert forall|a: int| 0 <= a < self.path@.len() implies pos_in(
                        #[trigger] self.path@[a],
                        n,
                    ) by {
                        if a < s0.path@.len() {
                            assert(pos_in(s0.path@[a], n));
                        }
                    }
                }
                assert forall|q: Pos| pos_in(q, n) implies (self.occupied_at(q) <==> (
                self.path@.contains(q) || self.undo_path@.contains(q))) by {
                    lemma_push_contains(s0.path@, c.p, q);
                    assert(s0.occupied_at(q) <==> (s0.path@.contains(q) || s0.undo_path@.contains(
                        q,
                    )));
                    if q == c.p {
                        assert(self.occupied_at(q));
                        assert(self.path@.contains(q));
                    } else if q == tip {
                        assert(self.occupied_at(q) == s0.occupied_at(q));
                    } else {
                        assert(self.occupied_at(q) == s0.occupied_at(q));
                    }
                }
                assert forall|q: Pos| !(self.path@.contains(q)
                    && #[trigger] self.undo_path@.contains(q)) by {
                    lemma_push_contains(s0.path@, c.p, q);
                    if self.undo_path@.contains(q) {
                        assert(!s0.path@.contains(q));
                        assert(q != c.p);
                    }
                }
                assert(self.wf());
            }
            let ghost sm = *self;
            self.reset_undone();
            proof {
                assert(self.path@ == s0.path@.push(c.p));
                assert forall|q: Pos| pos_in(q, n) implies (#[trigger] self.occupied_at(q) <==> (q
                    == c.p || (s0.occupied_at(q) && !s0.pending_spec().contains(q)))) by {
                    assert(self.occupied_at(q) <==> (sm.occupied_at(q) && !sm.undo_path@.contains(
                        q,
                    )));
                    if q == c.p {
                        assert(sm.occupied_at(q));
                        assert(!sm.undo_path@.contains(q));
                    } else if q == tip {
                        assert(sm.occupied_at(q) == s0.occupied_at(q));
                    } else {
                        assert(sm.occupied_at(q) == s0.occupied_at(q));
                    }
                }
                assert forall|q: Pos, d2: Direction| pos_in(q, n)
                    implies #[trigger] self.tried_at(q, d2) == (if s0.pending_spec().contains(q) {
                    false
                } else if q == s0.tip_spec() && d2 == c.d {
                    true
                } else {
                    s0.tried_at(q, d2)
                }) by {
                    assert(self.tried_at(q, d2) == (if sm.undo_path@.contains(q) {
                        false
                    } else {
                        sm.tried_at(q, d2)
                    }));
                    if !s0.pending_spec().contains(q) {
                        if q == tip {
                            assert(sm.tile_at(q) == t);
                        } else if q == c.p {
                            assert(sm.tile_at(q) == t2);
                        } else {
                            assert(sm.tile_at(q) == s0.tile_at(q));
                        }
                    }
                }
                assert(extended(s0, *self, c.d));
            }
        } else {
            proof {
                assert(stuck(s0));
                assert(self.size * self.size <= usize::MAX);
            }
            let full = self.size * self.size;
            if self.path.len() == full {
                self.done = true;
                proof {
                    assert forall|q: Pos| pos_in(q, n) implies #[trigger] self.occupied_at(q)
                        == s0.occupied_at(q) by {
                        assert(self.tile_at(q) == s0.tile_at(q));
                    }
                    assert forall|q: Pos, d2: Direction| pos_in(q, n)
                        implies #[trigger] self.tried_at(q, d2) == s0.tried_at(q, d2) by {
                        assert(self.tile_at(q) == s0.tile_at(q));
                    }
                    assert(completed(s0, *self));
                    assert forall|q: Pos| pos_in(q, n) implies (#[trigger] self.tile_at(
                        q,
                    )).pos_spec() == q by {
                        assert(self.tile_at(q) == s0.tile_at(q));
                    }
                    assert forall|q: Pos| pos_in(q, n) implies (self.occupied_at(q) <==> (
                    self.path@.contains(q) || self.undo_path@.contains(q))) by {
                        assert(self.tile_at(q) == s0.tile_at(q));
                        assert(s0.occupied_at(q) <==> (s0.path@.contains(q)
                            || s0.undo_path@.contains(q)));
                    }
                    assert(self.wf());
                }
            } else {
                self.undo_path();
                proof {
                    assert forall|q: Pos| pos_in(q, n) implies #[trigger] self.occupied_at(q)
                        == s0.occupied_at(q) by {
                        assert(self.tile_at(q) == s0.tile_at(q));
                    }
                    assert forall|q: Pos, d2: Direction| pos_in(q, n)
                        implies #[trigger] self.tried_at(q, d2) == s0.tried_at(q, d2) by {
                        assert(self.tile_at(q) == s0.tile_at(q));
                    }
                    assert(backtracked(s0, *self));
                }
            }
        }
    }

    /// A read-only copy of the tile at `(i, j)`.
    pub fn tile(&self, i: usize, j: usize) -> (t: Tile)
        requires
            self.wf(),
            i < self.size_spec(),
            j < self.size_spec(),
        ensures
            t == self.tile_at(Pos { i, j }),
    {
        proof {
            lemma_flat_in_range(self.size as nat, Pos { i, j });
        }
        self.grid[i * self.size + j]
    }
}

/// A tile of a freshly built matrix carries its own position and is free
/// and untried.
pub open spec fn fresh_at(tiles: Seq<Tile>, p: Pos, n: nat) -> bool {
    &&& tiles[p.i * n + p.j].pos_spec() == p
    &&& !tiles[p.i * n + p.j].occupied_spec()
    &&& forall|d: Direction| !(#[trigger] tiles[p.i * n + p.j].tried_spec(d))
}

/// A move the walk could take next: a direction and the cell it reaches.
#[derive(Clone, Copy)]
struct Candidate {
    d: Direction,
    p: Pos,
}

/// The in-grid neighbor of `p` one step in direction `d`, bounds-checked on
/// both sides.
fn step_pos(p: Pos, d: Direction, size: usize) -> (r: Option<Pos>)
    requires
        pos_in(p, size as nat),
    ensures
        r == neighbor_in(p, d, size as nat),
{
    match d {
        Direction::Up => if p.j >= 1 {
            Option::Some(Pos { i: p.i, j: p.j - 1 })
        } else {
            Option::None
        },
        Direction::Right => if p.i + 1 < size {
            Option::Some(Pos { i: p.i + 1, j: p.j })
        } else {
            Option::None
        },
        Direction::Down => if p.j + 1 < size {
            Option::Some(Pos { i: p.i, j: p.j + 1 })
        } else {
            Option::None
        },
        Direction::Left => if p.i >= 1 {
            Option::Some(Pos { i: p.i - 1, j: p.j })
        } else {
            Option::None
        },
    }
}

/// Whether `p` occurs among the first `k` entries of `s`.
spec fn in_prefix(s: Seq<Pos>, k: int, p: Pos) -> bool {
    exists|m: int| 0 <= m < k && s[m] == p
}

/// A freed tile: unoccupied with every tried flag reset.
spec fn tile_cleared(t: Tile) -> bool {
    &&& !t.occupied_spec()
    &&& forall|d: Direction| !(#[trigger] t.tried_spec(d))
}

/// Whether the walk at `g` can extend one step in direction `d`: the tip has
/// not yet consumed `d`, the neighbor in `d` lies on the grid, and that
/// neighbor is unoccupied.
pub open spec fn valid_step(g: Grid, d: Direction) -> bool {
    &&& g.path_spec().len() >= 1
    &&& !g.tried_at(g.tip_spec(), d)
    &&& neighbor_in(g.tip_spec(), d, g.size_spec()) is Some
    &&& !g.occupied_at(neighbor_in(g.tip_spec(), d, g.size_spec()).unwrap())
}

/// Whether the walk at `g` is at a dead end: no direction admits an
/// extension.
pub open spec fn stuck(g: Grid) -> bool {
    forall|d: Direction| !valid_step(g, d)
}

/// Whether every cell keeps its occupancy and tried flags from `g0` to `g1`.
pub open spec fn tiles_unchanged(g0: Grid, g1: Grid) -> bool {
    &&& forall|q: Pos|
        pos_in(q, g0.size_spec()) ==> #[trigger] g1.occupied_at(q) == g0.occupied_at(q)
    &&& forall|q: Pos, d: Direction|
        pos_in(q, g0.size_spec()) ==> #[trigger] g1.tried_at(q, d) == g0.tried_at(q, d)
}

/// The extension transition: the tip consumed direction `d`, its in-grid
/// unoccupied neighbor was appended to the path and occupied, and every cell
/// pending release was freed (occupancy and tried flags cleared), leaving
/// the pending list empty. Nothing else changes.
pub open spec fn extended(g0: Grid, g1: Grid, d: Direction) -> bool {
    let p = neighbor_in(g0.tip_spec(), d, g0.size_spec()).unwrap();
    &&& g1.path_spec() == g0.path_spec().push(p)
    &&& g1.pending_spec().len() == 0
    &&& g1.done_spec() == g0.done_spec()
    &&& g1.size_spec() == g0.size_spec()
    &&& forall|q: Pos|
        pos_in(q, g0.size_spec()) ==> (#[trigger] g1.occupied_at(q) <==> (q == p || (
        g0.occupied_at(q) && !g0.pending_spec().contains(q))))
    &&& forall|q: Pos, d2: Direction|
        pos_in(q, g0.size_spec()) ==> #[trigger] g1.tried_at(q, d2) == (if g0.pending_spec()
            .contains(q) {
            false
        } else if q == g0.tip_spec() && d2 == d {
            true
        } else {
            g0.tried_at(q, d2)
        })
}

/// The completion transition: the path already covers the whole grid and no
/// extension is possible, so only the `done` flag is raised.
pub open spec fn completed(g0: Grid, g1: Grid) -> bool {
    &&& g1.done_spec()
    &&& g1.path_spec() == g0.path_spec()
    &&& g1.pending_spec() == g0.pending_spec()
    &&& g1.size_spec() == g0.size_spec()
    &&& tiles_unchanged(g0, g1)
}

/// The backtrack transition: the tip was popped off the path and appended to
/// the pending list; its tile stays occupied and keeps its tried flags.
pub open spec fn backtracked(g0: Grid, g1: Grid) -> bool {
    &&& g1.path_spec() == g0.path_spec().drop_last()
    &&& g1.pending_spec() == g0.pending_spec().push(g0.path_spec().last())
    &&& g1.done_spec() == g0.done_spec()
    &&& g1.size_spec() == g0.size_spec()
    &&& tiles_unchanged(g0, g1)
}

/// Law: in every well-formed grid state, the path visits no position twice.
pub proof fn lemma_path_self_avoiding(g: Grid)
    requires
        g.wf(),
    ensures
        self_avoiding(g.path_spec()),
{
}

/// Law: in every well-formed grid state, consecutive path entries are
/// grid-adjacent.
pub proof fn lemma_path_connected(g: Grid)
    requires
        g.wf(),
    ensures
        path_connected(g.path_spec()),
{
}

/// Law: in every well-formed grid state, every path entry and every pending
/// entry lies on the grid and is occupied, and no position is on the path
/// and pending at once.
pub proof fn lemma_occupancy(g: Grid)
    requires
        g.wf(),
    ensures
        seq_in_bounds(g.path_spec(), g.size_spec()),
        seq_in_bounds(g.pending_spec(), g.size_spec()),
        forall|p: Pos|
            pos_in(p, g.size_spec()) ==> (g.occupied_at(p) <==> (g.path_spec().contains(p)
                || g.pending_spec().contains(p))),
        forall|p: Pos| !(g.path_spec().contains(p) && #[trigger] g.pending_spec().contains(p)),
{
}

/// A `contains` query distributes over `push`.
proof fn lemma_push_contains(s: Seq<Pos>, x: Pos, y: Pos)
    ensures
        s.push(x).contains(y) <==> (s.contains(y) || x == y),
{
    if s.push(x).contains(y) {
        let m = choose|m: int| 0 <= m < s.push(x).len() && s.push(x)[m] == y;
        if m < s.len() {
            assert(s[m] == y);
        }
    }
    if s.contains(y) {
        let m = choose|m: int| 0 <= m < s.len() && s[m] == y;
        assert(s.push(x)[m] == y);
    }
    if x == y {
        assert(s.push(x)[s.len() as int] == y);
    }
}

/// A verified element-wise copy of a position vector.
fn copy_positions(v: &Vec<Pos>) -> (r: Vec<Pos>)
    ensures
        r@ == v@,
{
    let mut r: Vec<Pos> = Vec::new();
    let mut k: usize = 0;
    while k < v.len()
        invariant
            k <= v@.len(),
            r@ == v@.subrange(0, k as int),
        decreases v@.len() - k,
    {
        r.push(v[k]);
        proof {
            assert(r@ =~= v@.subrange(0, k + 1 as int));
        }
        k = k + 1;
    }
    proof {
        assert(r@ =~= v@);
    }
    r
}

} // verus!

use vstd::prelude::*;

verus! {

use vstd::pervasive::VecAdditionalExecFns;
use vstd::pervasive::unreached;
use rand::Rng;


/// Upper bound on the viewport dimensions, in pixels.  Keeping the grid
/// dimensions below this bound keeps every score computed by the search
/// (a path cost plus a Manhattan distance) well inside `usize`.
pub const MAX_SCREEN_DIM: usize = 32768;

/// The role a grid cell currently plays.
///
/// `Blank` and `Wall` are painted terrain; `Start` and `Objective` are the
/// endpoints of a search, held by at most one cell each; `Visited` and
/// `Solution` are transient markings produced by a search run.
#[derive(Clone, Copy, PartialEq, Eq, Structural, Debug)]
pub enum SquareType {
    Wall,
    Objective,
    Start,
    Blank,
    Visited,
    Solution,
}

/// One grid cell: its grid coordinates and its current role.
#[derive(Clone, Copy, PartialEq, Eq, Structural, Debug)]
pub struct Square {
    pub x_grid: usize,
    pub y_grid: usize,
    pub square_type: SquareType,
}

impl Square {
    /// A fresh cell at the given grid coordinates, initially `Blank`.
    pub fn new(x: usize, y: usize) -> (sq: Square)
        ensures
            sq.x_grid == x,
            sq.y_grid == y,
            sq.square_type == SquareType::Blank,
    {
        Square { x_grid: x, y_grid: y, square_type: SquareType::Blank }
    }

    /// Overwrite the cell's role, except that a `Start` cell is never
    /// downgraded to `Visited`: search marking must not erase the start.
    pub fn set_square_type(&mut self, square_type: SquareType)
        ensures
            final(self).square_type == (if old(self).square_type == SquareType::Start
                && square_type == SquareType::Visited {
                SquareType::Start
            } else {
                square_type
            }),
            final(self).x_grid == old(self).x_grid,
            final(self).y_grid == old(self).y_grid,
    {
        if !(self.square_type == SquareType::Start && square_type == SquareType::Visited) {
            self.square_type = square_type;
        }
    }

    /// Read accessor for the cell's current role.
    pub fn get_square_type(&self) -> (t: &SquareType)
        ensures
            *t == self.square_type,
    {
        &self.square_type
    }
}

/// The mathematical model of a [`SquareCollection`]: the grid geometry, the
/// flat (column-major) sequence of cell roles, the designated endpoints with
/// their presence flags, and the recorded history of snapshots.
#[verifier::ext_equal]
pub struct GridView {
    pub square_width: nat,
    pub top_offset: nat,
    pub x_len: nat,
    pub y_len: nat,
    pub cells: Seq<SquareType>,
    pub start: (nat, nat),
    pub start_set: bool,
    pub objective: (nat, nat),
    pub objective_set: bool,
    pub states: Seq<Seq<SquareType>>,
    pub current_state: nat,
}

/// Flat index of the cell at column `x`, row `y` in a grid whose columns
/// hold `y_len` cells each.
pub open spec fn flat(y_len: int, x: int, y: int) -> int {
    x * y_len + y
}

/// Flat index of the cell at column `x`, row `y`.
pub open spec fn sidx(m: GridView, x: int, y: int) -> int {
    flat(m.y_len as int, x, y)
}

/// Whether `(x, y)` lies inside the grid.
pub open spec fn in_grid(m: GridView, x: int, y: int) -> bool {
    0 <= x < m.x_len && 0 <= y < m.y_len
}

/// The role of the cell at column `x`, row `y`.
pub open spec fn cell_at(m: GridView, x: int, y: int) -> SquareType {
    m.cells[sidx(m, x, y)]
}

/// Every cell of a flat column-major cell vector remembers its own grid
/// coordinates.
pub open spec fn coords_ok(squares: Seq<Square>, x_len: int, y_len: int) -> bool {
    forall|x: int, y: int|
        0 <= x < x_len && 0 <= y < y_len ==> (#[trigger] squares[flat(y_len, x, y)]).x_grid == x
            && squares[flat(y_len, x, y)].y_grid == y
}

/// Structural well-formedness of a grid model: positive geometry within the
/// viewport bound, a cell sequence of the right length, in-bounds endpoint
/// coordinates whenever their flags are set, snapshots of the grid's own
/// size, and a cursor that points into the history whenever one exists.
pub open spec fn grid_wf(m: GridView) -> bool {
    &&& 1 <= m.square_width
    &&& 1 <= m.x_len <= MAX_SCREEN_DIM
    &&& 1 <= m.y_len <= MAX_SCREEN_DIM
    &&& m.cells.len() == m.x_len * m.y_len
    &&& m.start_set ==> m.start.0 < m.x_len && m.start.1 < m.y_len
    &&& m.objective_set ==> m.objective.0 < m.x_len && m.objective.1 < m.y_len
    &&& forall|i: int| 0 <= i < m.states.len() ==> (#[trigger] m.states[i]).len() == m.x_len
        * m.y_len
    &&& m.states.len() > 0 ==> m.current_state < m.states.len()
}

/// Role consistency: the flagged start coordinate holds the one and only
/// `Start` cell, and likewise for `Objective`.  Painting preserves this;
/// replaying a history snapshot over a repainted grid may break it, which is
/// why it is stated separately from [`grid_wf`].
pub open spec fn roles_ok(m: GridView) -> bool {
    &&& m.start_set ==> cell_at(m, m.start.0 as int, m.start.1 as int) == SquareType::Start
    &&& m.objective_set ==> cell_at(m, m.objective.0 as int, m.objective.1 as int)
        == SquareType::Objective
    &&& forall|x: int, y: int|
        in_grid(m, x, y) && #[trigger] cell_at(m, x, y) == SquareType::Start ==> m.start_set
            && x == m.start.0 && y == m.start.1
    &&& forall|x: int, y: int|
        in_grid(m, x, y) && #[trigger] cell_at(m, x, y) == SquareType::Objective
            ==> m.objective_set && x == m.objective.0 && y == m.objective.1
}

/// The grid of paintable cells, the designated search endpoints, and the
/// recorded history of one search run.
pub struct SquareCollection {
    square_width: usize,
    top_offset: usize,
    x_len: usize,
    y_len: usize,
    /// Flat column-major cell storage: the cell at column `x`, row `y`
    /// lives at index `x * y_len + y`.
    squares: Vec<Square>,
    objective_square: (usize, usize),
    objective_square_set: bool,
    start_square: (usize, usize),
    start_square_set: bool,
    states: Vec<Vec<SquareType>>,
    current_state: usize,
}

impl View for SquareCollection {
    type V = GridView;

    closed spec fn view(&self) -> GridView {
        GridView {
            square_width: self.square_width as nat,
            top_offset: self.top_offset as nat,
            x_len: self.x_len as nat,
            y_len: self.y_len as nat,
            cells: Seq::new(self.squares@.len(), |i: int| self.squares@[i].square_type),
            start: (self.start_square.0 as nat, self.start_square.1 as nat),
            start_set: self.start_square_set,
            objective: (self.objective_square.0 as nat, self.objective_square.1 as nat),
            objective_set: self.objective_square_set,
            states: Seq::new(self.states@.len(), |i: int| self.states@[i]@),
            current_state: self.current_state as nat,
        }
    }
}

impl SquareCollection {
    /// Validity of the collection: its model is well formed and every stored
    /// cell remembers its own grid coordinates.
    pub closed spec fn inv(&self) -> bool {
        &&& grid_wf(self@)
        &&& coords_ok(self.squares@, self.x_len as int, self.y_len as int)
    }

    /// A valid collection's model is a well-formed grid.  `inv` is closed,
    /// so this is how callers learn the geometric guarantees it carries:
    /// positive geometry, a cell sequence of the grid's size, in-bounds
    /// endpoints whenever their flags are set, snapshots of the grid's own
    /// size, and a cursor inside the history whenever one exists.
    pub proof fn lemma_valid_grid_wf(&self)
        requires
            self.inv(),
        ensures
            grid_wf(self@),
    {
    }

    /// The flat index of the in-bounds cell at column `x`, row `y`.
    fn flat_index(&self, x: usize, y: usize) -> (i: usize)
        requires
            self.inv(),
            x < self@.x_len,
            y < self@.y_len,
        ensures
            i == sidx(self@, x as int, y as int),
            i < self@.cells.len(),
    {
        proof {
            assert(x * self@.y_len + y < self@.x_len * self@.y_len) by (nonlinear_arith)
                requires
                    x < self@.x_len,
                    y < self@.y_len,
            ;
            assert(self@.cells.len() == self.squares@.len());
            assert(self.squares.len() == self.squares@.len());
        }
        x * self.y_len + y
    }

    /// Unconditionally overwrite the role of the in-bounds cell at `(x, y)`.
    fn write_cell_type(&mut self, x: usize, y: usize, t: SquareType)
        requires
            old(self).inv(),
            x < old(self)@.x_len,
            y < old(self)@.y_len,
        ensures
            final(self).inv(),
            final(self)@ == with_cell(old(self)@, x as int, y as int, t),
    {
        let i = self.flat_index(x, y);
        let mut sq = self.squares[i];
        sq.square_type = t;
        self.squares.set(i, sq);
        proof {
            assert(self@.cells =~= with_cell(old(self)@, x as int, y as int, t).cells);
            assert(self@ =~= with_cell(old(self)@, x as int, y as int, t));
            lemma_coords_ok_after_write(
                old(self).squares@,
                self.squares@,
                self.x_len as int,
                self.y_len as int,
                i as int,
            );
        }
    }

    /// Unconditionally overwrite the role of the cell at flat index `i`.
    fn write_cell_type_at(&mut self, i: usize, t: SquareType)
        requires
            old(self).inv(),
            i < old(self)@.cells.len(),
        ensures
            final(self).inv(),
            final(self)@ == (GridView { cells: old(self)@.cells.update(i as int, t), ..old(self)@ }),
    {
        let mut sq = self.squares[i];
        sq.square_type = t;
        self.squares.set(i, sq);
        proof {
            assert(self@.cells =~= old(self)@.cells.update(i as int, t));
            assert(self@ =~= (GridView {
                cells: old(self)@.cells.update(i as int, t),
                ..old(self)@
            }));
            lemma_coords_ok_after_write(
                old(self).squares@,
                self.squares@,
                self.x_len as int,
                self.y_len as int,
                i as int,
            );
        }
    }

    /// Overwrite the role of the in-bounds cell at `(x, y)` through the
    /// cell's own guarded setter, which refuses to downgrade `Start` to
    /// `Visited`.
    fn mark_cell_type(&mut self, x: usize, y: usize, t: SquareType)
        requires
            old(self).inv(),
            x < old(self)@.x_len,
            y < old(self)@.y_len,
        ensures
            final(self).inv(),
            final(self)@ == with_cell(
                old(self)@,
                x as int,
                y as int,
                (if cell_at(old(self)@, x as int, y as int) == SquareType::Start && t
                    == SquareType::Visited {
                    SquareType::Start
                } else {
                    t
                }),
            ),
    {
        let i = self.flat_index(x, y);
        let mut sq = self.squares[i];
        sq.set_square_type(t);
        self.squares.set(i, sq);
        proof {
            let tt = if cell_at(old(self)@, x as int, y as int) == SquareType::Start && t
                == SquareType::Visited {
                SquareType::Start
            } else {
                t
            };
            assert(cell_at(old(self)@, x as int, y as int) == old(self).squares@[i as int].square_type);
            assert(self@.cells =~= with_cell(old(self)@, x as int, y as int, tt).cells);
            assert(self@ =~= with_cell(old(self)@, x as int, y as int, tt));
            lemma_coords_ok_after_write(
                old(self).squares@,
                self.squares@,
                self.x_len as int,
                self.y_len as int,
                i as int,
            );
        }
    }

    /// A grid filling the viewport below the reserved top strip: one column
    /// per full cell width across, one row per full cell width down.  The
    /// geometry must leave room for at least one cell, and the viewport must
    /// stay within [`MAX_SCREEN_DIM`] so that search scores cannot overflow.
    pub fn new(
        square_width: usize,
        top_offset: usize,
        screen_width: usize,
        screen_height: usize,
    ) -> (sc: SquareCollection)
        requires
            1 <= square_width <= screen_width <= MAX_SCREEN_DIM,
            top_offset + square_width <= screen_height <= MAX_SCREEN_DIM,
        ensures
            sc.inv(),
            roles_ok(sc@),
            sc@.square_width == square_width,
            sc@.top_offset == top_offset,
            sc@.x_len == screen_width as int / square_width as int,
            sc@.y_len == (screen_height - top_offset) as int / square_width as int,
            forall|x: int, y: int|
                in_grid(sc@, x, y) ==> #[trigger] cell_at(sc@, x, y) == SquareType::Blank,
            !sc@.start_set,
            !sc@.objective_set,
            sc@.states.len() == 0,
            sc@.current_state == 0,
    {
        let x_len: usize = screen_width / square_width;
        let y_len: usize = (screen_height - top_offset) / square_width;
        proof {
            assert(1 <= x_len <= screen_width) by (nonlinear_arith)
                requires
                    1 <= square_width <= screen_width,
                    x_len == screen_width as int / square_width as int,
            ;
            assert(1 <= y_len <= screen_height - top_offset) by (nonlinear_arith)
                requires
                    1 <= square_width,
                    square_width <= screen_height - top_offset,
                    y_len == (screen_height - top_offset) as int / square_width as int,
            ;
        }
        let squares = SquareCollection::build_squares(x_len, y_len);
        let ghost built = squares@;
        let sc = SquareCollection {
            square_width,
            top_offset,
            x_len,
            y_len,
            squares,
            objective_square: (0, 0),
            objective_square_set: false,
            start_square: (0, 0),
            start_square_set: false,
            states: Vec::new(),
            current_state: 0,
        };
        proof {
            assert(sc.squares@ == built);
            assert(coords_ok(sc.squares@, x_len as int, y_len as int));
            assert forall|x: int, y: int| in_grid(sc@, x, y) implies #[trigger] cell_at(
                sc@,
                x,
                y,
            ) == SquareType::Blank by {
                lemma_flat_bounds(y_len as int, x, y, x_len as int);
                assert(sidx(sc@, x, y) == flat(y_len as int, x, y));
                assert(built[flat(y_len as int, x, y)].square_type == SquareType::Blank);
            }
        }
        sc
    }

    /// A flat column-major vector of `x_len * y_len` fresh `Blank` cells,
    /// each remembering its own grid coordinates.
    fn build_squares(x_len: usize, y_len: usize) -> (squares: Vec<Square>)
        requires
            1 <= x_len <= MAX_SCREEN_DIM,
            1 <= y_len <= MAX_SCREEN_DIM,
        ensures
            squares@.len() == x_len * y_len,
            coords_ok(squares@, x_len as int, y_len as int),
            forall|i: int|
                0 <= i < squares@.len() ==> (#[trigger] squares@[i]).square_type
                    == SquareType::Blank,
    {
        let mut squares: Vec<Square> = Vec::new();
        let mut x: usize = 0;
        proof {
            assert(x * y_len == 0) by (nonlinear_arith)
                requires
                    x == 0,
            ;
        }
        while x < x_len
            invariant
                x <= x_len,
                y_len <= MAX_SCREEN_DIM,
                x_len <= MAX_SCREEN_DIM,
                squares@.len() == x * y_len,
                forall|i: int|
                    0 <= i < squares@.len() ==> (#[trigger] squares@[i]).square_type
                        == SquareType::Blank,
                forall|xx: int, yy: int|
                    0 <= xx < x && 0 <= yy < y_len ==> (#[trigger] squares@[flat(
                        y_len as int,
                        xx,
                        yy,
                    )]).x_grid == xx && squares@[flat(y_len as int, xx, yy)].y_grid == yy,
            decreases x_len - x,
        {
            let mut y: usize = 0;
            while y < y_len
                invariant
                    y <= y_len,
                    x < x_len,
                    y_len <= MAX_SCREEN_DIM,
                    x_len <= MAX_SCREEN_DIM,
                    squares@.len() == x * y_len + y,
                    forall|i: int|
                        0 <= i < squares@.len() ==> (#[trigger] squares@[i]).square_type
                            == SquareType::Blank,
                    forall|xx: int, yy: int|
                        0 <= xx < x && 0 <= yy < y_len ==> (#[trigger] squares@[flat(
                            y_len as int,
                            xx,
                            yy,
                        )]).x_grid == xx && squares@[flat(y_len as int, xx, yy)].y_grid == yy,
                    forall|yy: int|
                        0 <= yy < y ==> (#[trigger] squares@[flat(y_len as int, x as int, yy)]).x_grid
                            == x && squares@[flat(y_len as int, x as int, yy)].y_grid == yy,
                decreases y_len - y,
            {
                proof {
                    assert(x * y_len + y < x_len * y_len) by (nonlinear_arith)
                        requires
                            x < x_len,
                            y < y_len,
                    ;
                }
                squares.push(Square::new(x, y));
                y = y + 1;
                proof {
                    assert forall|xx: int, yy: int| 0 <= xx < x && 0 <= yy < y_len implies (
                    #[trigger] squares@[flat(y_len as int, xx, yy)]).x_grid == xx && squares@[flat(
                        y_len as int,
                        xx,
                        yy,
                    )].y_grid == yy by {
                        lemma_flat_bounds(y_len as int, xx, yy, x as int);
                    }
                    assert forall|yy: int| 0 <= yy < y implies (#[trigger] squares@[flat(
                        y_len as int,
                        x as int,
                        yy,
                    )]).x_grid == x && squares@[flat(y_len as int, x as int, yy)].y_grid == yy by {
                        assert(flat(y_len as int, x as int, yy) == x * y_len + yy);
                    }
                }
            }
            x = x + 1;
            proof {
                assert(x * y_len == (x - 1) * y_len + y_len) by (nonlinear_arith);
            }
        }
        proof {
            assert(coords_ok(squares@, x_len as int, y_len as int));
        }
        squares
    }

    /// Set every cell to `Blank` and drop both endpoint designations.  The
    /// geometry and the recorded history are untouched.
    pub fn clear(&mut self)
        requires
            old(self).inv(),
        ensures
            final(self).inv(),
            final(self)@ == cleared(old(self)@),
            roles_ok(final(self)@),
    {
        let total = self.squares.len();
        for i in 0..total
            invariant
                self.inv(),
                total == self@.cells.len(),
                self@ == (GridView { cells: self@.cells, ..old(self)@ }),
                forall|j: int| 0 <= j < i ==> #[trigger] self@.cells[j] == SquareType::Blank,
                forall|j: int|
                    i <= j < self@.cells.len() ==> #[trigger] self@.cells[j] == old(self)@.cells[j],
        {
            self.write_cell_type_at(i, SquareType::Blank);
        }
        self.start_square_set = false;
        self.objective_square_set = false;
        proof {
            assert(self@.cells =~= cleared(old(self)@).cells);
            assert(self@ =~= cleared(old(self)@));
            assert forall|x: int, y: int| in_grid(self@, x, y) implies #[trigger] cell_at(
                self@,
                x,
                y,
            ) == SquareType::Blank by {
                lemma_sidx_bounds(self@, x, y);
            }
        }
    }

    /// The grid cell under a pointer position, clamped into the grid.
    fn get_square_from_mouse(&self, mouse_pos: (usize, usize)) -> (cell: (usize, usize))
        requires
            self.inv(),
            mouse_pos.1 >= self@.top_offset,
        ensures
            cell.0 as int == mapped_cell(self@, mouse_pos.0 as int, mouse_pos.1 as int).0,
            cell.1 as int == mapped_cell(self@, mouse_pos.0 as int, mouse_pos.1 as int).1,
            cell.0 < self@.x_len,
            cell.1 < self@.y_len,
    {
        let col_raw = mouse_pos.0 / self.square_width;
        let mouse_x = if col_raw <= self.x_len - 1 {
            col_raw
        } else {
            self.x_len - 1
        };
        let row_raw = (mouse_pos.1 - self.top_offset) / self.square_width;
        let mouse_y = if row_raw <= self.y_len - 1 {
            row_raw
        } else {
            self.y_len - 1
        };
        (mouse_x, mouse_y)
    }

    /// Paint the cell under the pointer with a new role, as long as the
    /// pointer sits below the reserved top strip; positions past the grid's
    /// edge are clamped onto it.  Painting `Start` or `Objective` moves that
    /// designation; painting anything else over the current `Start` or
    /// `Objective` cell withdraws it.
    pub fn change_square_type(&mut self, mouse_pos: (usize, usize), square_type: SquareType)
        requires
            old(self).inv(),
        ensures
            final(self).inv(),
            final(self)@ == painted(
                old(self)@,
                mouse_pos.0 as int,
                mouse_pos.1 as int,
                square_type,
            ),
            roles_ok(old(self)@) ==> roles_ok(final(self)@),
    {
        proof {
            if roles_ok(old(self)@) {
                lemma_painted_roles(
                    old(self)@,
                    mouse_pos.0 as int,
                    mouse_pos.1 as int,
                    square_type,
                );
            }
        }
        if mouse_pos.1 > self.top_offset {
            let cell = self.get_square_from_mouse(mouse_pos);
            let mouse_x_index = cell.0;
            let mouse_y_index = cell.1;
            let i = self.flat_index(mouse_x_index, mouse_y_index);
            let previous_type = self.squares[i].square_type;
            match square_type {
                SquareType::Start => {
                    if self.start_square_set {
                        let sx = self.start_square.0;
                        let sy = self.start_square.1;
                        self.write_cell_type(sx, sy, SquareType::Blank);
                    }
                    self.start_square = (mouse_x_index, mouse_y_index);
                    self.start_square_set = true;
                },
                SquareType::Objective => {
                    if self.objective_square_set {
                        let ox = self.objective_square.0;
                        let oy = self.objective_square.1;
                        self.write_cell_type(ox, oy, SquareType::Blank);
                    }
                    self.objective_square = (mouse_x_index, mouse_y_index);
                    self.objective_square_set = true;
                },
                _ => {},
            }
            self.write_cell_type(mouse_x_index, mouse_y_index, square_type);
            match previous_type {
                SquareType::Start => {
                    if square_type != SquareType::Start {
                        self.start_square_set = false;
                    }
                },
                SquareType::Objective => {
                    if square_type != SquareType::Objective {
                        self.objective_square_set = false;
                    }
                },
                _ => {},
            }
            proof {
                assert(self@ =~= painted(
                    old(self)@,
                    mouse_pos.0 as int,
                    mouse_pos.1 as int,
                    square_type,
                ));
            }
        }
    }

    /// Reassign every cell independently to random terrain: a three-in-five
    /// chance of `Blank`, two-in-five of `Wall`.  Both endpoint designations
    /// are withdrawn, since their cells may now be walls.  The grid is an
    /// independent noise field, not a guaranteed-solvable maze.
    pub fn generate_maze(&mut self)
        requires
            old(self).inv(),
        ensures
            final(self).inv(),
            final(self)@ == (GridView {
                cells: final(self)@.cells,
                start_set: false,
                objective_set: false,
                ..old(self)@
            }),
            final(self)@.cells.len() == old(self)@.cells.len(),
            forall|x: int, y: int|
                in_grid(final(self)@, x, y) ==> (#[trigger] cell_at(final(self)@, x, y)
                    == SquareType::Wall || cell_at(final(self)@, x, y) == SquareType::Blank),
            roles_ok(final(self)@),
    {
        let total = self.squares.len();
        for i in 0..total
            invariant
                self.inv(),
                total == self@.cells.len(),
                self@.cells.len() == old(self)@.cells.len(),
                self@ == (GridView { cells: self@.cells, ..old(self)@ }),
                forall|j: int|
                    0 <= j < i ==> (#[trigger] self@.cells[j] == SquareType::Wall
                        || self@.cells[j] == SquareType::Blank),
        {
            let draw = random_draw();
            let terrain = maze_square_type(draw);
            self.write_cell_type_at(i, terrain);
        }
        self.start_square_set = false;
        self.objective_square_set = false;
        proof {
            assert(self@ =~= (GridView {
                cells: self@.cells,
                start_set: false,
                objective_set: false,
                ..old(self)@
            }));
            assert forall|x: int, y: int| in_grid(self@, x, y) implies (#[trigger] cell_at(
                self@,
                x,
                y,
            ) == SquareType::Wall || cell_at(self@, x, y) == SquareType::Blank) by {
                lemma_sidx_bounds(self@, x, y);
            }
        }
    }

    /// A snapshot of every cell's current role, in flat column-major order.
    pub fn get_current_state(&self) -> (snapshot: Vec<SquareType>)
        ensures
            snapshot@ == self@.cells,
    {
        let mut snapshot: Vec<SquareType> = Vec::new();
        let total = self.squares.len();
        for i in 0..total
            invariant
                total == self.squares@.len(),
                snapshot@.len() == i,
                forall|j: int|
                    0 <= j < i ==> #[trigger] snapshot@[j] == self.squares@[j].square_type,
        {
            snapshot.push(self.squares[i].square_type);
        }
        proof {
            assert(snapshot@ =~= self@.cells);
        }
        snapshot
    }

    /// Step the history cursor forward by one snapshot, wrapping past the
    /// last one, and show that snapshot on the grid.  Without a recorded
    /// history this is a no-op.
    pub fn load_next_state(&mut self)
        requires
            old(self).inv(),
        ensures
            final(self).inv(),
            final(self)@ == next_loaded(old(self)@),
    {
        if self.states.len() > 0 {
            self.current_state = self.current_state + 1;
            if self.current_state == self.states.len() {
                self.current_state = 0;
            }
            self.load_state();
            proof {
                assert(self@ =~= next_loaded(old(self)@));
            }
        }
    }

    /// Step the history cursor backward by one snapshot, wrapping at the
    /// first one, and show that snapshot on the grid.  Without a recorded
    /// history this is a no-op.
    pub fn load_previous_state(&mut self)
        requires
            old(self).inv(),
        ensures
            final(self).inv(),
            final(self)@ == previous_loaded(old(self)@),
    {
        if self.states.len() > 0 {
            if self.current_state == 0 {
                self.current_state = self.states.len() - 1;
            } else {
                self.current_state = self.current_state - 1;
            }
            self.load_state();
            proof {
                assert(self@ =~= previous_loaded(old(self)@));
            }
        }
    }

    /// The number of grid columns.
    pub fn x_len(&self) -> (n: usize)
        ensures
            n == self@.x_len,
    {
        self.x_len
    }

    /// The number of grid rows.
    pub fn y_len(&self) -> (n: usize)
        ensures
            n == self@.y_len,
    {
        self.y_len
    }

    /// How many snapshots the recorded history holds.
    pub fn states_len(&self) -> (n: usize)
        ensures
            n == self@.states.len(),
    {
        self.states.len()
    }

    /// The history cursor: the index of the snapshot currently shown.
    pub fn current_state_index(&self) -> (n: usize)
        ensures
            n == self@.current_state,
    {
        self.current_state
    }

    /// Whether a `Start` cell is currently designated.
    pub fn is_start_set(&self) -> (b: bool)
        ensures
            b == self@.start_set,
    {
        self.start_square_set
    }

    /// Whether an `Objective` cell is currently designated.
    pub fn is_objective_set(&self) -> (b: bool)
        ensures
            b == self@.objective_set,
    {
        self.objective_square_set
    }

    /// The Manhattan distance from a cell to the designated objective.
    fn manhattan_distance(&self, sq: (usize, usize)) -> (d: usize)
        requires
            self.inv(),
            sq.0 < self@.x_len,
            sq.1 < self@.y_len,
            self@.objective.0 < self@.x_len,
            self@.objective.1 < self@.y_len,
        ensures
            d == manhattan(coord(sq), objective_coord(self@)),
            d < self@.x_len + self@.y_len,
    {
        let x_dist = if sq.0 >= self.objective_square.0 {
            sq.0 - self.objective_square.0
        } else {
            self.objective_square.0 - sq.0
        };
        let y_dist = if sq.1 >= self.objective_square.1 {
            sq.1 - self.objective_square.1
        } else {
            self.objective_square.1 - sq.1
        };
        x_dist + y_dist
    }

    /// The up-to-four orthogonal neighbors of a cell that are in bounds,
    /// not walls, and not yet expanded.
    /// Append `cand` to the neighbor list when it is still unexpanded and
    /// not a wall.
    fn push_if_open(
        &self,
        closed_set: &Vec<bool>,
        result: &mut Vec<(usize, usize)>,
        cand: (usize, usize),
        current: (usize, usize),
    )
        requires
            self.inv(),
            cand.0 < self@.x_len,
            cand.1 < self@.y_len,
            adjacent(coord(cand), coord(current)),
            closed_set@.len() == self@.cells.len(),
        ensures
            final(result)@ == (if neighbor_ok(self@, closed_set@, cand, current) {
                old(result)@.push(cand)
            } else {
                old(result)@
            }),
    {
        let ci = self.flat_index(cand.0, cand.1);
        if !closed_set[ci] && self.squares[ci].square_type != SquareType::Wall {
            proof {
                assert(neighbor_ok(self@, closed_set@, cand, current));
            }
            result.push(cand);
        } else {
            proof {
                assert(!neighbor_ok(self@, closed_set@, cand, current));
            }
        }
    }

    /// The up-to-four orthogonal neighbors of a cell: exactly those of the
    /// cells one step up, down, right or left that are in bounds, not walls,
    /// and not yet expanded, each listed once.
    #[verifier::rlimit(100)]
    #[verifier::spinoff_prover]
    fn neighbors(&self, current: (usize, usize), closed_set: &Vec<bool>) -> (result: Vec<
        (usize, usize),
    >)
        requires
            self.inv(),
            current.0 < self@.x_len,
            current.1 < self@.y_len,
            closed_set@.len() == self@.cells.len(),
        ensures
            forall|k: int|
                0 <= k < result@.len() ==> neighbor_ok(
                    self@,
                    closed_set@,
                    #[trigger] result@[k],
                    current,
                ),
            forall|c: (usize, usize)|
                neighbor_ok(self@, closed_set@, c, current) && adjacent(coord(c), coord(current))
                    ==> #[trigger] result@.contains(c),
            result@.no_duplicates(),
            result@.len() <= 4,
    {
        let mut result: Vec<(usize, usize)> = Vec::new();
        let x_max = self.x_len - 1;
        let y_max = self.y_len - 1;
        let ghost r0 = result@;
        if current.1 != 0 {
            let cand = (current.0, current.1 - 1);
            self.push_if_open(closed_set, &mut result, cand, current);
        }
        let ghost r1 = result@;
        proof {
            assert forall|j: int| 0 <= j < r1.len() implies coord(#[trigger] r1[j]) == (
            current.0 as int, current.1 as int - 1) by {}
            assert(r1.no_duplicates());
        }
        if current.1 != y_max {
            let cand = (current.0, current.1 + 1);
            self.push_if_open(closed_set, &mut result, cand, current);
        }
        let ghost r2 = result@;
        proof {
            assert forall|j: int| 0 <= j < r2.len() implies (coord(#[trigger] r2[j]) == (
            current.0 as int, current.1 as int - 1) || coord(r2[j]) == (
            current.0 as int, current.1 as int + 1)) by {
                if j < r1.len() {
                    assert(r2[j] == r1[j]);
                }
            }
            assert(r2.no_duplicates()) by {
                assert forall|i: int, j: int| 0 <= i < r2.len() && 0 <= j < r2.len() && i != j
                    implies r2[i] != r2[j] by {
                    if i < r1.len() && j < r1.len() {
                        assert(r2[i] == r1[i] && r2[j] == r1[j]);
                    }
                }
            }
        }
        if current.0 != x_max {
            let cand = (current.0 + 1, current.1);
            self.push_if_open(closed_set, &mut result, cand, current);
        }
        let ghost r3 = result@;
        proof {
            assert forall|j: int| 0 <= j < r3.len() implies (coord(#[trigger] r3[j]) == (
            current.0 as int, current.1 as int - 1) || coord(r3[j]) == (
            current.0 as int, current.1 as int + 1) || coord(r3[j]) == (
            current.0 as int + 1, current.1 as int)) by {
                if j < r2.len() {
                    assert(r3[j] == r2[j]);
                }
            }
            assert(r3.no_duplicates()) by {
                assert forall|i: int, j: int| 0 <= i < r3.len() && 0 <= j < r3.len() && i != j
                    implies r3[i] != r3[j] by {
                    if i < r2.len() && j < r2.len() {
                        assert(r3[i] == r2[i] && r3[j] == r2[j]);
                    }
                }
            }
        }
        if current.0 != 0 {
            let cand = (current.0 - 1, current.1);
            self.push_if_open(closed_set, &mut result, cand, current);
        }
        proof {
            let r4 = result@;
            assert(r4.no_duplicates()) by {
                assert forall|i: int, j: int| 0 <= i < r4.len() && 0 <= j < r4.len() && i != j
                    implies r4[i] != r4[j] by {
                    if i < r3.len() && j < r3.len() {
                        assert(r4[i] == r3[i] && r4[j] == r3[j]);
                    }
                }
            }
            assert forall|k: int| 0 <= k < r4.len() implies neighbor_ok(
                self@,
                closed_set@,
                #[trigger] r4[k],
                current,
            ) by {
                if k < r1.len() {
                    assert(r4[k] == r1[k]);
                } else if k < r2.len() {
                    assert(r4[k] == r2[k]);
                } else if k < r3.len() {
                    assert(r4[k] == r3[k]);
                }
            }
            assert forall|c: (usize, usize)|
                neighbor_ok(self@, closed_set@, c, current) && adjacent(
                    coord(c),
                    coord(current),
                ) implies #[trigger] r4.contains(c) by {
                if c.0 == current.0 && c.1 as int + 1 == current.1 as int {
                    assert(current.1 != 0);
                    assert(c == (current.0, (current.1 - 1) as usize));
                    assert(r1[r1.len() - 1] == c);
                    assert(r4[r1.len() - 1] == c);
                } else if c.0 == current.0 && c.1 as int == current.1 as int + 1 {
                    assert(c.1 < self@.y_len);
                    assert(current.1 != y_max);
                    assert(c == (current.0, (current.1 + 1) as usize));
                    assert(r2[r2.len() - 1] == c);
                    assert(r4[r2.len() - 1] == c);
                } else if c.1 == current.1 && c.0 as int == current.0 as int + 1 {
                    assert(c.0 < self@.x_len);
                    assert(current.0 != x_max);
                    assert(c == ((current.0 + 1) as usize, current.1));
                    assert(r3[r3.len() - 1] == c);
                    assert(r4[r3.len() - 1] == c);
                } else {
                    assert(c.1 == current.1 && c.0 as int + 1 == current.0 as int);
                    assert(current.0 != 0);
                    assert(c == ((current.0 - 1) as usize, current.1));
                    assert(r4[r4.len() - 1] == c);
                }
            }
        }
        result
    }

    /// The frontier node to expand next: the objective itself the moment it
    /// is in the open set; otherwise a node of minimal score, preferring —
    /// when `dist` is set — the one closest to the objective by Manhattan
    /// distance among equal scores.  Remaining ties fall to whichever such
    /// node was discovered first.
    fn get_lowest_score(
        &self,
        scores: &Vec<usize>,
        open_set: &Vec<(usize, usize)>,
        dist: bool,
    ) -> (r: (usize, usize))
        requires
            self.inv(),
            open_set@.len() > 0,
            forall|k: int|
                0 <= k < open_set@.len() ==> (#[trigger] open_set@[k]).0 < self@.x_len
                    && open_set@[k].1 < self@.y_len,
            scores@.len() == self@.cells.len(),
            self@.objective.0 < self@.x_len,
            self@.objective.1 < self@.y_len,
        ensures
            open_set@.contains(r),
            r.0 < self@.x_len && r.1 < self@.y_len,
            seq_has_coord(open_set@, objective_coord(self@).0, objective_coord(self@).1)
                ==> coord(r) == objective_coord(self@),
            !seq_has_coord(open_set@, objective_coord(self@).0, objective_coord(self@).1)
                ==> forall|k: int|
                0 <= k < open_set@.len() ==> scores@[cidx(self@, r)] <= scores@[cidx(
                    self@,
                    #[trigger] open_set@[k],
                )],
            !seq_has_coord(open_set@, objective_coord(self@).0, objective_coord(self@).1) && dist
                ==> forall|k: int|
                0 <= k < open_set@.len() && scores@[cidx(self@, #[trigger] open_set@[k])]
                    == scores@[cidx(self@, r)] ==> manhattan(coord(r), objective_coord(self@))
                    <= manhattan(coord(open_set@[k]), objective_coord(self@)),
    {
        let mut best = open_set[0];
        let mut best_i = self.flat_index(best.0, best.1);
        let mut best_dist = self.manhattan_distance(best);
        let n = open_set.len();
        for k in 0..n
            invariant
                self.inv(),
                n == open_set@.len(),
                n > 0,
                scores@.len() == self@.cells.len(),
                self@.objective.0 < self@.x_len,
                self@.objective.1 < self@.y_len,
                forall|j: int|
                    0 <= j < open_set@.len() ==> (#[trigger] open_set@[j]).0 < self@.x_len
                        && open_set@[j].1 < self@.y_len,
                open_set@.contains(best),
                best.0 < self@.x_len && best.1 < self@.y_len,
                best_i == cidx(self@, best),
                best_i < scores@.len(),
                best_dist == manhattan(coord(best), objective_coord(self@)),
                forall|j: int|
                    0 <= j < k ==> coord(#[trigger] open_set@[j]) != objective_coord(self@),
                forall|j: int|
                    0 <= j < k ==> scores@[cidx(self@, best)] <= scores@[cidx(
                        self@,
                        #[trigger] open_set@[j],
                    )],
                dist ==> forall|j: int|
                    0 <= j < k && scores@[cidx(self@, #[trigger] open_set@[j])] == scores@[cidx(
                        self@,
                        best,
                    )] ==> manhattan(coord(best), objective_coord(self@)) <= manhattan(
                        coord(open_set@[j]),
                        objective_coord(self@),
                    ),
        {
            let c = open_set[k];
            if c.0 == self.objective_square.0 && c.1 == self.objective_square.1 {
                proof {
                    assert(open_set@.contains(c)) by {
                        assert(open_set@[k as int] == c);
                    }
                }
                return c;
            }
            let ci = self.flat_index(c.0, c.1);
            if scores[ci] < scores[best_i] {
                best = c;
                best_i = ci;
                best_dist = self.manhattan_distance(c);
                proof {
                    assert(open_set@.contains(best)) by {
                        assert(open_set@[k as int] == best);
                    }
                }
            } else if dist && scores[ci] == scores[best_i] {
                let cd = self.manhattan_distance(c);
                if cd < best_dist {
                    best = c;
                    best_i = ci;
                    best_dist = cd;
                    proof {
                        assert(open_set@.contains(best)) by {
                            assert(open_set@[k as int] == best);
                        }
                    }
                }
            }
        }
        proof {
            if seq_has_coord(open_set@, objective_coord(self@).0, objective_coord(self@).1) {
                let j = choose|j: int|
                    0 <= j < open_set@.len() && (#[trigger] open_set@[j]).0
                        == objective_coord(self@).0 && open_set@[j].1 == objective_coord(self@).1;
                assert(coord(open_set@[j]) != objective_coord(self@));
                assert(false);
            }
        }
        best
    }

    /// Wipe the `Visited` and `Solution` markings of a previous run back to
    /// `Blank` and drop the recorded history.
    fn clear_results(&mut self)
        requires
            old(self).inv(),
        ensures
            final(self).inv(),
            final(self)@ == results_cleared(old(self)@),
    {
        self.states = Vec::new();
        let total = self.squares.len();
        for i in 0..total
            invariant
                self.inv(),
                total == self@.cells.len(),
                self@.cells.len() == old(self)@.cells.len(),
                self@ == (GridView { cells: self@.cells, states: Seq::empty(), ..old(self)@ }),
                forall|j: int|
                    0 <= j < i ==> #[trigger] self@.cells[j] == results_cleared(
                        old(self)@,
                    ).cells[j],
                forall|j: int|
                    i <= j < self@.cells.len() ==> #[trigger] self@.cells[j] == old(self)@.cells[j],
        {
            let t = self.squares[i].square_type;
            proof {
                assert(t == self@.cells[i as int]);
                assert(self@.cells[i as int] == old(self)@.cells[i as int]);
            }
            if t == SquareType::Visited || t == SquareType::Solution {
                self.write_cell_type_at(i, SquareType::Blank);
            }
            proof {
                assert(self@.cells[i as int] == results_cleared(old(self)@).cells[i as int]);
            }
        }
        proof {
            assert(self@.cells =~= results_cleared(old(self)@).cells);
            assert(self@ =~= results_cleared(old(self)@));
        }
    }

    /// Record the grid's current cells as one more snapshot at the end of
    /// the history.
    fn push_snapshot(&mut self)
        requires
            old(self).inv(),
            old(self)@.current_state == 0,
        ensures
            final(self).inv(),
            final(self)@ == (GridView {
                states: old(self)@.states.push(old(self)@.cells),
                ..old(self)@
            }),
    {
        let snap = self.get_current_state();
        self.states.push(snap);
        proof {
            assert(self@.states =~= old(self)@.states.push(old(self)@.cells));
            assert(self@ =~= (GridView {
                states: old(self)@.states.push(old(self)@.cells),
                ..old(self)@
            }));
            assert forall|t: int| 0 <= t < self@.states.len() implies (
            #[trigger] self@.states[t]).len() == self@.x_len * self@.y_len by {
                if t < self@.states.len() - 1 {
                    assert(self@.states[t] == old(self)@.states[t]);
                } else {
                    assert(self@.states[t] == old(self)@.cells);
                }
            }
            assert(grid_wf(self@));
        }
    }

    /// Consider one neighbor of the cell being expanded: record or improve
    /// its path cost and score, point its predecessor entry at the expanded
    /// cell, and put it into the open set if it is new.
    fn process_neighbor(
        &self,
        open_set: &mut Vec<(usize, usize)>,
        came_from: &mut Vec<Option<(usize, usize)>>,
        path_costs: &mut Vec<usize>,
        scores: &mut Vec<usize>,
        closed_set: &Vec<bool>,
        Ghost(depth): Ghost<Map<int, nat>>,
        Ghost(cc): Ghost<int>,
        neighbor: (usize, usize),
        current: (usize, usize),
        weights: bool,
        heuristics: bool,
    ) -> (new_depth: Ghost<Map<int, nat>>)
        requires
            self.inv(),
            self@.objective.0 < self@.x_len,
            self@.objective.1 < self@.y_len,
            neighbor.0 < self@.x_len,
            neighbor.1 < self@.y_len,
            current.0 < self@.x_len,
            current.1 < self@.y_len,
            adjacent(coord(neighbor), coord(current)),
            !closed_set@[cidx(self@, neighbor)],
            closed_set@[cidx(self@, current)],
            coord(current) != objective_coord(self@),
            0 < cc <= self@.cells.len(),
            scores@.len() == self@.cells.len(),
            open_ok(self@.x_len as int, self@.y_len as int, old(open_set)@, closed_set@),
            open_has_entries(
                self@.y_len as int,
                old(open_set)@,
                old(came_from)@,
                start_coord(self@),
            ),
            cf_entries_ok(
                self@.x_len as int,
                self@.y_len as int,
                old(came_from)@,
                closed_set@,
                depth,
                start_coord(self@),
                objective_coord(self@),
            ),
            closed_ok(
                self@.x_len as int,
                self@.y_len as int,
                closed_set@,
                old(came_from)@,
                depth,
                start_coord(self@),
                cc,
            ),
            depth_open_ok(self@.y_len as int, old(open_set)@, depth, cc),
            costs_ok(
                self@.x_len as int,
                self@.y_len as int,
                old(open_set)@,
                closed_set@,
                old(path_costs)@,
                depth,
                weights,
            ),
        ensures
            final(open_set)@ == old(open_set)@ || final(open_set)@ == old(open_set)@.push(
                neighbor,
            ),
            final(open_set)@.contains(neighbor),
            final(came_from)@.len() == old(came_from)@.len(),
            final(path_costs)@.len() == old(path_costs)@.len(),
            final(scores)@.len() == old(scores)@.len(),
            open_ok(self@.x_len as int, self@.y_len as int, final(open_set)@, closed_set@),
            open_has_entries(
                self@.y_len as int,
                final(open_set)@,
                final(came_from)@,
                start_coord(self@),
            ),
            cf_entries_ok(
                self@.x_len as int,
                self@.y_len as int,
                final(came_from)@,
                closed_set@,
                new_depth@,
                start_coord(self@),
                objective_coord(self@),
            ),
            closed_ok(
                self@.x_len as int,
                self@.y_len as int,
                closed_set@,
                final(came_from)@,
                new_depth@,
                start_coord(self@),
                cc,
            ),
            depth_open_ok(self@.y_len as int, final(open_set)@, new_depth@, cc),
            costs_ok(
                self@.x_len as int,
                self@.y_len as int,
                final(open_set)@,
                closed_set@,
                final(path_costs)@,
                new_depth@,
                weights,
            ),
    {
        let i_cur = self.flat_index(current.0, current.1);
        let i_n = self.flat_index(neighbor.0, neighbor.1);
        let ghost m = self@;
        proof {
            if i_cur == i_n {
                lemma_sidx_injective(
                    m,
                    current.0 as int,
                    current.1 as int,
                    neighbor.0 as int,
                    neighbor.1 as int,
                );
            }
            assert(closed_set@[i_cur as int]);
            assert(self.squares.len() == self.squares@.len());
            assert(self@.cells.len() <= usize::MAX);
            assert(depth.contains_key(i_cur as int) && depth[i_cur as int] < cc);
            assert(path_costs@[i_cur as int] == (if weights {
                depth[i_cur as int] as int
            } else {
                0
            }));
        }
        let mut tentative = path_costs[i_cur];
        if weights {
            tentative = tentative + 1;
        }
        proof {
            assert(tentative == (if weights {
                depth[i_cur as int] + 1
            } else {
                0
            }));
        }
        let ghost new_d = depth.insert(i_n as int, (depth[i_cur as int] + 1) as nat);
        let in_open = open_contains(open_set, neighbor);
        let mut touched = false;
        if in_open && tentative < path_costs[i_n] {
            came_from.set(i_n, Option::Some(current));
            path_costs.set(i_n, tentative);
            let mut sc = tentative;
            if heuristics {
                proof {
                    lemma_total_bound(m);
                }
                sc = sc + self.manhattan_distance(neighbor);
            }
            scores.set(i_n, sc);
            touched = true;
        }
        if !in_open {
            open_set.push(neighbor);
            came_from.set(i_n, Option::Some(current));
            path_costs.set(i_n, tentative);
            let mut sc = tentative;
            if heuristics {
                proof {
                    lemma_total_bound(m);
                }
                sc = sc + self.manhattan_distance(neighbor);
            }
            scores.set(i_n, sc);
            touched = true;
        }
        proof {
            let xl = m.x_len as int;
            let yl = m.y_len as int;
            let d2 = if touched {
                new_d
            } else {
                depth
            };
            let cf2 = came_from@;
            assert(i_cur as int == fidx(yl, current));
            assert(i_n as int == fidx(yl, neighbor));
            assert(closed_set@[fidx(yl, current)]);
            assert(!closed_set@[fidx(yl, neighbor)]);
            assert forall|x: int, y: int|
                0 <= x < xl && 0 <= y < yl && (#[trigger] cf2[flat(yl, x, y)]).is_some() implies {
                let p = cf2[flat(yl, x, y)].unwrap();
                &&& p.0 < xl && p.1 < yl
                &&& adjacent((x, y), coord(p))
                &&& closed_set@[fidx(yl, p)]
                &&& coord(p) != objective_coord(m)
                &&& (coord(p) == start_coord(m) || cf2[fidx(yl, p)].is_some())
                &&& d2.contains_key(flat(yl, x, y))
                &&& d2.contains_key(fidx(yl, p))
                &&& d2[flat(yl, x, y)] == d2[fidx(yl, p)] + 1
            } by {
                lemma_flat_bounds(yl, x, y, xl);
                if flat(yl, x, y) == i_n as int {
                    lemma_flat_injective(yl, x, y, neighbor.0 as int, neighbor.1 as int);
                    if touched {
                        assert(cf2[flat(yl, x, y)].unwrap() == current);
                        assert(coord(current) == start_coord(m) || old(came_from)@[fidx(
                            yl,
                            current,
                        )].is_some());
                        if fidx(yl, current) != i_n as int {
                            assert(cf2[fidx(yl, current)] == old(came_from)@[fidx(yl, current)]);
                        }
                    }
                } else {
                    assert(cf2[flat(yl, x, y)] == old(came_from)@[flat(yl, x, y)]);
                    let p = cf2[flat(yl, x, y)].unwrap();
                    assert(closed_set@[fidx(yl, p)]);
                    lemma_flat_bounds(yl, p.0 as int, p.1 as int, xl);
                    if fidx(yl, p) == i_n as int {
                        lemma_flat_injective(yl, p.0 as int, p.1 as int, neighbor.0 as int, neighbor.1 as int);
                    }
                    assert(cf2[fidx(yl, p)] == old(came_from)@[fidx(yl, p)] || coord(p)
                        == start_coord(m));
                }
            }
            assert(cf_entries_ok(xl, yl, cf2, closed_set@, d2, start_coord(m), objective_coord(m)));
            assert forall|x: int, y: int|
                0 <= x < xl && 0 <= y < yl && #[trigger] closed_set@[flat(yl, x, y)] implies (((x,
            y) == start_coord(m) || cf2[flat(yl, x, y)].is_some()) && d2.contains_key(
                flat(yl, x, y),
            ) && d2[flat(yl, x, y)] < cc) by {
                lemma_flat_bounds(yl, x, y, xl);
                if flat(yl, x, y) == i_n as int {
                    lemma_flat_injective(yl, x, y, neighbor.0 as int, neighbor.1 as int);
                }
            }
            assert(closed_ok(xl, yl, closed_set@, cf2, d2, start_coord(m), cc));
            assert forall|k: int| 0 <= k < open_set@.len() implies (d2.contains_key(fidx(
                yl,
                #[trigger] open_set@[k],
            )) && d2[fidx(yl, open_set@[k])] <= cc && !closed_set@[fidx(yl, open_set@[k])]
                && open_set@[k].0 < xl && open_set@[k].1 < yl && path_costs@[fidx(
                yl,
                open_set@[k],
            )] == (if weights {
                d2[fidx(yl, open_set@[k])] as int
            } else {
                0
            })) by {
                let o = open_set@[k];
                lemma_flat_bounds(yl, o.0 as int, o.1 as int, xl);
                if k < old(open_set)@.len() {
                    assert(o == old(open_set)@[k]);
                    if fidx(yl, o) == i_n as int {
                        lemma_flat_injective(yl, o.0 as int, o.1 as int, neighbor.0 as int, neighbor.1 as int);
                        assert(o == neighbor);
                    }
                } else {
                    assert(o == neighbor);
                }
            }
            assert forall|x: int, y: int|
                0 <= x < xl && 0 <= y < yl && #[trigger] closed_set@[flat(yl, x, y)]
                implies path_costs@[flat(yl, x, y)] == (if weights {
                d2[flat(yl, x, y)] as int
            } else {
                0
            }) by {
                lemma_flat_bounds(yl, x, y, xl);
                if flat(yl, x, y) == i_n as int {
                    lemma_flat_injective(yl, x, y, neighbor.0 as int, neighbor.1 as int);
                }
            }
            assert forall|k1: int, k2: int| 0 <= k1 < k2 < open_set@.len() implies open_set@[k1]
                != open_set@[k2] by {
                if k2 == open_set@.len() - 1 && open_set@.len() > old(open_set)@.len() {
                    assert(open_set@[k2] == neighbor);
                    assert(!old(open_set)@.contains(neighbor));
                    assert(open_set@[k1] == old(open_set)@[k1]);
                    assert(old(open_set)@.contains(old(open_set)@[k1]));
                }
            }
            assert(open_ok(xl, yl, open_set@, closed_set@));
            assert(depth_open_ok(yl, open_set@, d2, cc));
            assert(costs_ok(xl, yl, open_set@, closed_set@, path_costs@, d2, weights));
            assert forall|k: int|
                0 <= k < open_set@.len() && coord(#[trigger] open_set@[k]) != start_coord(
                    m,
                ) implies cf2[fidx(yl, open_set@[k])].is_some() by {
                let o = open_set@[k];
                lemma_flat_bounds(yl, o.0 as int, o.1 as int, xl);
                if k < old(open_set)@.len() {
                    assert(o == old(open_set)@[k]);
                    if !(touched && fidx(yl, o) == i_n as int) {
                        assert(cf2[fidx(yl, o)] == old(came_from)@[fidx(yl, o)]);
                    }
                } else {
                    assert(o == neighbor);
                }
            }
            assert(open_has_entries(yl, open_set@, cf2, start_coord(m)));
            if !in_open {
                assert(open_set@[open_set@.len() - 1] == neighbor);
            }
            assert(open_set@.contains(neighbor));
            if touched {
                assert(came_from@ == old(came_from)@.update(i_n as int, Option::Some(current)));
            }
        }
        if touched {
            Ghost(new_d)
        } else {
            Ghost(depth)
        }
    }

    /// Run the generalized best-first search between the designated `Start`
    /// and `Objective`, marking every expanded cell `Visited` and, on
    /// success, the reconstructed path `Solution`; one snapshot of the grid
    /// is recorded after every expansion, plus a final one on success, the
    /// last snapshot always shows the final grid, and the history cursor
    /// ends on the last snapshot.
    ///
    /// Whenever a 4-adjacent walk through non-wall cells joins the two
    /// endpoints, the run succeeds: the `Solution` cells form one
    /// duplicate-free chain that completes a 4-adjacent walk from the
    /// objective back to the start.  Every cell that ends `Visited` or
    /// `Solution` is reachable from the start through open cells, and when
    /// the objective is unreachable the search is exhaustive: every open
    /// cell reachable from the start, other than the start itself, ends
    /// `Visited`, and nothing is marked `Solution`.
    ///
    /// The flags pick the variant: `weights && heuristics` is A*,
    /// `weights && !heuristics` is Dijkstra, and `!weights && heuristics`
    /// is Greedy Best-First.  Unless both endpoints are designated the run
    /// only wipes the stale markings and history of a previous run.
    #[verifier::rlimit(100)]
    #[verifier::spinoff_prover]
    pub fn search_algorithm(&mut self, weights: bool, heuristics: bool)
        requires
            old(self).inv(),
        ensures
            final(self).inv(),
            final(self)@ == (GridView {
                cells: final(self)@.cells,
                states: final(self)@.states,
                current_state: final(self)@.current_state,
                ..old(self)@
            }),
            forall|i: int|
                0 <= i < final(self)@.states.len() ==> (#[trigger] final(self)@.states[i]).len()
                    == final(self)@.x_len * final(self)@.y_len,
            !old(self)@.start_set || !old(self)@.objective_set ==> final(self)@
                == results_cleared(old(self)@),
            old(self)@.start_set && old(self)@.objective_set ==> final(self)@.states.len() >= 1
                && final(self)@.current_state == final(self)@.states.len() - 1,
            old(self)@.start_set && old(self)@.objective_set ==> final(self)@.states[final(self)@.states.len()
                - 1] == final(self)@.cells,
            old(self)@.start_set && old(self)@.objective_set ==> solution_chain_ok(
                final(self)@,
                start_coord(old(self)@),
                objective_coord(old(self)@),
            ),
            old(self)@.start_set && old(self)@.objective_set ==> forall|x: int, y: int|
                in_grid(final(self)@, x, y) && (#[trigger] cell_at(final(self)@, x, y)
                    == SquareType::Visited || cell_at(final(self)@, x, y) == SquareType::Solution)
                    ==> reachable(
                    results_cleared(old(self)@),
                    start_coord(old(self)@),
                    (x, y),
                ),
            old(self)@.start_set && old(self)@.objective_set && reachable(
                results_cleared(old(self)@),
                start_coord(old(self)@),
                objective_coord(old(self)@),
            ) && start_coord(old(self)@) != objective_coord(old(self)@) ==> solution_path_complete(
                final(self)@,
                start_coord(old(self)@),
                objective_coord(old(self)@),
            ),
            old(self)@.start_set && old(self)@.objective_set && roles_ok(old(self)@) && !reachable(
                results_cleared(old(self)@),
                start_coord(old(self)@),
                objective_coord(old(self)@),
            ) ==> (forall|x: int, y: int|
                in_grid(final(self)@, x, y) && (x, y) != start_coord(old(self)@) && reachable(
                    results_cleared(old(self)@),
                    start_coord(old(self)@),
                    (x, y),
                ) ==> #[trigger] cell_at(final(self)@, x, y) == SquareType::Visited) && (forall|
                x: int,
                y: int,
            |
                in_grid(final(self)@, x, y) ==> #[trigger] cell_at(final(self)@, x, y)
                    != SquareType::Solution),
            old(self)@.start_set && old(self)@.objective_set && roles_ok(old(self)@) ==> {
                &&& final(self)@.x_len == old(self)@.x_len && final(self)@.y_len == old(self)@.y_len
                &&& forall|x: int, y: int|
                    in_grid(old(self)@, x, y) && #[trigger] cell_at(old(self)@, x, y)
                        == SquareType::Wall ==> cell_at(final(self)@, x, y) == SquareType::Wall
                &&& cell_at(final(self)@, start_coord(old(self)@).0, start_coord(old(self)@).1)
                    == SquareType::Start
                &&& cell_at(
                    final(self)@,
                    objective_coord(old(self)@).0,
                    objective_coord(old(self)@).1,
                ) == SquareType::Objective
                &&& solution_chain_ok(
                    final(self)@,
                    start_coord(old(self)@),
                    objective_coord(old(self)@),
                )
                &&& final(self)@.states.len() > 0 ==> final(self)@.current_state
                    == final(self)@.states.len() - 1
            },
    {
        self.clear_results();
        if !self.objective_square_set || !self.start_square_set {
            return ;
        }
        self.current_state = 0;
        let ghost m0 = self@;
        let ghost xl = self@.x_len as int;
        let ghost yl = self@.y_len as int;
        let sq_start = self.start_square;
        let sq_obj = self.objective_square;
        let total = self.squares.len();
        let mut open_set: Vec<(usize, usize)> = Vec::new();
        let mut closed_set: Vec<bool> = filled_vec(total, false);
        let mut came_from: Vec<Option<(usize, usize)>> = filled_vec(total, Option::None);
        let mut path_costs: Vec<usize> = filled_vec(total, 0);
        let mut scores: Vec<usize> = filled_vec(total, 0);
        let mut closed_count: usize = 0;
        open_set.push(sq_start);
        let i_start = self.flat_index(sq_start.0, sq_start.1);
        path_costs.set(i_start, 0);
        let h0 = self.manhattan_distance(sq_start);
        scores.set(i_start, h0);
        let ghost mut depth: Map<int, nat> = Map::empty().insert(i_start as int, 0 as nat);
        proof {
            lemma_count_true_all_false(closed_set@);
            assert(total == self@.cells.len());
            assert(start_coord(self@) == coord(sq_start));
            assert(objective_coord(self@) == coord(sq_obj));
            assert forall|x: int, y: int| 0 <= x < xl && 0 <= y < yl implies !(
            #[trigger] came_from@[flat(yl, x, y)]).is_some() by {
                lemma_flat_bounds(yl, x, y, xl);
            }
            assert forall|x: int, y: int| 0 <= x < xl && 0 <= y < yl implies !(
            #[trigger] closed_set@[flat(yl, x, y)]) by {
                lemma_flat_bounds(yl, x, y, xl);
            }
            assert forall|x: int, y: int| in_grid(self@, x, y) implies #[trigger] cell_at(
                self@,
                x,
                y,
            ) != SquareType::Visited && cell_at(self@, x, y) != SquareType::Solution by {
                lemma_sidx_bounds(self@, x, y);
                lemma_sidx_bounds(old(self)@, x, y);
            }
            assert(closed_set@.len() == xl * yl);
            assert(cf_entries_ok(xl, yl, came_from@,
                closed_set@,
                depth,
                coord(sq_start),
                coord(sq_obj),
            ));
            assert(closed_ok(xl, yl, closed_set@,
                came_from@,
                depth,
                coord(sq_start),
                closed_count as int,
            ));
            assert(open_set@[0] == sq_start);
            assert(costs_ok(xl, yl, open_set@, closed_set@, path_costs@, depth, weights));
            assert(depth_open_ok(yl, open_set@, depth, closed_count as int));
            assert(chain_covers(self@, Seq::empty(), coord(sq_start), coord(sq_obj)));
            assert(seq_has_coord(open_set@, sq_start.0 as int, sq_start.1 as int)) by {
                assert((open_set@[0]).0 == sq_start.0);
            }
            assert(!closed_set@[fidx(yl, sq_obj)]) by {
                lemma_flat_bounds(yl, sq_obj.0 as int, sq_obj.1 as int, xl);
            }
            assert(frontier_closed(xl, yl, m0, closed_set@, open_set@)) by {
                assert forall|x: int, y: int, nx: int, ny: int|
                    0 <= x < xl && 0 <= y < yl && #[trigger] closed_set@[flat(yl, x, y)] && 0 <= nx
                        < xl && 0 <= ny < yl && adjacent((x, y), (nx, ny)) && #[trigger] cell_at(
                        m0,
                        nx,
                        ny,
                    ) != SquareType::Wall implies closed_set@[flat(yl, nx, ny)] || seq_has_coord(
                    open_set@,
                    nx,
                    ny,
                ) by {
                    assert(!closed_set@[flat(yl, x, y)]);
                }
            }
        }
        while open_set.len() > 0
            invariant_except_break
                self.inv(),
                self@ == (GridView { cells: self@.cells, states: self@.states, ..m0 }),
                total == self@.cells.len(),
                total == m0.cells.len(),
                m0.x_len == self@.x_len,
                m0.y_len == self@.y_len,
                xl == self@.x_len as int,
                yl == self@.y_len as int,
                xl * yl == total,
                self@.start.0 == sq_start.0 && self@.start.1 == sq_start.1,
                self@.objective.0 == sq_obj.0 && self@.objective.1 == sq_obj.1,
                m0.start_set && m0.objective_set,
                grid_wf(m0),
                m0.current_state == 0,
                sq_start.0 < self@.x_len && sq_start.1 < self@.y_len,
                sq_obj.0 < self@.x_len && sq_obj.1 < self@.y_len,
                closed_set@.len() == total,
                came_from@.len() == total,
                path_costs@.len() == total,
                scores@.len() == total,
                count_true(closed_set@) == closed_count,
                closed_count <= total,
                open_ok(xl, yl, open_set@, closed_set@),
                open_has_entries(yl, open_set@, came_from@, coord(sq_start)),
                cf_entries_ok(xl, yl, came_from@,
                    closed_set@,
                    depth,
                    coord(sq_start),
                    coord(sq_obj),
                ),
                closed_ok(xl, yl, closed_set@,
                    came_from@,
                    depth,
                    coord(sq_start),
                    closed_count as int,
                ),
                depth_open_ok(yl, open_set@, depth, closed_count as int),
                costs_ok(xl, yl, open_set@, closed_set@, path_costs@, depth, weights),
                forall|x: int, y: int|
                    in_grid(self@, x, y) ==> (#[trigger] cell_at(self@, x, y) == cell_at(m0, x, y)
                        || cell_at(self@, x, y) == SquareType::Visited),
                forall|x: int, y: int|
                    in_grid(self@, x, y) ==> #[trigger] cell_at(self@, x, y)
                        != SquareType::Solution,
                forall|x: int, y: int|
                    in_grid(self@, x, y) && #[trigger] cell_at(self@, x, y)
                        == SquareType::Visited ==> closed_set@[sidx(self@, x, y)],
                forall|k: int|
                    0 <= k < open_set@.len() ==> (coord(#[trigger] open_set@[k]) == coord(sq_start)
                        || cell_at(m0, open_set@[k].0 as int, open_set@[k].1 as int)
                        != SquareType::Wall),
                forall|x: int, y: int|
                    0 <= x < xl && 0 <= y < yl && #[trigger] closed_set@[flat(yl, x, y)] ==> ((x,
                    y) == coord(sq_start) || cell_at(m0, x, y) != SquareType::Wall),
                cell_at(self@, sq_obj.0 as int, sq_obj.1 as int) == cell_at(
                    m0,
                    sq_obj.0 as int,
                    sq_obj.1 as int,
                ),
                cell_at(m0, sq_start.0 as int, sq_start.1 as int) == SquareType::Start ==> cell_at(
                    self@,
                    sq_start.0 as int,
                    sq_start.1 as int,
                ) == SquareType::Start,
                forall|x: int, y: int|
                    in_grid(self@, x, y) && (x, y) != coord(sq_start) && #[trigger] cell_at(
                        m0,
                        x,
                        y,
                    ) == SquareType::Wall ==> cell_at(self@, x, y) == SquareType::Wall,
                open_set@.len() > 0 || self@.states.len() > 0,
                solution_chain_ok(self@, coord(sq_start), coord(sq_obj)),
                frontier_closed(xl, yl, m0, closed_set@, open_set@),
                !closed_set@[fidx(yl, sq_obj)],
                closed_set@[fidx(yl, sq_start)] || seq_has_coord(
                    open_set@,
                    sq_start.0 as int,
                    sq_start.1 as int,
                ),
                roles_ok(m0) ==> visited_marked(xl, yl, self@, closed_set@, coord(sq_start)),
                self@.states.len() > 0 ==> self@.states[self@.states.len() - 1] == self@.cells,
                m0.start.0 == sq_start.0 && m0.start.1 == sq_start.1,
            ensures
                self.inv(),
                self@ == (GridView { cells: self@.cells, states: self@.states, ..m0 }),
                self@.states.len() >= 1,
                solution_chain_ok(self@, coord(sq_start), coord(sq_obj)),
                cell_at(self@, sq_obj.0 as int, sq_obj.1 as int) == cell_at(
                    m0,
                    sq_obj.0 as int,
                    sq_obj.1 as int,
                ),
                cell_at(m0, sq_start.0 as int, sq_start.1 as int) == SquareType::Start ==> cell_at(
                    self@,
                    sq_start.0 as int,
                    sq_start.1 as int,
                ) == SquareType::Start,
                forall|x: int, y: int|
                    in_grid(self@, x, y) && (x, y) != coord(sq_start) && #[trigger] cell_at(
                        m0,
                        x,
                        y,
                    ) == SquareType::Wall ==> cell_at(self@, x, y) == SquareType::Wall,
                closed_set@.len() == total,
                came_from@.len() == total,
                xl * yl == total,
                xl == self@.x_len as int && yl == self@.y_len as int,
                cf_entries_ok(xl, yl, came_from@,
                    closed_set@,
                    depth,
                    coord(sq_start),
                    coord(sq_obj),
                ),
                closed_ok(xl, yl, closed_set@,
                    came_from@,
                    depth,
                    coord(sq_start),
                    closed_count as int,
                ),
                forall|x: int, y: int|
                    0 <= x < xl && 0 <= y < yl && #[trigger] closed_set@[flat(yl, x, y)] ==> ((x,
                    y) == coord(sq_start) || cell_at(m0, x, y) != SquareType::Wall),
                forall|x: int, y: int|
                    in_grid(self@, x, y) && (#[trigger] cell_at(self@, x, y)
                        == SquareType::Visited || cell_at(self@, x, y) == SquareType::Solution)
                        ==> closed_set@[sidx(self@, x, y)],
                self@.states[self@.states.len() - 1] == self@.cells,
                frontier_closed(xl, yl, m0, closed_set@, open_set@),
                !closed_set@[fidx(yl, sq_obj)],
                closed_set@[fidx(yl, sq_start)] || seq_has_coord(
                    open_set@,
                    sq_start.0 as int,
                    sq_start.1 as int,
                ),
                open_set@.len() == 0 ==> (roles_ok(m0) ==> visited_marked(
                    xl,
                    yl,
                    self@,
                    closed_set@,
                    coord(sq_start),
                )),
                open_set@.len() == 0 ==> (forall|x: int, y: int|
                    in_grid(self@, x, y) ==> #[trigger] cell_at(self@, x, y)
                        != SquareType::Solution),
                open_set@.len() > 0 ==> (coord(sq_obj) == coord(sq_start) || (came_from@[fidx(
                    yl,
                    sq_obj,
                )].is_some() && cell_at(m0, sq_obj.0 as int, sq_obj.1 as int)
                    != SquareType::Wall)),
                open_set@.len() > 0 ==> (coord(sq_start) == coord(sq_obj)
                    || solution_path_complete(self@, coord(sq_start), coord(sq_obj))),
            decreases total - closed_count,
        {
            let current = self.get_lowest_score(&scores, &open_set, heuristics);
            proof {
                let ko = choose|ko: int| 0 <= ko < open_set@.len() && open_set@[ko] == current;
                assert(open_set@[ko] == current);
                assert(!closed_set@[fidx(yl, current)]);
                assert(coord(current) == coord(sq_start) || came_from@[fidx(
                    yl,
                    current,
                )].is_some());
                assert(depth.contains_key(fidx(yl, current)) && depth[fidx(yl, current)]
                    <= closed_count as int);
                assert(path_costs@[fidx(yl, current)] == (if weights {
                    depth[fidx(yl, current)] as int
                } else {
                    0
                }));
                assert(coord(current) == coord(sq_start) || cell_at(
                    m0,
                    current.0 as int,
                    current.1 as int,
                ) != SquareType::Wall);
            }
            if current.0 == sq_obj.0 && current.1 == sq_obj.1 {
                let ghost head_m = self@;
                let ghost mut chain_w: Seq<(usize, usize)> = Seq::empty();
                if !(sq_obj.0 == sq_start.0 && sq_obj.1 == sq_start.1) {
                    proof {
                        assert(coord(current) == coord(sq_obj));
                        assert(came_from@[cidx(self@, sq_obj)].is_some());
                    }
                    let chain = self.mark_solution(
                        &came_from,
                        sq_obj,
                        sq_start,
                        Ghost(depth),
                        Ghost(closed_set@),
                    );
                    proof {
                        let ghost cv = chain@;
                        chain_w = cv;
                        assert(is_path_chain(cv, coord(sq_start), coord(sq_obj)));
                        assert forall|k: int| 0 <= k < cv.len() implies in_grid(
                            self@,
                            (#[trigger] cv[k]).0 as int,
                            cv[k].1 as int,
                        ) && cell_at(self@, cv[k].0 as int, cv[k].1 as int)
                            == SquareType::Solution by {
                            assert(seq_has_coord(cv, cv[k].0 as int, cv[k].1 as int));
                        }
                        assert forall|x: int, y: int|
                            in_grid(self@, x, y) && #[trigger] cell_at(self@, x, y)
                                == SquareType::Solution implies seq_has_coord(cv, x, y) by {}
                        assert(chain_covers(self@, cv, coord(sq_start), coord(sq_obj)));
                        assert(solution_chain_ok(self@, coord(sq_start), coord(sq_obj)));
                        assert forall|x: int, y: int|
                            in_grid(self@, x, y) && (x, y) != coord(sq_start)
                                && #[trigger] cell_at(m0, x, y) == SquareType::Wall implies cell_at(
                            self@,
                            x,
                            y,
                        ) == SquareType::Wall by {
                            if seq_has_coord(cv, x, y) {
                                let k = choose|k: int|
                                    0 <= k < cv.len() && (#[trigger] cv[k]).0 == x && cv[k].1 == y;
                                assert(closed_set@[cidx(m0, cv[k])]);
                                assert(closed_set@[flat(yl, x, y)]);
                                assert(cell_at(m0, x, y) != SquareType::Wall);
                            }
                        }
                        assert(cell_at(self@, sq_obj.0 as int, sq_obj.1 as int) == cell_at(
                            m0,
                            sq_obj.0 as int,
                            sq_obj.1 as int,
                        )) by {
                            if seq_has_coord(chain@, sq_obj.0 as int, sq_obj.1 as int) {
                                let k = choose|k: int|
                                    0 <= k < chain@.len() && (#[trigger] chain@[k]).0
                                        == sq_obj.0 as int && chain@[k].1 == sq_obj.1 as int;
                                assert(coord(chain@[k]) != coord(sq_obj));
                            }
                        }
                        assert(cell_at(m0, sq_start.0 as int, sq_start.1 as int)
                            == SquareType::Start ==> cell_at(
                            self@,
                            sq_start.0 as int,
                            sq_start.1 as int,
                        ) == SquareType::Start) by {
                            if seq_has_coord(chain@, sq_start.0 as int, sq_start.1 as int) {
                                let k = choose|k: int|
                                    0 <= k < chain@.len() && (#[trigger] chain@[k]).0
                                        == sq_start.0 as int && chain@[k].1 == sq_start.1 as int;
                                assert(coord(chain@[k]) != coord(sq_start));
                            }
                        }
                        assert forall|x: int, y: int| in_grid(self@, x, y)
                            implies #[trigger] cell_at(self@, x, y) == (if seq_has_coord(
                            cv,
                            x,
                            y,
                        ) {
                            SquareType::Solution
                        } else {
                            cell_at(head_m, x, y)
                        }) by {}
                    }
                }
                let ghost pre_push = self@;
                self.push_snapshot();
                proof {
                    assert forall|x: int, y: int| in_grid(self@, x, y) implies #[trigger] cell_at(
                        self@,
                        x,
                        y,
                    ) == cell_at(pre_push, x, y) by {}
                    let pp = choose|p: Seq<(usize, usize)>|
                        #[trigger] chain_covers(pre_push, p, coord(sq_start), coord(sq_obj));
                    assert(chain_covers(pre_push, pp, coord(sq_start), coord(sq_obj)));
                    assert forall|k: int| 0 <= k < pp.len() implies in_grid(
                        self@,
                        (#[trigger] pp[k]).0 as int,
                        pp[k].1 as int,
                    ) && cell_at(self@, pp[k].0 as int, pp[k].1 as int)
                        == SquareType::Solution by {
                        assert(cell_at(pre_push, pp[k].0 as int, pp[k].1 as int)
                            == SquareType::Solution);
                    }
                    assert forall|x: int, y: int|
                        in_grid(self@, x, y) && #[trigger] cell_at(self@, x, y)
                            == SquareType::Solution implies seq_has_coord(pp, x, y) by {
                        assert(cell_at(pre_push, x, y) == SquareType::Solution);
                    }
                    assert(chain_covers(self@, pp, coord(sq_start), coord(sq_obj)));
                    assert(solution_chain_ok(self@, coord(sq_start), coord(sq_obj)));
                    assert(open_set@.len() > 0);
                    assert(self@.states[self@.states.len() - 1] == self@.cells);
                    assert(coord(current) == coord(sq_obj));
                    assert(coord(sq_obj) == coord(sq_start) || (came_from@[fidx(
                        yl,
                        sq_obj,
                    )].is_some() && cell_at(m0, sq_obj.0 as int, sq_obj.1 as int)
                        != SquareType::Wall));
                    if !(sq_obj.0 == sq_start.0 && sq_obj.1 == sq_start.1) {
                        assert(chain_covers(pre_push, chain_w, coord(sq_start), coord(sq_obj)));
                        assert forall|k: int| 0 <= k < chain_w.len() implies in_grid(
                            self@,
                            (#[trigger] chain_w[k]).0 as int,
                            chain_w[k].1 as int,
                        ) && cell_at(self@, chain_w[k].0 as int, chain_w[k].1 as int)
                            == SquareType::Solution by {
                            assert(cell_at(pre_push, chain_w[k].0 as int, chain_w[k].1 as int)
                                == SquareType::Solution);
                        }
                        assert forall|x: int, y: int|
                            in_grid(self@, x, y) && #[trigger] cell_at(self@, x, y)
                                == SquareType::Solution implies seq_has_coord(chain_w, x, y) by {
                            assert(cell_at(pre_push, x, y) == SquareType::Solution);
                        }
                        assert(chain_covers(self@, chain_w, coord(sq_start), coord(sq_obj)));
                        assert(is_path_chain(chain_w, coord(sq_start), coord(sq_obj)));
                        assert(solution_path_complete(self@, coord(sq_start), coord(sq_obj)));
                    }
                    assert forall|x: int, y: int|
                        in_grid(self@, x, y) && (#[trigger] cell_at(self@, x, y)
                            == SquareType::Visited || cell_at(self@, x, y)
                            == SquareType::Solution) implies closed_set@[sidx(self@, x, y)] by {
                        assert(cell_at(pre_push, x, y) == cell_at(self@, x, y));
                        lemma_sidx_bounds(self@, x, y);
                        if !(sq_obj.0 == sq_start.0 && sq_obj.1 == sq_start.1) {
                            if seq_has_coord(chain_w, x, y) {
                                let kq = choose|kq: int|
                                    0 <= kq < chain_w.len() && (#[trigger] chain_w[kq]).0 == x
                                        && chain_w[kq].1 == y;
                                assert(closed_set@[cidx(head_m, chain_w[kq])]);
                            } else {
                                assert(cell_at(pre_push, x, y) == cell_at(head_m, x, y));
                                assert(cell_at(head_m, x, y) != SquareType::Solution);
                                assert(closed_set@[sidx(head_m, x, y)]);
                            }
                        } else {
                            assert(cell_at(pre_push, x, y) == cell_at(head_m, x, y));
                            assert(cell_at(head_m, x, y) != SquareType::Solution);
                            assert(closed_set@[sidx(head_m, x, y)]);
                        }
                    }
                }
                break ;
            }
            proof {
                lemma_flat_bounds(yl, current.0 as int, current.1 as int, xl);
                lemma_count_true_update(closed_set@, fidx(yl, current));
            }
            let new_depth = self.expand_current(
                &mut open_set,
                &mut came_from,
                &mut path_costs,
                &mut scores,
                &mut closed_set,
                &mut closed_count,
                Ghost(depth),
                current,
                sq_start,
                sq_obj,
                weights,
                heuristics,
                Ghost(m0),
                Ghost(total as int),
                Ghost(xl),
                Ghost(yl),
            );
            let ghost pre_push = self@;
            self.push_snapshot();
            proof {
                depth = new_depth@;
                assert forall|x: int, y: int| in_grid(self@, x, y) implies #[trigger] cell_at(
                    self@,
                    x,
                    y,
                ) == cell_at(pre_push, x, y) by {}
                assert(chain_covers(self@, Seq::empty(), coord(sq_start), coord(sq_obj)));
                assert(solution_chain_ok(self@, coord(sq_start), coord(sq_obj)));
                if roles_ok(m0) {
                    assert forall|x: int, y: int|
                        0 <= x < xl && 0 <= y < yl && #[trigger] closed_set@[flat(yl, x, y)] && (x,
                        y) != coord(sq_start) implies cell_at(self@, x, y)
                        == SquareType::Visited by {
                        assert(cell_at(pre_push, x, y) == SquareType::Visited);
                    }
                    assert(visited_marked(xl, yl, self@, closed_set@, coord(sq_start)));
                }
            }
        }
        let ghost pre_fin = self@;
        self.current_state = self.states.len() - 1;
        proof {
            let ghost fin = self@;
            assert(fin =~= (GridView {
                cells: fin.cells,
                states: fin.states,
                current_state: fin.current_state,
                ..old(self)@
            }));
            assert forall|x: int, y: int| in_grid(fin, x, y) implies #[trigger] cell_at(
                fin,
                x,
                y,
            ) == cell_at(pre_fin, x, y) by {}
            if roles_ok(old(self)@) {
                lemma_results_cleared_roles(old(self)@);
                lemma_roles_same_cells(results_cleared(old(self)@), m0);
                assert(cell_at(m0, sq_start.0 as int, sq_start.1 as int) == SquareType::Start);
                assert(cell_at(m0, sq_obj.0 as int, sq_obj.1 as int) == SquareType::Objective);
                assert(cell_at(fin, start_coord(old(self)@).0, start_coord(old(self)@).1)
                    == SquareType::Start);
                assert(cell_at(fin, objective_coord(old(self)@).0, objective_coord(old(self)@).1)
                    == SquareType::Objective);
                assert forall|x: int, y: int|
                    in_grid(old(self)@, x, y) && #[trigger] cell_at(old(self)@, x, y)
                        == SquareType::Wall implies cell_at(fin, x, y) == SquareType::Wall by {
                    lemma_sidx_bounds(old(self)@, x, y);
                    assert(cell_at(m0, x, y) == SquareType::Wall);
                    assert((x, y) != coord(sq_start));
                }
            }
            let s = start_coord(old(self)@);
            let o = objective_coord(old(self)@);
            let rc = results_cleared(old(self)@);
            assert(s == coord(sq_start));
            assert(o == coord(sq_obj));
            let ghost pw = choose|p: Seq<(usize, usize)>|
                #[trigger] chain_covers(pre_fin, p, coord(sq_start), coord(sq_obj));
            assert(chain_covers(pre_fin, pw, coord(sq_start), coord(sq_obj)));
            assert forall|k: int| 0 <= k < pw.len() implies in_grid(
                fin,
                (#[trigger] pw[k]).0 as int,
                pw[k].1 as int,
            ) && cell_at(fin, pw[k].0 as int, pw[k].1 as int) == SquareType::Solution by {
                assert(cell_at(pre_fin, pw[k].0 as int, pw[k].1 as int) == SquareType::Solution);
            }
            assert forall|x: int, y: int|
                in_grid(fin, x, y) && #[trigger] cell_at(fin, x, y) == SquareType::Solution
                implies seq_has_coord(pw, x, y) by {
                assert(cell_at(pre_fin, x, y) == SquareType::Solution);
            }
            assert(chain_covers(fin, pw, start_coord(old(self)@), objective_coord(old(self)@)));
            assert(solution_chain_ok(fin, start_coord(old(self)@), objective_coord(old(self)@)));
            assert(rc.cells == m0.cells && rc.x_len == m0.x_len && rc.y_len == m0.y_len);
            assert(sq_start.0 < m0.x_len && sq_start.1 < m0.y_len);
            assert(sq_obj.0 < m0.x_len && sq_obj.1 < m0.y_len);
            assert(fin.states == pre_fin.states && fin.cells == pre_fin.cells);
            assert(fin.states[fin.states.len() - 1] == fin.cells);
            assert forall|x: int, y: int|
                in_grid(fin, x, y) && (#[trigger] cell_at(fin, x, y) == SquareType::Visited
                    || cell_at(fin, x, y) == SquareType::Solution) implies reachable(
                rc,
                s,
                (x, y),
            ) by {
                assert(cell_at(pre_fin, x, y) == cell_at(fin, x, y));
                assert(closed_set@[sidx(pre_fin, x, y)]);
                let cp = ((x as usize), (y as usize));
                assert(coord(cp) == (x, y));
                lemma_flat_bounds(yl, x, y, xl);
                assert(sidx(pre_fin, x, y) == flat(yl, x, y));
                assert(closed_set@[flat(yl, x, y)]);
                assert(fidx(yl, cp) == flat(yl, x, y));
                if (x, y) != coord(sq_start) {
                    assert(came_from@[flat(yl, x, y)].is_some());
                    assert(cell_at(m0, x, y) != SquareType::Wall);
                }
                lemma_cf_reachable(
                    m0,
                    xl,
                    yl,
                    came_from@,
                    closed_set@,
                    depth,
                    coord(sq_start),
                    coord(sq_obj),
                    cp,
                );
                lemma_reachable_same_cells(m0, rc, coord(sq_start), (x, y));
            }
            if open_set@.len() == 0 {
                assert(closed_set@[fidx(yl, sq_start)]) by {
                    if seq_has_coord(open_set@, sq_start.0 as int, sq_start.1 as int) {
                        let kz = choose|kz: int|
                            0 <= kz < open_set@.len() && (#[trigger] open_set@[kz]).0
                                == sq_start.0 as int && open_set@[kz].1 == sq_start.1 as int;
                        assert(false);
                    }
                }
                assert forall|x: int, y: int, nx: int, ny: int|
                    0 <= x < xl && 0 <= y < yl && #[trigger] closed_set@[flat(yl, x, y)] && 0 <= nx
                        < xl && 0 <= ny < yl && adjacent((x, y), (nx, ny)) && #[trigger] cell_at(
                        m0,
                        nx,
                        ny,
                    ) != SquareType::Wall implies closed_set@[flat(yl, nx, ny)] || seq_has_coord(
                    Seq::<(usize, usize)>::empty(),
                    nx,
                    ny,
                ) by {
                    assert(closed_set@[flat(yl, nx, ny)] || seq_has_coord(open_set@, nx, ny));
                    if seq_has_coord(open_set@, nx, ny) {
                        let kz = choose|kz: int|
                            0 <= kz < open_set@.len() && (#[trigger] open_set@[kz]).0 == nx
                                && open_set@[kz].1 == ny;
                        assert(false);
                    }
                }
                assert(frontier_closed(xl, yl, m0, closed_set@, Seq::<(usize, usize)>::empty()));
            }
            if reachable(rc, s, o) && s != o {
                lemma_reachable_same_cells(rc, m0, s, o);
                if open_set@.len() == 0 {
                    let pth = choose|p: Seq<(int, int)>| is_open_path(m0, p, s, o);
                    assert(is_open_path(m0, pth, s, o));
                    assert(closed_set@[flat(yl, s.0, s.1)]);
                    lemma_closed_complete(m0, xl, yl, closed_set@, s, pth, o);
                    assert(closed_set@[flat(yl, o.0, o.1)]);
                    assert(fidx(yl, sq_obj) == flat(yl, o.0, o.1));
                    assert(false);
                } else {
                    assert(solution_path_complete(pre_fin, s, o));
                    let pw2 = choose|p: Seq<(usize, usize)>|
                        #[trigger] chain_covers(pre_fin, p, s, o) && is_path_chain(p, s, o);
                    assert(chain_covers(pre_fin, pw2, s, o));
                    assert forall|k: int| 0 <= k < pw2.len() implies in_grid(
                        fin,
                        (#[trigger] pw2[k]).0 as int,
                        pw2[k].1 as int,
                    ) && cell_at(fin, pw2[k].0 as int, pw2[k].1 as int)
                        == SquareType::Solution by {
                        assert(cell_at(pre_fin, pw2[k].0 as int, pw2[k].1 as int)
                            == SquareType::Solution);
                    }
                    assert forall|x: int, y: int|
                        in_grid(fin, x, y) && #[trigger] cell_at(fin, x, y)
                            == SquareType::Solution implies seq_has_coord(pw2, x, y) by {
                        assert(cell_at(pre_fin, x, y) == SquareType::Solution);
                    }
                    assert(chain_covers(fin, pw2, s, o));
                    assert(solution_path_complete(fin, s, o));
                }
            }
            if roles_ok(old(self)@) && !reachable(rc, s, o) {
                assert(roles_ok(m0));
                assert(open_set@.len() == 0) by {
                    if open_set@.len() > 0 {
                        if coord(sq_obj) == coord(sq_start) {
                            let p1 = seq![s];
                            assert(p1[0] == s && p1[p1.len() - 1] == s);
                            assert(is_open_path(m0, p1, s, s));
                            assert(reachable(m0, s, o));
                        } else {
                            assert(cell_at(m0, sq_obj.0 as int, sq_obj.1 as int)
                                != SquareType::Wall);
                            lemma_cf_reachable(
                                m0,
                                xl,
                                yl,
                                came_from@,
                                closed_set@,
                                depth,
                                coord(sq_start),
                                coord(sq_obj),
                                sq_obj,
                            );
                        }
                        lemma_reachable_same_cells(m0, rc, s, o);
                        assert(false);
                    }
                }
                assert forall|x: int, y: int|
                    in_grid(fin, x, y) && (x, y) != s && reachable(rc, s, (x, y))
                    implies #[trigger] cell_at(fin, x, y) == SquareType::Visited by {
                    lemma_reachable_same_cells(rc, m0, s, (x, y));
                    let pth = choose|p: Seq<(int, int)>| is_open_path(m0, p, s, (x, y));
                    assert(is_open_path(m0, pth, s, (x, y)));
                    assert(closed_set@[flat(yl, s.0, s.1)]);
                    lemma_closed_complete(m0, xl, yl, closed_set@, s, pth, (x, y));
                    assert(closed_set@[flat(yl, x, y)]);
                    assert(cell_at(pre_fin, x, y) == SquareType::Visited);
                    assert(cell_at(fin, x, y) == cell_at(pre_fin, x, y));
                }
                assert forall|x: int, y: int| in_grid(fin, x, y) implies #[trigger] cell_at(
                    fin,
                    x,
                    y,
                ) != SquareType::Solution by {
                    assert(cell_at(pre_fin, x, y) == cell_at(fin, x, y));
                }
            }
        }
    }

    /// Expand one selected non-objective frontier cell: move it from the
    /// open to the closed set, mark it `Visited`, and consider each of its
    /// still-open neighbors.
    #[verifier::rlimit(100)]
    #[verifier::spinoff_prover]
    fn expand_current(
        &mut self,
        open_set: &mut Vec<(usize, usize)>,
        came_from: &mut Vec<Option<(usize, usize)>>,
        path_costs: &mut Vec<usize>,
        scores: &mut Vec<usize>,
        closed_set: &mut Vec<bool>,
        closed_count: &mut usize,
        Ghost(depth_in): Ghost<Map<int, nat>>,
        current: (usize, usize),
        sq_start: (usize, usize),
        sq_obj: (usize, usize),
        weights: bool,
        heuristics: bool,
        Ghost(m0): Ghost<GridView>,
        Ghost(total): Ghost<int>,
        Ghost(xl): Ghost<int>,
        Ghost(yl): Ghost<int>,
    ) -> (new_depth: Ghost<Map<int, nat>>)
        requires
            old(self).inv(),
            total == old(self)@.cells.len(),
            total == m0.cells.len(),
            m0.x_len == old(self)@.x_len,
            m0.y_len == old(self)@.y_len,
            xl == old(self)@.x_len as int,
            yl == old(self)@.y_len as int,
            xl * yl == total,
            old(self)@.start.0 == sq_start.0 && old(self)@.start.1 == sq_start.1,
            old(self)@.objective.0 == sq_obj.0 && old(self)@.objective.1 == sq_obj.1,
            sq_start.0 < old(self)@.x_len && sq_start.1 < old(self)@.y_len,
            sq_obj.0 < old(self)@.x_len && sq_obj.1 < old(self)@.y_len,
            old(closed_set)@.len() == total,
            old(came_from)@.len() == total,
            old(path_costs)@.len() == total,
            old(scores)@.len() == total,
            count_true(old(closed_set)@) == (*old(closed_count)),
            (*old(closed_count)) < total,
            open_ok(xl, yl, old(open_set)@, old(closed_set)@),
            open_has_entries(yl, old(open_set)@, old(came_from)@, coord(sq_start)),
            cf_entries_ok(
                xl,
                yl,
                old(came_from)@,
                old(closed_set)@,
                depth_in,
                coord(sq_start),
                coord(sq_obj),
            ),
            closed_ok(
                xl,
                yl,
                old(closed_set)@,
                old(came_from)@,
                depth_in,
                coord(sq_start),
                (*old(closed_count)) as int,
            ),
            depth_open_ok(yl, old(open_set)@, depth_in, (*old(closed_count)) as int),
            costs_ok(
                xl,
                yl,
                old(open_set)@,
                old(closed_set)@,
                old(path_costs)@,
                depth_in,
                weights,
            ),
            forall|x: int, y: int|
                in_grid(old(self)@, x, y) ==> (#[trigger] cell_at(old(self)@, x, y) == cell_at(
                    m0,
                    x,
                    y,
                ) || cell_at(old(self)@, x, y) == SquareType::Visited),
            forall|x: int, y: int|
                in_grid(old(self)@, x, y) ==> #[trigger] cell_at(old(self)@, x, y)
                    != SquareType::Solution,
            forall|x: int, y: int|
                in_grid(old(self)@, x, y) && #[trigger] cell_at(old(self)@, x, y)
                    == SquareType::Visited ==> old(closed_set)@[sidx(old(self)@, x, y)],
            forall|k: int|
                0 <= k < old(open_set)@.len() ==> (coord(#[trigger] old(open_set)@[k]) == coord(
                    sq_start,
                ) || cell_at(
                    m0,
                    old(open_set)@[k].0 as int,
                    old(open_set)@[k].1 as int,
                ) != SquareType::Wall),
            forall|x: int, y: int|
                0 <= x < xl && 0 <= y < yl && #[trigger] old(closed_set)@[flat(yl, x, y)] ==> ((x,
                y) == coord(sq_start) || cell_at(m0, x, y) != SquareType::Wall),
            forall|x: int, y: int|
                in_grid(old(self)@, x, y) && (x, y) != coord(sq_start) && #[trigger] cell_at(
                    m0,
                    x,
                    y,
                ) == SquareType::Wall ==> cell_at(old(self)@, x, y) == SquareType::Wall,
            cell_at(old(self)@, sq_obj.0 as int, sq_obj.1 as int) == cell_at(
                m0,
                sq_obj.0 as int,
                sq_obj.1 as int,
            ),
            cell_at(m0, sq_start.0 as int, sq_start.1 as int) == SquareType::Start ==> cell_at(
                old(self)@,
                sq_start.0 as int,
                sq_start.1 as int,
            ) == SquareType::Start,
            old(open_set)@.contains(current),
            current.0 < old(self)@.x_len && current.1 < old(self)@.y_len,
            coord(current) != coord(sq_obj),
            !old(closed_set)@[fidx(yl, current)],
            depth_in.contains_key(fidx(yl, current)),
            depth_in[fidx(yl, current)] <= (*old(closed_count)) as int,
            old(path_costs)@[fidx(yl, current)] == (if weights {
                depth_in[fidx(yl, current)] as int
            } else {
                0
            }),
            coord(current) == coord(sq_start) || cell_at(
                m0,
                current.0 as int,
                current.1 as int,
            ) != SquareType::Wall,
            coord(current) == coord(sq_start) || old(came_from)@[fidx(yl, current)].is_some(),
            m0.start.0 == sq_start.0 && m0.start.1 == sq_start.1,
            frontier_closed(xl, yl, m0, old(closed_set)@, old(open_set)@),
            !old(closed_set)@[fidx(yl, sq_obj)],
            old(closed_set)@[fidx(yl, sq_start)] || seq_has_coord(
                old(open_set)@,
                sq_start.0 as int,
                sq_start.1 as int,
            ),
            roles_ok(m0) ==> visited_marked(xl, yl, old(self)@, old(closed_set)@, coord(sq_start)),
        ensures
            final(self).inv(),
            final(self)@ == (GridView { cells: final(self)@.cells, ..old(self)@ }),
            final(closed_set)@.len() == total,
            final(came_from)@.len() == total,
            final(path_costs)@.len() == total,
            final(scores)@.len() == total,
            count_true(final(closed_set)@) == (*final(closed_count)),
            *final(closed_count) == *old(closed_count) + 1,
            open_ok(xl, yl, final(open_set)@, final(closed_set)@),
            open_has_entries(yl, final(open_set)@, final(came_from)@, coord(sq_start)),
            cf_entries_ok(
                xl,
                yl,
                final(came_from)@,
                final(closed_set)@,
                new_depth@,
                coord(sq_start),
                coord(sq_obj),
            ),
            closed_ok(
                xl,
                yl,
                final(closed_set)@,
                final(came_from)@,
                new_depth@,
                coord(sq_start),
                (*final(closed_count)) as int,
            ),
            depth_open_ok(yl, final(open_set)@, new_depth@, (*final(closed_count)) as int),
            costs_ok(
                xl,
                yl,
                final(open_set)@,
                final(closed_set)@,
                final(path_costs)@,
                new_depth@,
                weights,
            ),
            forall|x: int, y: int|
                in_grid(final(self)@, x, y) ==> (#[trigger] cell_at(final(self)@, x, y) == cell_at(
                    m0,
                    x,
                    y,
                ) || cell_at(final(self)@, x, y) == SquareType::Visited),
            forall|x: int, y: int|
                in_grid(final(self)@, x, y) ==> #[trigger] cell_at(final(self)@, x, y)
                    != SquareType::Solution,
            forall|x: int, y: int|
                in_grid(final(self)@, x, y) && #[trigger] cell_at(final(self)@, x, y)
                    == SquareType::Visited ==> final(closed_set)@[sidx(final(self)@, x, y)],
            forall|k: int|
                0 <= k < final(open_set)@.len() ==> (coord(#[trigger] final(open_set)@[k])
                    == coord(sq_start) || cell_at(
                    m0,
                    final(open_set)@[k].0 as int,
                    final(open_set)@[k].1 as int,
                ) != SquareType::Wall),
            forall|x: int, y: int|
                0 <= x < xl && 0 <= y < yl && #[trigger] final(closed_set)@[flat(yl, x, y)] ==> ((
                x,
                y,
            ) == coord(sq_start) || cell_at(m0, x, y) != SquareType::Wall),
            forall|x: int, y: int|
                in_grid(final(self)@, x, y) && (x, y) != coord(sq_start) && #[trigger] cell_at(
                    m0,
                    x,
                    y,
                ) == SquareType::Wall ==> cell_at(final(self)@, x, y) == SquareType::Wall,
            cell_at(final(self)@, sq_obj.0 as int, sq_obj.1 as int) == cell_at(
                m0,
                sq_obj.0 as int,
                sq_obj.1 as int,
            ),
            cell_at(m0, sq_start.0 as int, sq_start.1 as int) == SquareType::Start ==> cell_at(
                final(self)@,
                sq_start.0 as int,
                sq_start.1 as int,
            ) == SquareType::Start,
            frontier_closed(xl, yl, m0, final(closed_set)@, final(open_set)@),
            !final(closed_set)@[fidx(yl, sq_obj)],
            final(closed_set)@[fidx(yl, sq_start)] || seq_has_coord(
                final(open_set)@,
                sq_start.0 as int,
                sq_start.1 as int,
            ),
            roles_ok(m0) ==> visited_marked(
                xl,
                yl,
                final(self)@,
                final(closed_set)@,
                coord(sq_start),
            ),
    {
        let ghost mut depth = depth_in;
        let mut closed_count_l = *closed_count;
        let k_open = find_in_open(open_set, current);
        let ghost pre_open = open_set@;
        proof {
            lemma_flat_bounds(yl, current.0 as int, current.1 as int, xl);
            lemma_count_true_update(closed_set@, fidx(yl, current));
        }
        let i_cur = self.flat_index(current.0, current.1);
        let ghost old_closed = closed_set@;
        proof {
            assert(closed_set.len() == closed_set@.len());
        }
        closed_set.set(i_cur, true);
        closed_count_l = closed_count_l + 1;
        let n_o = open_set.len();
        let last = open_set[n_o - 1];
        open_set.set(k_open, last);
        open_set.pop();
        proof {
            assert(i_cur as int == fidx(yl, current));
            assert(open_set@ == pre_open.update(k_open as int, last).drop_last());
            assert(closed_set@ == old_closed.update(fidx(yl, current), true));
            lemma_close_step(
                xl,
                yl,
                pre_open,
                open_set@,
                k_open as int,
                old_closed,
                closed_set@,
                came_from@,
                path_costs@,
                depth,
                closed_count_l as int,
                current,
                sq_start,
                sq_obj,
                m0,
                weights,
            );
            assert(!closed_set@[fidx(yl, sq_obj)]) by {
                lemma_flat_bounds(yl, sq_obj.0 as int, sq_obj.1 as int, xl);
                if fidx(yl, sq_obj) == fidx(yl, current) {
                    lemma_flat_injective(
                        yl,
                        sq_obj.0 as int,
                        sq_obj.1 as int,
                        current.0 as int,
                        current.1 as int,
                    );
                }
            }
            lemma_open_remove_keeps(pre_open, open_set@, k_open as int, current);
            lemma_frontier_close_step(
                xl,
                yl,
                m0,
                old_closed,
                closed_set@,
                pre_open,
                open_set@,
                current,
            );
            assert(closed_set@[fidx(yl, sq_start)] || seq_has_coord(
                open_set@,
                sq_start.0 as int,
                sq_start.1 as int,
            )) by {
                lemma_flat_bounds(yl, sq_start.0 as int, sq_start.1 as int, xl);
                if coord(current) == coord(sq_start) {
                    assert(closed_set@[fidx(yl, current)]);
                } else if !old_closed[fidx(yl, sq_start)] {
                    assert(seq_has_coord(pre_open, sq_start.0 as int, sq_start.1 as int));
                    assert((sq_start.0 as int, sq_start.1 as int) != coord(current));
                }
            }
        }
        let ghost pre_mark = self@;
        self.mark_cell_type(current.0, current.1, SquareType::Visited);
        proof {
            assert(m0.cells.len() == xl * yl);
            assert(pre_mark.cells.len() == xl * yl);
            assert(closed_set@[fidx(yl, current)]);
            assert forall|x: int, y: int|
                in_grid(pre_mark, x, y) && #[trigger] cell_at(pre_mark, x, y)
                    == SquareType::Visited implies closed_set@[sidx(pre_mark, x, y)] by {
                lemma_sidx_bounds(pre_mark, x, y);
                assert(old(closed_set)@[sidx(pre_mark, x, y)]);
                if sidx(pre_mark, x, y) != fidx(yl, current) {
                    assert(closed_set@[sidx(pre_mark, x, y)] == old_closed[sidx(pre_mark, x, y)]);
                }
            }
            lemma_mark_step(
                pre_mark,
                self@,
                m0,
                closed_set@,
                current,
                sq_start,
                sq_obj,
                xl,
                yl,
            );
            if roles_ok(m0) {
                lemma_visited_closed_step(
                    pre_mark,
                    self@,
                    m0,
                    old_closed,
                    closed_set@,
                    current,
                    sq_start,
                    xl,
                    yl,
                );
            }
        }
        let neighbor_list = self.neighbors(current, closed_set);
        proof {
            lemma_neighbors_covered(
                self@,
                m0,
                closed_set@,
                neighbor_list@,
                current,
                xl,
                yl,
            );
        }
        for j in 0..neighbor_list.len()
            invariant
                self.inv(),
                xl == self@.x_len as int,
                yl == self@.y_len as int,
                xl * yl == total,
                total == self@.cells.len(),
                closed_set@.len() == total,
                self@.start.0 == sq_start.0 && self@.start.1 == sq_start.1,
                self@.objective.0 == sq_obj.0 && self@.objective.1 == sq_obj.1,
                sq_start.0 < self@.x_len && sq_start.1 < self@.y_len,
                sq_obj.0 < self@.x_len && sq_obj.1 < self@.y_len,
                current.0 < self@.x_len && current.1 < self@.y_len,
                coord(current) != coord(sq_obj),
                closed_set@[fidx(yl, current)],
                0 < closed_count_l <= total,
                forall|t: int|
                    0 <= t < neighbor_list@.len() ==> neighbor_ok(
                        self@,
                        closed_set@,
                        #[trigger] neighbor_list@[t],
                        current,
                    ),
                forall|x: int, y: int|
                    in_grid(self@, x, y) ==> (#[trigger] cell_at(self@, x, y) == cell_at(m0, x, y)
                        || cell_at(self@, x, y) == SquareType::Visited),
                forall|x: int, y: int|
                    in_grid(self@, x, y) && #[trigger] cell_at(self@, x, y)
                        == SquareType::Visited ==> closed_set@[sidx(self@, x, y)],
                open_ok(xl, yl, open_set@, closed_set@),
                open_has_entries(yl, open_set@, came_from@, coord(sq_start)),
                cf_entries_ok(
                    xl,
                    yl,
                    came_from@,
                    closed_set@,
                    depth,
                    coord(sq_start),
                    coord(sq_obj),
                ),
                closed_ok(
                    xl,
                    yl,
                    closed_set@,
                    came_from@,
                    depth,
                    coord(sq_start),
                    closed_count_l as int,
                ),
                depth_open_ok(yl, open_set@, depth, closed_count_l as int),
                costs_ok(xl, yl, open_set@, closed_set@, path_costs@, depth, weights),
                came_from@.len() == total,
                path_costs@.len() == total,
                scores@.len() == total,
                forall|k: int|
                    0 <= k < open_set@.len() ==> (coord(#[trigger] open_set@[k]) == coord(
                        sq_start,
                    ) || cell_at(m0, open_set@[k].0 as int, open_set@[k].1 as int)
                        != SquareType::Wall),
                !closed_set@[fidx(yl, sq_obj)],
                closed_set@[fidx(yl, sq_start)] || seq_has_coord(
                    open_set@,
                    sq_start.0 as int,
                    sq_start.1 as int,
                ),
                roles_ok(m0) ==> visited_marked(xl, yl, self@, closed_set@, coord(sq_start)),
                frontier_closed_except(xl, yl, m0, closed_set@, open_set@, current),
                neighbors_covered(xl, yl, m0, closed_set@, neighbor_list@, current),
                forall|t: int|
                    0 <= t < j ==> seq_has_coord(
                        open_set@,
                        (#[trigger] neighbor_list@[t]).0 as int,
                        neighbor_list@[t].1 as int,
                    ),
        {
            let n = neighbor_list[j];
            let ghost pre_exp_open = open_set@;
            let new_depth = self.process_neighbor(
                open_set,
                came_from,
                path_costs,
                scores,
                closed_set,
                Ghost(depth),
                Ghost(closed_count_l as int),
                n,
                current,
                weights,
                heuristics,
            );
            proof {
                depth = new_depth@;
                assert forall|k: int|
                    0 <= k < open_set@.len() implies (coord(#[trigger] open_set@[k]) == coord(
                    sq_start,
                ) || cell_at(m0, open_set@[k].0 as int, open_set@[k].1 as int)
                    != SquareType::Wall) by {
                    if k < pre_exp_open.len() {
                        assert(open_set@[k] == pre_exp_open[k]);
                    } else {
                        assert(open_set@[k] == n);
                        assert(neighbor_ok(self@, closed_set@, n, current));
                        assert(cell_at(self@, n.0 as int, n.1 as int) != SquareType::Wall);
                        assert(cell_at(self@, n.0 as int, n.1 as int)
                            != SquareType::Visited) by {
                            lemma_sidx_bounds(self@, n.0 as int, n.1 as int);
                        }
                        assert(cell_at(m0, n.0 as int, n.1 as int) == cell_at(
                            self@,
                            n.0 as int,
                            n.1 as int,
                        ));
                    }
                }
                assert(open_set@ == pre_exp_open || open_set@ == pre_exp_open.push(n));
                assert forall|nx: int, ny: int|
                    #[trigger] seq_has_coord(pre_exp_open, nx, ny) implies seq_has_coord(
                    open_set@,
                    nx,
                    ny,
                ) by {
                    if open_set@ == pre_exp_open {
                    } else {
                        lemma_seq_has_coord_push(pre_exp_open, n, nx, ny);
                    }
                }
                assert(seq_has_coord(open_set@, n.0 as int, n.1 as int)) by {
                    let kk = choose|kk: int| 0 <= kk < open_set@.len() && open_set@[kk] == n;
                    assert((#[trigger] open_set@[kk]).0 == n.0);
                }
                assert forall|t: int| 0 <= t < j + 1 implies seq_has_coord(
                    open_set@,
                    (#[trigger] neighbor_list@[t]).0 as int,
                    neighbor_list@[t].1 as int,
                ) by {
                    if t < j {
                        assert(seq_has_coord(
                            pre_exp_open,
                            neighbor_list@[t].0 as int,
                            neighbor_list@[t].1 as int,
                        ));
                    } else {
                        assert(neighbor_list@[t] == n);
                    }
                }
                lemma_frontier_except_grow(
                    xl,
                    yl,
                    m0,
                    closed_set@,
                    pre_exp_open,
                    open_set@,
                    current,
                );
                assert(closed_set@[fidx(yl, sq_start)] || seq_has_coord(
                    open_set@,
                    sq_start.0 as int,
                    sq_start.1 as int,
                ));
            }
        }
        proof {
            lemma_frontier_assemble(
                xl,
                yl,
                m0,
                closed_set@,
                open_set@,
                neighbor_list@,
                current,
            );
        }
        *closed_count = closed_count_l;
        Ghost(depth)
    }

    /// Walk the predecessor chain back from the objective and mark every
    /// intermediate cell `Solution`.  The ghost result is the chain of
    /// marked cells, ordered from the objective's side back toward the
    /// start; walking `objective, chain..., start` only ever steps between
    /// 4-adjacent cells.
    fn mark_solution(
        &mut self,
        came_from: &Vec<Option<(usize, usize)>>,
        objective: (usize, usize),
        start: (usize, usize),
        Ghost(depth): Ghost<Map<int, nat>>,
        Ghost(closed_g): Ghost<Seq<bool>>,
    ) -> (chain: Ghost<Seq<(usize, usize)>>)
        requires
            old(self).inv(),
            objective.0 < old(self)@.x_len,
            objective.1 < old(self)@.y_len,
            start.0 < old(self)@.x_len,
            start.1 < old(self)@.y_len,
            coord(objective) != coord(start),
            came_from@.len() == old(self)@.cells.len(),
            came_from@[cidx(old(self)@, objective)].is_some(),
            cf_entries_ok(
                old(self)@.x_len as int,
                old(self)@.y_len as int,
                came_from@,
                closed_g,
                depth,
                coord(start),
                coord(objective),
            ),
        ensures
            final(self).inv(),
            final(self)@ == (GridView { cells: final(self)@.cells, ..old(self)@ }),
            final(self)@.cells.len() == old(self)@.cells.len(),
            forall|x: int, y: int|
                in_grid(final(self)@, x, y) ==> #[trigger] cell_at(final(self)@, x, y) == (
                if seq_has_coord(chain@, x, y) {
                    SquareType::Solution
                } else {
                    cell_at(old(self)@, x, y)
                }),
            forall|k: int|
                0 <= k < chain@.len() ==> (#[trigger] chain@[k]).0 < old(self)@.x_len
                    && chain@[k].1 < old(self)@.y_len && coord(chain@[k]) != coord(start) && coord(
                    chain@[k],
                ) != coord(objective) && closed_g[cidx(old(self)@, chain@[k])],
            chain@.no_duplicates(),
            is_path_chain(chain@, coord(start), coord(objective)),
    {
        let i_obj = self.flat_index(objective.0, objective.1);
        let entry0: Option<(usize, usize)> = came_from[i_obj];
        let mut current: (usize, usize) = match entry0 {
            Option::Some(p) => p,
            Option::None => unreached(),
        };
        let ghost mut chain_g: Seq<(usize, usize)> = Seq::empty();
        proof {
            assert(came_from@[sidx(old(self)@, objective.0 as int, objective.1 as int)].is_some());
            assert(adjacent(coord(objective), coord(current)));
        }
        while !(current.0 == start.0 && current.1 == start.1)
            invariant
                self.inv(),
                self@ == (GridView { cells: self@.cells, ..old(self)@ }),
                self@.cells.len() == old(self)@.cells.len(),
                objective.0 < old(self)@.x_len,
                objective.1 < old(self)@.y_len,
                start.0 < old(self)@.x_len,
                start.1 < old(self)@.y_len,
                coord(objective) != coord(start),
                came_from@.len() == old(self)@.cells.len(),
                cf_entries_ok(
                    old(self)@.x_len as int,
                    old(self)@.y_len as int,
                    came_from@,
                    closed_g,
                    depth,
                    coord(start),
                    coord(objective),
                ),
                current.0 < old(self)@.x_len,
                current.1 < old(self)@.y_len,
                coord(current) != coord(objective),
                coord(current) == coord(start) || came_from@[cidx(old(self)@, current)].is_some(),
                coord(current) == coord(start) || closed_g[cidx(old(self)@, current)],
                depth.contains_key(cidx(old(self)@, objective)),
                depth.contains_key(cidx(old(self)@, current)),
                depth[cidx(old(self)@, current)] + chain_g.len() + 1 == depth[cidx(
                    old(self)@,
                    objective,
                )],
                forall|k: int|
                    0 <= k < chain_g.len() ==> depth.contains_key(
                        cidx(old(self)@, #[trigger] chain_g[k]),
                    ) && depth[cidx(old(self)@, chain_g[k])] + k + 1 == depth[cidx(
                        old(self)@,
                        objective,
                    )],
                chain_linked_to(chain_g, coord(objective), coord(current)),
                forall|k: int|
                    0 <= k < chain_g.len() ==> (#[trigger] chain_g[k]).0 < old(self)@.x_len
                        && chain_g[k].1 < old(self)@.y_len && coord(chain_g[k]) != coord(start)
                        && coord(chain_g[k]) != coord(objective) && closed_g[cidx(
                        old(self)@,
                        chain_g[k],
                    )],
                forall|x: int, y: int|
                    in_grid(self@, x, y) ==> #[trigger] cell_at(self@, x, y) == (
                    if seq_has_coord(chain_g, x, y) {
                        SquareType::Solution
                    } else {
                        cell_at(old(self)@, x, y)
                    }),
            decreases depth[cidx(old(self)@, current)],
        {
            let ghost pre = self@;
            let ghost old_chain = chain_g;
            self.mark_cell_type(current.0, current.1, SquareType::Solution);
            proof {
                chain_g = chain_g.push(current);
            }
            let i_cur = self.flat_index(current.0, current.1);
            let entry: Option<(usize, usize)> = came_from[i_cur];
            let ghost prev = current;
            let next: (usize, usize) = match entry {
                Option::Some(p) => p,
                Option::None => unreached(),
            };
            current = next;
            proof {
                assert(came_from@[sidx(old(self)@, prev.0 as int, prev.1 as int)].is_some());
                assert(came_from@[sidx(old(self)@, prev.0 as int, prev.1 as int)].unwrap()
                    == next);
                assert(adjacent(coord(prev), coord(next)));
                assert(chain_g[chain_g.len() - 1] == prev);
                assert forall|k: int| 0 <= k < chain_g.len() implies depth.contains_key(
                    cidx(old(self)@, #[trigger] chain_g[k]),
                ) && depth[cidx(old(self)@, chain_g[k])] + k + 1 == depth[cidx(
                    old(self)@,
                    objective,
                )] by {
                    if k < chain_g.len() - 1 {
                        assert(chain_g[k] == old_chain[k]);
                    } else {
                        assert(chain_g[k] == prev);
                    }
                }
                assert forall|k: int| 0 <= k < chain_g.len() - 1 implies adjacent(
                    coord(#[trigger] chain_g[k]),
                    coord(chain_g[k + 1]),
                ) by {
                    if old_chain.len() > 0 && k == old_chain.len() - 1 {
                        assert(chain_g[k] == old_chain[old_chain.len() - 1]);
                        assert(chain_g[k + 1] == prev);
                        assert(adjacent(coord(old_chain[old_chain.len() - 1]), coord(prev)));
                    }
                }
                assert(chain_linked_to(chain_g, coord(objective), coord(current)));
                assert forall|x: int, y: int| in_grid(self@, x, y) implies #[trigger] cell_at(
                    self@,
                    x,
                    y,
                ) == (if seq_has_coord(chain_g, x, y) {
                    SquareType::Solution
                } else {
                    cell_at(old(self)@, x, y)
                }) by {
                    lemma_sidx_bounds(self@, x, y);
                    lemma_sidx_bounds(pre, prev.0 as int, prev.1 as int);
                    if x == prev.0 as int && y == prev.1 as int {
                        assert(chain_g[chain_g.len() - 1] == prev);
                        assert(seq_has_coord(chain_g, x, y));
                        assert(cell_at(self@, x, y) == SquareType::Solution);
                    } else {
                        if sidx(self@, x, y) == sidx(self@, prev.0 as int, prev.1 as int) {
                            lemma_sidx_injective(self@, x, y, prev.0 as int, prev.1 as int);
                        }
                        assert(cell_at(self@, x, y) == cell_at(pre, x, y));
                        if seq_has_coord(chain_g, x, y) {
                            let k = choose|k: int|
                                0 <= k < chain_g.len() && (#[trigger] chain_g[k]).0 == x
                                    && chain_g[k].1 == y;
                            assert(k < chain_g.len() - 1);
                            assert(old_chain[k] == chain_g[k]);
                            assert(seq_has_coord(old_chain, x, y));
                        }
                        if seq_has_coord(old_chain, x, y) {
                            let k = choose|k: int|
                                0 <= k < old_chain.len() && (#[trigger] old_chain[k]).0 == x
                                    && old_chain[k].1 == y;
                            assert(chain_g[k] == old_chain[k]);
                            assert(seq_has_coord(chain_g, x, y));
                        }
                    }
                }
            }
        }
        proof {
            assert(coord(current) == coord(start));
            assert(is_path_chain(chain_g, coord(start), coord(objective)));
            assert forall|k1: int, k2: int|
                0 <= k1 < chain_g.len() && 0 <= k2 < chain_g.len() && k1 != k2
                implies chain_g[k1] != chain_g[k2] by {
                assert(depth[cidx(old(self)@, chain_g[k1])] + k1 + 1 == depth[cidx(
                    old(self)@,
                    objective,
                )]);
                assert(depth[cidx(old(self)@, chain_g[k2])] + k2 + 1 == depth[cidx(
                    old(self)@,
                    objective,
                )]);
            }
            assert(chain_g.no_duplicates());
        }
        Ghost(chain_g)
    }

    /// Overwrite every cell's role with the snapshot under the history
    /// cursor.
    fn load_state(&mut self)
        requires
            old(self).inv(),
            old(self)@.states.len() > 0,
        ensures
            final(self).inv(),
            final(self)@ == (GridView {
                cells: old(self)@.states[old(self)@.current_state as int],
                ..old(self)@
            }),
    {
        let total = self.squares.len();
        let cur = self.current_state;
        for i in 0..total
            invariant
                self.inv(),
                total == self@.cells.len(),
                cur == self@.current_state,
                self@.states.len() > 0,
                self@ == (GridView { cells: self@.cells, ..old(self)@ }),
                forall|j: int|
                    0 <= j < i ==> #[trigger] self@.cells[j] == old(self)@.states[cur as int][j],
                forall|j: int|
                    i <= j < self@.cells.len() ==> #[trigger] self@.cells[j] == old(self)@.cells[j],
        {
            proof {
                assert(cur < self.states@.len());
                assert(self.states@[cur as int]@ == self@.states[cur as int]);
                assert(self@.states[cur as int].len() == self@.x_len * self@.y_len);
            }
            let t = self.states[cur][i];
            self.write_cell_type_at(i, t);
        }
        proof {
            assert(self@.cells =~= old(self)@.states[old(self)@.current_state as int]);
            assert(self@ =~= (GridView {
                cells: old(self)@.states[old(self)@.current_state as int],
                ..old(self)@
            }));
        }
    }
}

/// A vector of `n` copies of one value.
fn filled_vec<T: Copy>(n: usize, value: T) -> (v: Vec<T>)
    ensures
        v@.len() == n,
        forall|i: int| 0 <= i < n ==> #[trigger] v@[i] == value,
{
    let mut v: Vec<T> = Vec::new();
    for k in 0..n
        invariant
            v@.len() == k,
            forall|i: int| 0 <= i < k ==> #[trigger] v@[i] == value,
    {
        v.push(value);
    }
    v
}

/// Whether the open list holds a coordinate pair.
fn open_contains(open_set: &Vec<(usize, usize)>, c: (usize, usize)) -> (b: bool)
    ensures
        b == open_set@.contains(c),
{
    let n = open_set.len();
    for k in 0..n
        invariant
            n == open_set@.len(),
            forall|j: int| 0 <= j < k ==> #[trigger] open_set@[j] != c,
    {
        let e = open_set[k];
        if e.0 == c.0 && e.1 == c.1 {
            proof {
                assert(open_set@[k as int] == c);
            }
            return true;
        }
    }
    proof {
        assert(!open_set@.contains(c));
    }
    false
}

/// The position of a coordinate pair in the open list.
fn find_in_open(open_set: &Vec<(usize, usize)>, c: (usize, usize)) -> (k: usize)
    requires
        open_set@.contains(c),
    ensures
        k < open_set@.len(),
        open_set@[k as int] == c,
{
    let n = open_set.len();
    for k in 0..n
        invariant
            n == open_set@.len(),
            open_set@.contains(c),
            forall|j: int| 0 <= j < k ==> #[trigger] open_set@[j] != c,
    {
        let e = open_set[k];
        if e.0 == c.0 && e.1 == c.1 {
            proof {
                assert(open_set@[k as int] == c);
            }
            return k;
        }
    }
    proof {
        let j = choose|j: int| 0 <= j < open_set@.len() && open_set@[j] == c;
        assert(false);
    }
    0
}

/// Whether two grid coordinates are 4-adjacent: exactly one step apart
/// along exactly one axis.
pub open spec fn adjacent(a: (int, int), b: (int, int)) -> bool {
    ||| a.0 == b.0 && (a.1 == b.1 + 1 || a.1 + 1 == b.1)
    ||| a.1 == b.1 && (a.0 == b.0 + 1 || a.0 + 1 == b.0)
}

/// An exec coordinate pair as a pair of mathematical integers.
pub open spec fn coord(c: (usize, usize)) -> (int, int) {
    (c.0 as int, c.1 as int)
}

/// The flat index of an exec coordinate pair.
pub open spec fn cidx(m: GridView, c: (usize, usize)) -> int {
    sidx(m, c.0 as int, c.1 as int)
}

/// The flat index of an exec coordinate pair in a grid with `y_len` rows.
pub open spec fn fidx(y_len: int, c: (usize, usize)) -> int {
    flat(y_len, c.0 as int, c.1 as int)
}

/// The designated start, as a coordinate pair of integers.
pub open spec fn start_coord(m: GridView) -> (int, int) {
    (m.start.0 as int, m.start.1 as int)
}

/// The designated objective, as a coordinate pair of integers.
pub open spec fn objective_coord(m: GridView) -> (int, int) {
    (m.objective.0 as int, m.objective.1 as int)
}

/// The Manhattan distance between two coordinates: the sum of the absolute
/// coordinate differences.  The search's heuristic measures distance to the
/// objective this way.
pub open spec fn manhattan(a: (int, int), b: (int, int)) -> int {
    (if a.0 >= b.0 {
        a.0 - b.0
    } else {
        b.0 - a.0
    }) + (if a.1 >= b.1 {
        a.1 - b.1
    } else {
        b.1 - a.1
    })
}

/// Whether the walk `objective, p[0], p[1], ..., p[last], tail` steps only
/// between 4-adjacent cells.
pub open spec fn chain_linked_to(p: Seq<(usize, usize)>, objective: (int, int), tail: (int, int)) -> bool {
    if p.len() == 0 {
        adjacent(objective, tail)
    } else {
        &&& adjacent(objective, coord(p[0]))
        &&& forall|k: int| 0 <= k < p.len() - 1 ==> adjacent(coord(#[trigger] p[k]), coord(p[k + 1]))
        &&& adjacent(coord(p[p.len() - 1]), tail)
    }
}

/// A contiguous reconstructed path: successive cells of the walk from the
/// objective through `p` back to the start are 4-adjacent.
pub open spec fn is_path_chain(p: Seq<(usize, usize)>, start: (int, int), objective: (int, int)) -> bool {
    chain_linked_to(p, objective, start)
}

/// Any 4-adjacent walk takes at least as many steps as the Manhattan
/// distance between its two ends: each step moves one unit along one axis.
proof fn lemma_walk_at_least_manhattan(p: Seq<(usize, usize)>, a: (int, int), b: (int, int))
    requires
        chain_linked_to(p, a, b),
    ensures
        p.len() + 1 >= manhattan(a, b),
    decreases p.len(),
{
    if p.len() == 0 {
        assert(adjacent(a, b));
    } else {
        let q = p.subrange(1, p.len() as int);
        assert(adjacent(a, coord(p[0])));
        assert(chain_linked_to(q, coord(p[0]), b)) by {
            if q.len() > 0 {
                assert(q[0] == p[1]);
                assert(adjacent(coord(p[0]), coord(p[1])));
                assert forall|k: int| 0 <= k < q.len() - 1 implies adjacent(
                    coord(#[trigger] q[k]),
                    coord(q[k + 1]),
                ) by {
                    assert(q[k] == p[k + 1] && q[k + 1] == p[k + 2]);
                }
                assert(q[q.len() - 1] == p[p.len() - 1]);
            } else {
                assert(p.len() == 1);
                assert(adjacent(coord(p[0]), b));
            }
        }
        lemma_walk_at_least_manhattan(q, coord(p[0]), b);
        assert(manhattan(a, b) <= manhattan(coord(p[0]), b) + 1);
    }
}

/// A reconstructed chain cannot beat the Manhattan distance: the walk
/// `objective, chain..., start` takes `chain.len() + 1` steps, and no
/// 4-adjacent walk between the endpoints takes fewer than their Manhattan
/// distance.  On an open grid the interior of a shortest path therefore
/// holds at least `manhattan(start, objective) - 1` cells.
pub proof fn lemma_path_chain_at_least_manhattan(
    p: Seq<(usize, usize)>,
    start: (int, int),
    objective: (int, int),
)
    requires
        is_path_chain(p, start, objective),
    ensures
        p.len() + 1 >= manhattan(start, objective),
{
    lemma_walk_at_least_manhattan(p, objective, start);
}

/// Whether some element of `p` is the coordinate pair `(x, y)`.
pub open spec fn seq_has_coord(p: Seq<(usize, usize)>, x: int, y: int) -> bool {
    exists|k: int| 0 <= k < p.len() && (#[trigger] p[k]).0 == x && p[k].1 == y
}

/// `p` lists exactly the `Solution` cells of the grid, each of them once,
/// and walking from the objective through `p` to the start only ever steps
/// between 4-adjacent cells.
pub open spec fn chain_covers(m: GridView, p: Seq<(usize, usize)>, start: (int, int), objective: (int, int)) -> bool {
    &&& forall|k: int|
        0 <= k < p.len() ==> in_grid(m, (#[trigger] p[k]).0 as int, p[k].1 as int) && cell_at(
            m,
            p[k].0 as int,
            p[k].1 as int,
        ) == SquareType::Solution
    &&& forall|x: int, y: int|
        in_grid(m, x, y) && #[trigger] cell_at(m, x, y) == SquareType::Solution ==> seq_has_coord(
            p,
            x,
            y,
        )
    &&& p.no_duplicates()
    &&& p.len() > 0 ==> is_path_chain(p, start, objective)
}

/// The `Solution` cells of the grid form one contiguous reconstructed path
/// between the two endpoints (or there are none at all).
pub open spec fn solution_chain_ok(m: GridView, start: (int, int), objective: (int, int)) -> bool {
    exists|p: Seq<(usize, usize)>| #[trigger] chain_covers(m, p, start, objective)
}

/// The `Solution` cells are exactly the interior of one full reconstructed
/// path: a duplicate-free chain whose walk `objective, chain..., start`
/// steps only between 4-adjacent cells — including, when the chain is
/// empty, that the two endpoints are themselves 4-adjacent.
pub open spec fn solution_path_complete(m: GridView, start: (int, int), objective: (int, int)) -> bool {
    exists|p: Seq<(usize, usize)>|
        #[trigger] chain_covers(m, p, start, objective) && is_path_chain(p, start, objective)
}

/// A walk across the grid: it begins at `start`, ends at `c`, stays in
/// bounds, steps only between 4-adjacent cells, and after its first cell
/// never enters a `Wall`.
pub open spec fn is_open_path(m: GridView, p: Seq<(int, int)>, start: (int, int), c: (int, int)) -> bool {
    &&& p.len() >= 1
    &&& p[0] == start
    &&& p[p.len() - 1] == c
    &&& forall|k: int| 0 <= k < p.len() ==> in_grid(m, (#[trigger] p[k]).0, p[k].1)
    &&& forall|k: int| 0 <= k < p.len() - 1 ==> adjacent(#[trigger] p[k], p[k + 1])
    &&& forall|k: int|
        1 <= k < p.len() ==> cell_at(m, (#[trigger] p[k]).0, p[k].1) != SquareType::Wall
}

/// Whether some 4-adjacent walk that avoids `Wall` cells joins `start` to
/// `c`.  The walk may leave from `start` whatever that cell holds; every
/// later cell must be open.
pub open spec fn reachable(m: GridView, start: (int, int), c: (int, int)) -> bool {
    exists|p: Seq<(int, int)>| is_open_path(m, p, start, c)
}

/// The search's frontier covers its interior: every in-bounds non-`Wall`
/// cell 4-adjacent to an expanded cell is itself expanded or waiting in the
/// open list.  With an empty open list the expanded region is closed under
/// open adjacency.
pub open spec fn frontier_closed(
    x_len: int,
    y_len: int,
    m0: GridView,
    closed: Seq<bool>,
    open: Seq<(usize, usize)>,
) -> bool {
    forall|x: int, y: int, nx: int, ny: int|
        0 <= x < x_len && 0 <= y < y_len && #[trigger] closed[flat(y_len, x, y)] && 0 <= nx < x_len
            && 0 <= ny < y_len && adjacent((x, y), (nx, ny)) && #[trigger] cell_at(m0, nx, ny)
            != SquareType::Wall ==> closed[flat(y_len, nx, ny)] || seq_has_coord(open, nx, ny)
}

/// [`frontier_closed`] for every expanded cell but the one being expanded
/// right now, whose own neighbors are still being handed to the open list.
spec fn frontier_closed_except(
    x_len: int,
    y_len: int,
    m0: GridView,
    closed: Seq<bool>,
    open: Seq<(usize, usize)>,
    current: (usize, usize),
) -> bool {
    forall|x: int, y: int, nx: int, ny: int|
        0 <= x < x_len && 0 <= y < y_len && #[trigger] closed[flat(y_len, x, y)] && (x, y)
            != coord(current) && 0 <= nx < x_len && 0 <= ny < y_len && adjacent((x, y), (nx, ny))
            && #[trigger] cell_at(m0, nx, ny) != SquareType::Wall ==> closed[flat(y_len, nx, ny)]
            || seq_has_coord(open, nx, ny)
}

/// Every in-bounds, non-`Wall`, still-unexpanded neighbor of the cell being
/// expanded appears in the cover list.
spec fn neighbors_covered(
    x_len: int,
    y_len: int,
    m0: GridView,
    closed: Seq<bool>,
    cover: Seq<(usize, usize)>,
    current: (usize, usize),
) -> bool {
    forall|nx: int, ny: int|
        0 <= nx < x_len && 0 <= ny < y_len && adjacent(coord(current), (nx, ny))
            && #[trigger] cell_at(m0, nx, ny) != SquareType::Wall && !closed[flat(y_len, nx, ny)]
            ==> seq_has_coord(cover, nx, ny)
}

/// Every expanded cell except the start shows the `Visited` marking.
spec fn visited_marked(
    x_len: int,
    y_len: int,
    g: GridView,
    closed: Seq<bool>,
    start: (int, int),
) -> bool {
    forall|x: int, y: int|
        0 <= x < x_len && 0 <= y < y_len && #[trigger] closed[flat(y_len, x, y)] && (x, y) != start
            ==> cell_at(g, x, y) == SquareType::Visited
}

/// The model of the search's reset step: `Visited` and `Solution` markings
/// wiped back to `Blank`, the recorded history emptied, everything else
/// untouched.
pub open spec fn results_cleared(m: GridView) -> GridView {
    GridView {
        cells: Seq::new(
            m.cells.len(),
            |i: int|
                if m.cells[i] == SquareType::Visited || m.cells[i] == SquareType::Solution {
                    SquareType::Blank
                } else {
                    m.cells[i]
                },
        ),
        states: Seq::empty(),
        ..m
    }
}

/// How many entries of a boolean sequence are set.
pub closed spec fn count_true(s: Seq<bool>) -> int
    decreases s.len(),
{
    if s.len() == 0 {
        0
    } else {
        count_true(s.drop_last()) + if s.last() {
            1int
        } else {
            0int
        }
    }
}

proof fn lemma_count_true_bound(s: Seq<bool>)
    ensures
        0 <= count_true(s) <= s.len(),
    decreases s.len(),
{
    if s.len() > 0 {
        lemma_count_true_bound(s.drop_last());
    }
}

proof fn lemma_count_true_update(s: Seq<bool>, i: int)
    requires
        0 <= i < s.len(),
        !s[i],
    ensures
        count_true(s.update(i, true)) == count_true(s) + 1,
        count_true(s) < s.len(),
    decreases s.len(),
{
    if i == s.len() - 1 {
        assert(s.update(i, true).drop_last() =~= s.drop_last());
        lemma_count_true_bound(s.drop_last());
    } else {
        assert(s.update(i, true).drop_last() =~= s.drop_last().update(i, true));
        lemma_count_true_update(s.drop_last(), i);
    }
}

/// Frontier bookkeeping: every open node is in bounds, listed once, and not
/// yet expanded.
pub open spec fn open_ok(x_len: int, y_len: int, open: Seq<(usize, usize)>, closed: Seq<bool>) -> bool {
    &&& forall|k: int|
        0 <= k < open.len() ==> (#[trigger] open[k]).0 < x_len && open[k].1 < y_len
    &&& forall|k1: int, k2: int| 0 <= k1 < k2 < open.len() ==> open[k1] != open[k2]
    &&& forall|k: int| 0 <= k < open.len() ==> !closed[fidx(y_len, #[trigger] open[k])]
}

/// Every open node except the start has a recorded predecessor.
pub open spec fn open_has_entries(
    y_len: int,
    open: Seq<(usize, usize)>,
    came_from: Seq<Option<(usize, usize)>>,
    start: (int, int),
) -> bool {
    forall|k: int|
        0 <= k < open.len() && coord(#[trigger] open[k]) != start ==> came_from[fidx(
            y_len,
            open[k],
        )].is_some()
}

/// Every recorded predecessor entry points from its cell to a 4-adjacent,
/// already expanded cell that is not the objective, itself reachable
/// backward (it is the start or has an entry of its own), and sits exactly
/// one step shallower in the ghost depth map.
pub open spec fn cf_entries_ok(
    x_len: int,
    y_len: int,
    came_from: Seq<Option<(usize, usize)>>,
    closed: Seq<bool>,
    depth: Map<int, nat>,
    start: (int, int),
    objective: (int, int),
) -> bool {
    forall|x: int, y: int|
        0 <= x < x_len && 0 <= y < y_len && (#[trigger] came_from[flat(y_len, x, y)]).is_some()
            ==> {
            let p = came_from[flat(y_len, x, y)].unwrap();
            &&& p.0 < x_len && p.1 < y_len
            &&& adjacent((x, y), coord(p))
            &&& closed[fidx(y_len, p)]
            &&& coord(p) != objective
            &&& (coord(p) == start || came_from[fidx(y_len, p)].is_some())
            &&& depth.contains_key(flat(y_len, x, y))
            &&& depth.contains_key(fidx(y_len, p))
            &&& depth[flat(y_len, x, y)] == depth[fidx(y_len, p)] + 1
        }
}

/// Every expanded cell except the start has a recorded predecessor, and its
/// ghost depth lies strictly below the number of expansions so far.
pub open spec fn closed_ok(
    x_len: int,
    y_len: int,
    closed: Seq<bool>,
    came_from: Seq<Option<(usize, usize)>>,
    depth: Map<int, nat>,
    start: (int, int),
    cc: int,
) -> bool {
    &&& closed.len() == x_len * y_len
    &&& came_from.len() == x_len * y_len
    &&& forall|x: int, y: int|
        0 <= x < x_len && 0 <= y < y_len && #[trigger] closed[flat(y_len, x, y)] && (x, y) != start
            ==> came_from[flat(y_len, x, y)].is_some()
    &&& forall|x: int, y: int|
        0 <= x < x_len && 0 <= y < y_len && #[trigger] closed[flat(y_len, x, y)]
            ==> depth.contains_key(flat(y_len, x, y)) && depth[flat(y_len, x, y)] < cc
}

/// Every open node sits at a ghost depth no deeper than the number of
/// expansions so far.
pub open spec fn depth_open_ok(
    y_len: int,
    open: Seq<(usize, usize)>,
    depth: Map<int, nat>,
    cc: int,
) -> bool {
    forall|k: int|
        0 <= k < open.len() ==> depth.contains_key(fidx(y_len, #[trigger] open[k])) && depth[fidx(
            y_len,
            open[k],
        )] <= cc
}

/// The path costs of discovered nodes: with unit edge weights a node's cost
/// equals its ghost depth, and without them every cost stays zero.
pub open spec fn costs_ok(
    x_len: int,
    y_len: int,
    open: Seq<(usize, usize)>,
    closed: Seq<bool>,
    g: Seq<usize>,
    depth: Map<int, nat>,
    weights: bool,
) -> bool {
    &&& g.len() == x_len * y_len
    &&& forall|x: int, y: int|
        0 <= x < x_len && 0 <= y < y_len && #[trigger] closed[flat(y_len, x, y)] ==> g[flat(
            y_len,
            x,
            y,
        )] == (if weights {
            depth[flat(y_len, x, y)] as int
        } else {
            0
        })
    &&& forall|k: int|
        0 <= k < open.len() ==> g[fidx(y_len, #[trigger] open[k])] == (if weights {
            depth[fidx(y_len, open[k])] as int
        } else {
            0
        })
}

/// The model of [`SquareCollection::load_next_state`]: with no recorded
/// history a no-op; otherwise the cursor advances by one snapshot, wrapping
/// to the first past the last, and the snapshot under the new cursor
/// overwrites every cell's role.
pub open spec fn next_loaded(m: GridView) -> GridView {
    if m.states.len() == 0 {
        m
    } else {
        let c = if m.current_state + 1 == m.states.len() {
            0 as nat
        } else {
            (m.current_state + 1) as nat
        };
        GridView { current_state: c, cells: m.states[c as int], ..m }
    }
}

/// The grid after `k` successive [`SquareCollection::load_next_state`]
/// steps.
pub open spec fn next_loaded_n(m: GridView, k: nat) -> GridView
    decreases k,
{
    if k == 0 {
        m
    } else {
        next_loaded(next_loaded_n(m, (k - 1) as nat))
    }
}

/// After `k` forward steps through a nonempty history the cursor stands
/// `k` snapshots past where it began, wrapped once past the end, and the
/// grid shows the snapshot under it.
proof fn lemma_next_state_steps(m: GridView, k: nat)
    requires
        grid_wf(m),
        m.states.len() > 0,
        1 <= k <= m.states.len(),
    ensures
        next_loaded_n(m, k) == (GridView {
            current_state: (if m.current_state + k < m.states.len() {
                (m.current_state + k) as nat
            } else {
                (m.current_state + k - m.states.len()) as nat
            }),
            cells: m.states[(if m.current_state + k < m.states.len() {
                (m.current_state + k) as int
            } else {
                m.current_state + k - m.states.len()
            })],
            ..m
        }),
    decreases k,
{
    if k == 1 {
        assert(next_loaded_n(m, 1) == next_loaded(next_loaded_n(m, 0)));
        assert(next_loaded_n(m, 0) == m);
    } else {
        lemma_next_state_steps(m, (k - 1) as nat);
        let prev = next_loaded_n(m, (k - 1) as nat);
        assert(next_loaded_n(m, k) == next_loaded(prev));
    }
}

/// Stepping forward through the whole history closes the cycle: with `n`
/// recorded snapshots, `n` successive [`SquareCollection::load_next_state`]
/// steps put the cursor back where it began, and the grid then shows the
/// snapshot under it — the cursor advances by one snapshot per step,
/// wrapping past the last, so `n` steps return to the start of the round.
pub proof fn lemma_next_state_cycle(m: GridView)
    requires
        grid_wf(m),
        m.states.len() > 0,
    ensures
        next_loaded_n(m, m.states.len()) == (GridView {
            cells: m.states[m.current_state as int],
            ..m
        }),
{
    lemma_next_state_steps(m, m.states.len());
}

/// The model of [`SquareCollection::load_previous_state`]: with no recorded
/// history a no-op; otherwise the cursor retreats by one snapshot, wrapping
/// to the last at the first, and the snapshot under the new cursor
/// overwrites every cell's role.
pub open spec fn previous_loaded(m: GridView) -> GridView {
    if m.states.len() == 0 {
        m
    } else {
        let c = if m.current_state == 0 {
            (m.states.len() - 1) as nat
        } else {
            (m.current_state - 1) as nat
        };
        GridView { current_state: c, cells: m.states[c as int], ..m }
    }
}

/// A write that keeps a cell's coordinates keeps the whole vector's
/// coordinates consistent.
pub proof fn lemma_coords_ok_after_write(
    before: Seq<Square>,
    after: Seq<Square>,
    x_len: int,
    y_len: int,
    i: int,
)
    requires
        coords_ok(before, x_len, y_len),
        before.len() == after.len(),
        before.len() == x_len * y_len,
        0 <= i < after.len(),
        after == before.update(i, after[i]),
        after[i].x_grid == before[i].x_grid,
        after[i].y_grid == before[i].y_grid,
    ensures
        coords_ok(after, x_len, y_len),
{
    assert forall|x: int, y: int| 0 <= x < x_len && 0 <= y < y_len implies (
    #[trigger] after[flat(y_len, x, y)]).x_grid == x && after[flat(y_len, x, y)].y_grid
        == y by {
        lemma_flat_bounds(y_len, x, y, x_len);
        assert(before[flat(y_len, x, y)].x_grid == x);
        assert(before[flat(y_len, x, y)].y_grid == y);
        if flat(y_len, x, y) != i {
            assert(after[flat(y_len, x, y)] == before[flat(y_len, x, y)]);
        }
    }
}

/// A coordinate pair below `(x_bound, y_len)` has a flat index below
/// `x_bound * y_len`.
pub proof fn lemma_flat_bounds(y_len: int, x: int, y: int, x_bound: int)
    requires
        0 <= x < x_bound,
        0 <= y < y_len,
    ensures
        0 <= flat(y_len, x, y) < x_bound * y_len,
        x * y_len <= flat(y_len, x, y) < (x + 1) * y_len,
{
    assert(0 <= x * y_len + y < x_bound * y_len && x * y_len + y < (x + 1) * y_len)
        by (nonlinear_arith)
        requires
            0 <= x < x_bound,
            0 <= y < y_len,
    ;
}

/// A well-formed grid has at most `MAX_SCREEN_DIM * MAX_SCREEN_DIM` cells,
/// so a path cost plus a Manhattan distance stays far below `usize::MAX`.
pub proof fn lemma_total_bound(m: GridView)
    requires
        grid_wf(m),
    ensures
        m.cells.len() <= MAX_SCREEN_DIM * MAX_SCREEN_DIM,
{
    assert(m.x_len * m.y_len <= MAX_SCREEN_DIM * MAX_SCREEN_DIM) by (nonlinear_arith)
        requires
            0 <= m.x_len <= MAX_SCREEN_DIM,
            0 <= m.y_len <= MAX_SCREEN_DIM,
    ;
}

/// Distinct coordinate pairs with in-range rows have distinct flat indices.
pub proof fn lemma_flat_injective(y_len: int, x1: int, y1: int, x2: int, y2: int)
    requires
        0 <= y1 < y_len,
        0 <= y2 < y_len,
        flat(y_len, x1, y1) == flat(y_len, x2, y2),
    ensures
        x1 == x2 && y1 == y2,
{
    assert(x1 == x2 && y1 == y2) by (nonlinear_arith)
        requires
            0 <= y1 < y_len,
            0 <= y2 < y_len,
            x1 * y_len + y1 == x2 * y_len + y2,
    ;
}

/// Distinct in-bounds coordinate pairs have distinct flat indices.
pub proof fn lemma_sidx_injective(m: GridView, x1: int, y1: int, x2: int, y2: int)
    requires
        in_grid(m, x1, y1),
        in_grid(m, x2, y2),
        sidx(m, x1, y1) == sidx(m, x2, y2),
    ensures
        x1 == x2 && y1 == y2,
{
    assert(x1 == x2 && y1 == y2) by (nonlinear_arith)
        requires
            0 <= y1 < m.y_len,
            0 <= y2 < m.y_len,
            x1 * m.y_len + y1 == x2 * m.y_len + y2,
    ;
}

/// An in-bounds coordinate pair has an in-bounds flat index.
pub proof fn lemma_sidx_bounds(m: GridView, x: int, y: int)
    requires
        in_grid(m, x, y),
        m.cells.len() == m.x_len * m.y_len,
    ensures
        0 <= sidx(m, x, y) < m.cells.len(),
        x * m.y_len <= sidx(m, x, y) < (x + 1) * m.y_len,
{
    lemma_flat_bounds(m.y_len as int, x, y, m.x_len as int);
}

proof fn lemma_count_true_all_false(s: Seq<bool>)
    requires
        forall|i: int| 0 <= i < s.len() ==> !(#[trigger] s[i]),
    ensures
        count_true(s) == 0,
    decreases s.len(),
{
    if s.len() > 0 {
        lemma_count_true_all_false(s.drop_last());
    }
}

/// Role consistency only reads the cells, the endpoint coordinates and the
/// presence flags: two models that agree on those agree on it.
proof fn lemma_roles_same_cells(a: GridView, b: GridView)
    requires
        b.cells == a.cells,
        b.x_len == a.x_len,
        b.y_len == a.y_len,
        b.start == a.start,
        b.start_set == a.start_set,
        b.objective == a.objective,
        b.objective_set == a.objective_set,
        roles_ok(a),
    ensures
        roles_ok(b),
{
    assert forall|x: int, y: int|
        in_grid(b, x, y) && #[trigger] cell_at(b, x, y) == SquareType::Start implies b.start_set
        && x == b.start.0 && y == b.start.1 by {
        assert(cell_at(a, x, y) == cell_at(b, x, y));
    }
    assert forall|x: int, y: int|
        in_grid(b, x, y) && #[trigger] cell_at(b, x, y) == SquareType::Objective
        implies b.objective_set && x == b.objective.0 && y == b.objective.1 by {
        assert(cell_at(a, x, y) == cell_at(b, x, y));
    }
    if b.start_set {
        assert(cell_at(a, a.start.0 as int, a.start.1 as int) == cell_at(
            b,
            b.start.0 as int,
            b.start.1 as int,
        ));
    }
    if b.objective_set {
        assert(cell_at(a, a.objective.0 as int, a.objective.1 as int) == cell_at(
            b,
            b.objective.0 as int,
            b.objective.1 as int,
        ));
    }
}

/// Wiping `Visited` and `Solution` markings keeps the endpoint roles
/// consistent: no `Start` or `Objective` cell is touched.
proof fn lemma_results_cleared_roles(m: GridView)
    requires
        grid_wf(m),
        roles_ok(m),
    ensures
        roles_ok(results_cleared(m)),
{
    let rc = results_cleared(m);
    assert forall|x: int, y: int| in_grid(rc, x, y) implies #[trigger] cell_at(rc, x, y) == (
    if cell_at(m, x, y) == SquareType::Visited || cell_at(m, x, y) == SquareType::Solution {
        SquareType::Blank
    } else {
        cell_at(m, x, y)
    }) by {
        lemma_sidx_bounds(m, x, y);
    }
    if m.start_set {
        lemma_sidx_bounds(m, m.start.0 as int, m.start.1 as int);
    }
    if m.objective_set {
        lemma_sidx_bounds(m, m.objective.0 as int, m.objective.1 as int);
    }
}

/// Marking the newly expanded cell `Visited` keeps every cell either as the
/// reset grid left it or `Visited`, creates no `Solution` cell, marks only
/// expanded cells, and preserves walls and both endpoint cells.
#[verifier::rlimit(100)]
#[verifier::spinoff_prover]
proof fn lemma_mark_step(
    pre: GridView,
    post: GridView,
    m0: GridView,
    closed: Seq<bool>,
    current: (usize, usize),
    sq_start: (usize, usize),
    sq_obj: (usize, usize),
    xl: int,
    yl: int,
)
    requires
        xl == pre.x_len as int,
        yl == pre.y_len as int,
        m0.x_len == pre.x_len,
        m0.y_len == pre.y_len,
        pre.cells.len() == xl * yl,
        m0.cells.len() == xl * yl,
        post == with_cell(
            pre,
            current.0 as int,
            current.1 as int,
            (if cell_at(pre, current.0 as int, current.1 as int) == SquareType::Start {
                SquareType::Start
            } else {
                SquareType::Visited
            }),
        ),
        current.0 < xl && current.1 < yl,
        sq_start.0 < xl && sq_start.1 < yl,
        sq_obj.0 < xl && sq_obj.1 < yl,
        coord(current) != coord(sq_obj),
        closed[fidx(yl, current)],
        coord(current) == coord(sq_start) || cell_at(m0, current.0 as int, current.1 as int)
            != SquareType::Wall,
        forall|x: int, y: int|
            in_grid(pre, x, y) ==> (#[trigger] cell_at(pre, x, y) == cell_at(m0, x, y) || cell_at(
                pre,
                x,
                y,
            ) == SquareType::Visited),
        forall|x: int, y: int|
            in_grid(pre, x, y) ==> #[trigger] cell_at(pre, x, y) != SquareType::Solution,
        forall|x: int, y: int|
            in_grid(pre, x, y) && #[trigger] cell_at(pre, x, y) == SquareType::Visited
                ==> closed[sidx(pre, x, y)],
        forall|x: int, y: int|
            in_grid(pre, x, y) && (x, y) != coord(sq_start) && #[trigger] cell_at(m0, x, y)
                == SquareType::Wall ==> cell_at(pre, x, y) == SquareType::Wall,
        cell_at(pre, sq_obj.0 as int, sq_obj.1 as int) == cell_at(
            m0,
            sq_obj.0 as int,
            sq_obj.1 as int,
        ),
        cell_at(m0, sq_start.0 as int, sq_start.1 as int) == SquareType::Start ==> cell_at(
            pre,
            sq_start.0 as int,
            sq_start.1 as int,
        ) == SquareType::Start,
    ensures
        forall|x: int, y: int|
            in_grid(post, x, y) ==> (#[trigger] cell_at(post, x, y) == cell_at(m0, x, y)
                || cell_at(post, x, y) == SquareType::Visited),
        forall|x: int, y: int|
            in_grid(post, x, y) ==> #[trigger] cell_at(post, x, y) != SquareType::Solution,
        forall|x: int, y: int|
            in_grid(post, x, y) && #[trigger] cell_at(post, x, y) == SquareType::Visited
                ==> closed[sidx(post, x, y)],
        forall|x: int, y: int|
            in_grid(post, x, y) && (x, y) != coord(sq_start) && #[trigger] cell_at(m0, x, y)
                == SquareType::Wall ==> cell_at(post, x, y) == SquareType::Wall,
        cell_at(post, sq_obj.0 as int, sq_obj.1 as int) == cell_at(
            m0,
            sq_obj.0 as int,
            sq_obj.1 as int,
        ),
        cell_at(m0, sq_start.0 as int, sq_start.1 as int) == SquareType::Start ==> cell_at(
            post,
            sq_start.0 as int,
            sq_start.1 as int,
        ) == SquareType::Start,
{
    lemma_sidx_bounds(pre, current.0 as int, current.1 as int);
    assert forall|x: int, y: int| in_grid(post, x, y) implies ((#[trigger] cell_at(post, x, y)
        == cell_at(m0, x, y) || cell_at(post, x, y) == SquareType::Visited) && cell_at(post, x, y)
        != SquareType::Solution && (cell_at(post, x, y) == SquareType::Visited ==> closed[sidx(
        post,
        x,
        y,
    )]) && ((x, y) != coord(sq_start) && cell_at(m0, x, y) == SquareType::Wall ==> cell_at(
        post,
        x,
        y,
    ) == SquareType::Wall)) by {
        lemma_sidx_bounds(pre, x, y);
        if sidx(pre, x, y) == sidx(pre, current.0 as int, current.1 as int) {
            lemma_sidx_injective(pre, x, y, current.0 as int, current.1 as int);
            assert(cell_at(post, x, y) != SquareType::Solution);
        } else {
            assert(cell_at(post, x, y) == cell_at(pre, x, y));
        }
    }
    assert(cell_at(post, sq_obj.0 as int, sq_obj.1 as int) == cell_at(
        m0,
        sq_obj.0 as int,
        sq_obj.1 as int,
    )) by {
        lemma_sidx_bounds(pre, sq_obj.0 as int, sq_obj.1 as int);
        if sidx(pre, sq_obj.0 as int, sq_obj.1 as int) == sidx(
            pre,
            current.0 as int,
            current.1 as int,
        ) {
            lemma_sidx_injective(
                pre,
                sq_obj.0 as int,
                sq_obj.1 as int,
                current.0 as int,
                current.1 as int,
            );
        }
    }
    assert(cell_at(m0, sq_start.0 as int, sq_start.1 as int) == SquareType::Start ==> cell_at(
        post,
        sq_start.0 as int,
        sq_start.1 as int,
    ) == SquareType::Start) by {
        lemma_sidx_bounds(pre, sq_start.0 as int, sq_start.1 as int);
        if coord(current) == coord(sq_start) {
            assert(cell_at(pre, sq_start.0 as int, sq_start.1 as int) == cell_at(
                pre,
                current.0 as int,
                current.1 as int,
            ));
        } else {
            if sidx(pre, sq_start.0 as int, sq_start.1 as int) == sidx(
                pre,
                current.0 as int,
                current.1 as int,
            ) {
                lemma_sidx_injective(
                    pre,
                    sq_start.0 as int,
                    sq_start.1 as int,
                    current.0 as int,
                    current.1 as int,
                );
            }
        }
    }
}

/// Moving the selected cell from the open to the closed set preserves all
/// frontier bookkeeping, with one more expansion on record.
#[verifier::rlimit(100)]
#[verifier::spinoff_prover]
proof fn lemma_close_step(
    xl: int,
    yl: int,
    pre_open: Seq<(usize, usize)>,
    open: Seq<(usize, usize)>,
    k_open: int,
    old_closed: Seq<bool>,
    closed: Seq<bool>,
    came_from: Seq<Option<(usize, usize)>>,
    path_costs: Seq<usize>,
    depth: Map<int, nat>,
    cc: int,
    current: (usize, usize),
    sq_start: (usize, usize),
    sq_obj: (usize, usize),
    m0: GridView,
    weights: bool,
)
    requires
        1 <= xl,
        1 <= yl,
        current.0 < xl && current.1 < yl,
        old_closed.len() == xl * yl,
        came_from.len() == xl * yl,
        path_costs.len() == xl * yl,
        0 <= k_open < pre_open.len(),
        pre_open[k_open] == current,
        closed == old_closed.update(fidx(yl, current), true),
        open == pre_open.update(k_open, pre_open[pre_open.len() - 1]).drop_last(),
        open_ok(xl, yl, pre_open, old_closed),
        open_has_entries(yl, pre_open, came_from, coord(sq_start)),
        cf_entries_ok(xl, yl, came_from, old_closed, depth, coord(sq_start), coord(sq_obj)),
        closed_ok(xl, yl, old_closed, came_from, depth, coord(sq_start), cc - 1),
        depth_open_ok(yl, pre_open, depth, cc - 1),
        costs_ok(xl, yl, pre_open, old_closed, path_costs, depth, weights),
        forall|k: int|
            0 <= k < pre_open.len() ==> (coord(#[trigger] pre_open[k]) == coord(sq_start)
                || cell_at(m0, pre_open[k].0 as int, pre_open[k].1 as int) != SquareType::Wall),
        forall|x: int, y: int|
            0 <= x < xl && 0 <= y < yl && #[trigger] old_closed[flat(yl, x, y)] ==> ((x, y)
                == coord(sq_start) || cell_at(m0, x, y) != SquareType::Wall),
    ensures
        open_ok(xl, yl, open, closed),
        open_has_entries(yl, open, came_from, coord(sq_start)),
        cf_entries_ok(xl, yl, came_from, closed, depth, coord(sq_start), coord(sq_obj)),
        closed_ok(xl, yl, closed, came_from, depth, coord(sq_start), cc),
        depth_open_ok(yl, open, depth, cc),
        costs_ok(xl, yl, open, closed, path_costs, depth, weights),
        forall|k: int|
            0 <= k < open.len() ==> (coord(#[trigger] open[k]) == coord(sq_start) || cell_at(
                m0,
                open[k].0 as int,
                open[k].1 as int,
            ) != SquareType::Wall),
        forall|x: int, y: int|
            0 <= x < xl && 0 <= y < yl && #[trigger] closed[flat(yl, x, y)] ==> ((x, y) == coord(
                sq_start,
            ) || cell_at(m0, x, y) != SquareType::Wall),
        count_true(closed) == count_true(old_closed) + 1,
{
    lemma_flat_bounds(yl, current.0 as int, current.1 as int, xl);
    lemma_count_true_update(old_closed, fidx(yl, current));
    assert forall|j: int| 0 <= j < open.len() implies ((#[trigger] open[j]) == pre_open[j]
        || open[j] == pre_open[pre_open.len() - 1]) && open[j] != current by {
        if j == k_open {
            assert(open[j] == pre_open[pre_open.len() - 1]);
            assert(pre_open[pre_open.len() - 1] != pre_open[k_open]);
        } else {
            assert(open[j] == pre_open[j]);
            assert(pre_open[j] != pre_open[k_open]);
        }
    }
    assert forall|j: int| 0 <= j < open.len() implies pre_open.contains(#[trigger] open[j]) by {
        if j == k_open {
            assert(pre_open[pre_open.len() - 1] == open[j]);
        } else {
            assert(pre_open[j] == open[j]);
        }
    }
    assert forall|j: int| 0 <= j < open.len() implies (#[trigger] open[j]).0 < xl && open[j].1
        < yl && depth.contains_key(fidx(yl, open[j])) && depth[fidx(yl, open[j])] <= cc
        && path_costs[fidx(yl, open[j])] == (if weights {
        depth[fidx(yl, open[j])] as int
    } else {
        0
    }) && (coord(open[j]) == coord(sq_start) || came_from[fidx(yl, open[j])].is_some()) && (coord(
        open[j],
    ) == coord(sq_start) || cell_at(m0, open[j].0 as int, open[j].1 as int) != SquareType::Wall)
        && !old_closed[fidx(yl, open[j])] by {
        let jj = choose|jj: int| 0 <= jj < pre_open.len() && pre_open[jj] == open[j];
        assert(pre_open[jj] == open[j]);
    }
    assert forall|j: int| 0 <= j < open.len() implies !closed[fidx(yl, #[trigger] open[j])] by {
        lemma_flat_bounds(yl, open[j].0 as int, open[j].1 as int, xl);
        if fidx(yl, open[j]) == fidx(yl, current) {
            lemma_flat_injective(
                yl,
                open[j].0 as int,
                open[j].1 as int,
                current.0 as int,
                current.1 as int,
            );
        }
    }
    assert forall|j1: int, j2: int| 0 <= j1 < j2 < open.len() implies open[j1] != open[j2] by {
        let a1 = if j1 == k_open {
            pre_open.len() - 1
        } else {
            j1
        };
        let a2 = if j2 == k_open {
            pre_open.len() - 1
        } else {
            j2
        };
        assert(pre_open[a1] == open[j1]);
        assert(pre_open[a2] == open[j2]);
    }
    assert(open_ok(xl, yl, open, closed));
    assert(open_has_entries(yl, open, came_from, coord(sq_start)));
    assert(depth_open_ok(yl, open, depth, cc));
    assert forall|x: int, y: int|
        0 <= x < xl && 0 <= y < yl && (#[trigger] came_from[flat(yl, x, y)]).is_some()
        implies closed[fidx(yl, came_from[flat(yl, x, y)].unwrap())] by {
        let p = came_from[flat(yl, x, y)].unwrap();
        lemma_flat_bounds(yl, p.0 as int, p.1 as int, xl);
    }
    assert(cf_entries_ok(xl, yl, came_from, closed, depth, coord(sq_start), coord(sq_obj)));
    assert forall|x: int, y: int|
        0 <= x < xl && 0 <= y < yl && #[trigger] closed[flat(yl, x, y)] implies (((x, y) == coord(
        sq_start,
    ) || came_from[flat(yl, x, y)].is_some()) && depth.contains_key(flat(yl, x, y)) && depth[flat(
        yl,
        x,
        y,
    )] < cc && ((x, y) == coord(sq_start) || cell_at(m0, x, y) != SquareType::Wall)
        && path_costs[flat(yl, x, y)] == (if weights {
        depth[flat(yl, x, y)] as int
    } else {
        0
    })) by {
        lemma_flat_bounds(yl, x, y, xl);
        if flat(yl, x, y) == fidx(yl, current) {
            lemma_flat_injective(yl, x, y, current.0 as int, current.1 as int);
            assert(depth.contains_key(fidx(yl, current)) && depth[fidx(yl, current)] <= cc - 1);
            assert(path_costs[fidx(yl, current)] == (if weights {
                depth[fidx(yl, current)] as int
            } else {
                0
            }));
        } else {
            assert(closed[flat(yl, x, y)] == old_closed[flat(yl, x, y)]);
        }
    }
    assert(closed_ok(xl, yl, closed, came_from, depth, coord(sq_start), cc));
    assert(costs_ok(xl, yl, open, closed, path_costs, depth, weights));
}

/// An element that the open list holds, it still holds after another
/// element is pushed.
proof fn lemma_seq_has_coord_push(s: Seq<(usize, usize)>, e: (usize, usize), nx: int, ny: int)
    requires
        seq_has_coord(s, nx, ny),
    ensures
        seq_has_coord(s.push(e), nx, ny),
{
    let k = choose|k: int| 0 <= k < s.len() && (#[trigger] s[k]).0 == nx && s[k].1 == ny;
    assert(s.push(e)[k] == s[k]);
}

/// Two grids with the same geometry and the same cells agree on
/// reachability.
proof fn lemma_reachable_same_cells(a: GridView, b: GridView, start: (int, int), c: (int, int))
    requires
        b.cells == a.cells,
        b.x_len == a.x_len,
        b.y_len == a.y_len,
        reachable(a, start, c),
    ensures
        reachable(b, start, c),
{
    let p = choose|p: Seq<(int, int)>| is_open_path(a, p, start, c);
    assert(is_open_path(a, p, start, c));
    assert forall|k: int| 0 <= k < p.len() implies in_grid(b, (#[trigger] p[k]).0, p[k].1) by {
        assert(in_grid(a, p[k].0, p[k].1));
    }
    assert forall|k: int| 1 <= k < p.len() implies cell_at(b, (#[trigger] p[k]).0, p[k].1)
        != SquareType::Wall by {
        assert(cell_at(a, p[k].0, p[k].1) != SquareType::Wall);
    }
    assert(is_open_path(b, p, start, c));
}

/// A cell with a recorded predecessor entry is reachable from the start:
/// following the entries backward yields an open 4-adjacent walk.
proof fn lemma_cf_reachable(
    m0: GridView,
    xl: int,
    yl: int,
    came_from: Seq<Option<(usize, usize)>>,
    closed: Seq<bool>,
    depth: Map<int, nat>,
    start: (int, int),
    obj: (int, int),
    c: (usize, usize),
)
    requires
        xl == m0.x_len as int,
        yl == m0.y_len as int,
        m0.cells.len() == xl * yl,
        came_from.len() == xl * yl,
        0 <= start.0 < xl && 0 <= start.1 < yl,
        c.0 < xl && c.1 < yl,
        cf_entries_ok(xl, yl, came_from, closed, depth, start, obj),
        forall|x: int, y: int|
            0 <= x < xl && 0 <= y < yl && #[trigger] closed[flat(yl, x, y)] ==> ((x, y) == start
                || cell_at(m0, x, y) != SquareType::Wall),
        coord(c) == start || (came_from[fidx(yl, c)].is_some() && cell_at(
            m0,
            c.0 as int,
            c.1 as int,
        ) != SquareType::Wall),
    ensures
        reachable(m0, start, coord(c)),
    decreases (if coord(c) == start {
        0nat
    } else {
        depth[fidx(yl, c)]
    }),
{
    if coord(c) == start {
        let p = seq![start];
        assert(p[0] == start && p[p.len() - 1] == coord(c));
        assert(is_open_path(m0, p, start, coord(c)));
    } else {
        lemma_flat_bounds(yl, c.0 as int, c.1 as int, xl);
        assert(came_from[flat(yl, c.0 as int, c.1 as int)].is_some());
        let pr = came_from[fidx(yl, c)].unwrap();
        lemma_flat_bounds(yl, pr.0 as int, pr.1 as int, xl);
        assert(adjacent((c.0 as int, c.1 as int), coord(pr)));
        assert(adjacent(coord(pr), coord(c)));
        assert(closed[fidx(yl, pr)]);
        if coord(pr) != start {
            assert(cell_at(m0, pr.0 as int, pr.1 as int) != SquareType::Wall);
        }
        lemma_cf_reachable(m0, xl, yl, came_from, closed, depth, start, obj, pr);
        let q = choose|q: Seq<(int, int)>| is_open_path(m0, q, start, coord(pr));
        assert(is_open_path(m0, q, start, coord(pr)));
        let p = q.push(coord(c));
        assert(p[p.len() - 1] == coord(c));
        assert(p[0] == q[0]);
        assert forall|k: int| 0 <= k < p.len() implies in_grid(m0, (#[trigger] p[k]).0, p[k].1) by {
            if k < q.len() {
                assert(p[k] == q[k]);
            } else {
                assert(p[k] == coord(c));
            }
        }
        assert forall|k: int| 0 <= k < p.len() - 1 implies adjacent(#[trigger] p[k], p[k + 1]) by {
            if k < q.len() - 1 {
                assert(p[k] == q[k] && p[k + 1] == q[k + 1]);
            } else {
                assert(p[k] == coord(pr) && p[k + 1] == coord(c));
            }
        }
        assert forall|k: int| 1 <= k < p.len() implies cell_at(m0, (#[trigger] p[k]).0, p[k].1)
            != SquareType::Wall by {
            if k < q.len() {
                assert(p[k] == q[k]);
            } else {
                assert(p[k] == coord(c));
            }
        }
        assert(is_open_path(m0, p, start, coord(c)));
    }
}

/// With an empty open list the expanded region absorbs every open walk:
/// any cell joined to an expanded start by an open 4-adjacent walk is
/// itself expanded.
proof fn lemma_closed_complete(
    m0: GridView,
    xl: int,
    yl: int,
    closed: Seq<bool>,
    start: (int, int),
    p: Seq<(int, int)>,
    c: (int, int),
)
    requires
        xl == m0.x_len as int,
        yl == m0.y_len as int,
        m0.cells.len() == xl * yl,
        closed.len() == xl * yl,
        0 <= start.0 < xl && 0 <= start.1 < yl,
        closed[flat(yl, start.0, start.1)],
        frontier_closed(xl, yl, m0, closed, Seq::<(usize, usize)>::empty()),
        is_open_path(m0, p, start, c),
    ensures
        closed[flat(yl, c.0, c.1)],
    decreases p.len(),
{
    if p.len() == 1 {
        assert(c == start);
    } else {
        let q = p.drop_last();
        let b = p[p.len() - 2];
        assert(q[q.len() - 1] == b);
        assert(q[0] == p[0]);
        assert forall|k: int| 0 <= k < q.len() implies in_grid(m0, (#[trigger] q[k]).0, q[k].1) by {
            assert(q[k] == p[k]);
        }
        assert forall|k: int| 0 <= k < q.len() - 1 implies adjacent(#[trigger] q[k], q[k + 1]) by {
            assert(q[k] == p[k] && q[k + 1] == p[k + 1]);
        }
        assert forall|k: int| 1 <= k < q.len() implies cell_at(m0, (#[trigger] q[k]).0, q[k].1)
            != SquareType::Wall by {
            assert(q[k] == p[k]);
        }
        assert(is_open_path(m0, q, start, b));
        lemma_closed_complete(m0, xl, yl, closed, start, q, b);
        assert(adjacent(p[p.len() - 2], p[p.len() - 1]));
        assert(cell_at(m0, c.0, c.1) != SquareType::Wall);
        assert(in_grid(m0, b.0, b.1) && in_grid(m0, c.0, c.1));
        assert(closed[flat(yl, c.0, c.1)] || seq_has_coord(
            Seq::<(usize, usize)>::empty(),
            c.0,
            c.1,
        ));
        assert(!seq_has_coord(Seq::<(usize, usize)>::empty(), c.0, c.1));
    }
}

/// Removing the selected cell from the open list by the swap-with-last
/// scheme keeps every other listed coordinate listed.
proof fn lemma_open_remove_keeps(
    pre_open: Seq<(usize, usize)>,
    open: Seq<(usize, usize)>,
    k_open: int,
    current: (usize, usize),
)
    requires
        0 <= k_open < pre_open.len(),
        pre_open[k_open] == current,
        open == pre_open.update(k_open, pre_open[pre_open.len() - 1]).drop_last(),
    ensures
        forall|nx: int, ny: int|
            #[trigger] seq_has_coord(pre_open, nx, ny) && (nx, ny) != coord(current)
                ==> seq_has_coord(open, nx, ny),
{
    assert forall|nx: int, ny: int|
        #[trigger] seq_has_coord(pre_open, nx, ny) && (nx, ny) != coord(current)
        implies seq_has_coord(open, nx, ny) by {
        let k = choose|k: int|
            0 <= k < pre_open.len() && (#[trigger] pre_open[k]).0 == nx && pre_open[k].1 == ny;
        assert(pre_open[k].0 == nx && pre_open[k].1 == ny);
        if k == k_open {
            assert(coord(pre_open[k]) == coord(current));
            assert(false);
        }
        if k == pre_open.len() - 1 {
            assert(open[k_open] == pre_open[k]);
        } else {
            assert(open[k] == pre_open[k]);
        }
    }
}

/// Expanding one open cell keeps the frontier of every other expanded cell
/// covered: what was expanded stays expanded, and what was waiting and is
/// not the expanded cell itself still waits.
proof fn lemma_frontier_close_step(
    xl: int,
    yl: int,
    m0: GridView,
    old_closed: Seq<bool>,
    closed: Seq<bool>,
    pre_open: Seq<(usize, usize)>,
    open: Seq<(usize, usize)>,
    current: (usize, usize),
)
    requires
        1 <= xl && 1 <= yl,
        current.0 < xl && current.1 < yl,
        old_closed.len() == xl * yl,
        closed == old_closed.update(fidx(yl, current), true),
        frontier_closed(xl, yl, m0, old_closed, pre_open),
        forall|nx: int, ny: int|
            #[trigger] seq_has_coord(pre_open, nx, ny) && (nx, ny) != coord(current)
                ==> seq_has_coord(open, nx, ny),
    ensures
        frontier_closed_except(xl, yl, m0, closed, open, current),
{
    assert forall|x: int, y: int, nx: int, ny: int|
        0 <= x < xl && 0 <= y < yl && #[trigger] closed[flat(yl, x, y)] && (x, y) != coord(current)
            && 0 <= nx < xl && 0 <= ny < yl && adjacent((x, y), (nx, ny)) && #[trigger] cell_at(
            m0,
            nx,
            ny,
        ) != SquareType::Wall implies closed[flat(yl, nx, ny)] || seq_has_coord(open, nx, ny) by {
        lemma_flat_bounds(yl, x, y, xl);
        lemma_flat_bounds(yl, nx, ny, xl);
        lemma_flat_bounds(yl, current.0 as int, current.1 as int, xl);
        if flat(yl, x, y) == fidx(yl, current) {
            lemma_flat_injective(yl, x, y, current.0 as int, current.1 as int);
        }
        assert(old_closed[flat(yl, x, y)]);
        assert(old_closed[flat(yl, nx, ny)] || seq_has_coord(pre_open, nx, ny));
        if !old_closed[flat(yl, nx, ny)] && !closed[flat(yl, nx, ny)] {
            assert((nx, ny) != coord(current)) by {
                if (nx, ny) == coord(current) {
                    assert(closed[fidx(yl, current)]);
                }
            }
            assert(seq_has_coord(open, nx, ny));
        }
    }
}

/// A frontier stays covered when the open list only grows.
proof fn lemma_frontier_except_grow(
    xl: int,
    yl: int,
    m0: GridView,
    closed: Seq<bool>,
    open1: Seq<(usize, usize)>,
    open2: Seq<(usize, usize)>,
    current: (usize, usize),
)
    requires
        frontier_closed_except(xl, yl, m0, closed, open1, current),
        forall|nx: int, ny: int|
            #[trigger] seq_has_coord(open1, nx, ny) ==> seq_has_coord(open2, nx, ny),
    ensures
        frontier_closed_except(xl, yl, m0, closed, open2, current),
{
    assert forall|x: int, y: int, nx: int, ny: int|
        0 <= x < xl && 0 <= y < yl && #[trigger] closed[flat(yl, x, y)] && (x, y) != coord(current)
            && 0 <= nx < xl && 0 <= ny < yl && adjacent((x, y), (nx, ny)) && #[trigger] cell_at(
            m0,
            nx,
            ny,
        ) != SquareType::Wall implies closed[flat(yl, nx, ny)] || seq_has_coord(open2, nx, ny) by {
        assert(closed[flat(yl, nx, ny)] || seq_has_coord(open1, nx, ny));
    }
}

/// Once every still-open neighbor of the freshly expanded cell waits in the
/// open list, the whole expanded region's frontier is covered again.
proof fn lemma_frontier_assemble(
    xl: int,
    yl: int,
    m0: GridView,
    closed: Seq<bool>,
    open: Seq<(usize, usize)>,
    nl: Seq<(usize, usize)>,
    current: (usize, usize),
)
    requires
        1 <= xl && 1 <= yl,
        current.0 < xl && current.1 < yl,
        closed.len() == xl * yl,
        frontier_closed_except(xl, yl, m0, closed, open, current),
        neighbors_covered(xl, yl, m0, closed, nl, current),
        forall|t: int|
            0 <= t < nl.len() ==> seq_has_coord(open, (#[trigger] nl[t]).0 as int, nl[t].1 as int),
    ensures
        frontier_closed(xl, yl, m0, closed, open),
{
    assert forall|x: int, y: int, nx: int, ny: int|
        0 <= x < xl && 0 <= y < yl && #[trigger] closed[flat(yl, x, y)] && 0 <= nx < xl && 0 <= ny
            < yl && adjacent((x, y), (nx, ny)) && #[trigger] cell_at(m0, nx, ny)
            != SquareType::Wall implies closed[flat(yl, nx, ny)] || seq_has_coord(open, nx, ny) by {
        if (x, y) == coord(current) {
            if !closed[flat(yl, nx, ny)] {
                assert(adjacent(coord(current), (nx, ny)));
                assert(seq_has_coord(nl, nx, ny));
                let t = choose|t: int|
                    0 <= t < nl.len() && (#[trigger] nl[t]).0 == nx && nl[t].1 == ny;
                assert(seq_has_coord(open, nl[t].0 as int, nl[t].1 as int));
            }
        } else {
            assert(closed[flat(yl, nx, ny)] || seq_has_coord(open, nx, ny));
        }
    }
}

/// What [`SquareCollection::neighbors`] lists covers every in-bounds,
/// non-`Wall`, still-unexpanded neighbor of the expanded cell: on the
/// searched grid a cell that has not been expanded still shows its original
/// terrain, so an original non-wall is a listed neighbor.
proof fn lemma_neighbors_covered(
    g: GridView,
    m0: GridView,
    closed: Seq<bool>,
    nl: Seq<(usize, usize)>,
    current: (usize, usize),
    xl: int,
    yl: int,
)
    requires
        xl == g.x_len as int,
        yl == g.y_len as int,
        xl <= usize::MAX && yl <= usize::MAX,
        m0.x_len == g.x_len,
        m0.y_len == g.y_len,
        g.cells.len() == xl * yl,
        m0.cells.len() == xl * yl,
        closed.len() == xl * yl,
        current.0 < xl && current.1 < yl,
        forall|x: int, y: int|
            in_grid(g, x, y) ==> (#[trigger] cell_at(g, x, y) == cell_at(m0, x, y) || cell_at(
                g,
                x,
                y,
            ) == SquareType::Visited),
        forall|x: int, y: int|
            in_grid(g, x, y) && #[trigger] cell_at(g, x, y) == SquareType::Visited ==> closed[sidx(
                g,
                x,
                y,
            )],
        forall|c: (usize, usize)|
            neighbor_ok(g, closed, c, current) && adjacent(coord(c), coord(current))
                ==> #[trigger] nl.contains(c),
    ensures
        neighbors_covered(xl, yl, m0, closed, nl, current),
{
    assert forall|nx: int, ny: int|
        0 <= nx < xl && 0 <= ny < yl && adjacent(coord(current), (nx, ny)) && #[trigger] cell_at(
            m0,
            nx,
            ny,
        ) != SquareType::Wall && !closed[flat(yl, nx, ny)] implies seq_has_coord(nl, nx, ny) by {
        let cpair = ((nx as usize), (ny as usize));
        assert(coord(cpair) == (nx, ny));
        lemma_sidx_bounds(g, nx, ny);
        assert(cell_at(g, nx, ny) != SquareType::Wall) by {
            if cell_at(g, nx, ny) == SquareType::Visited {
                assert(closed[sidx(g, nx, ny)]);
            } else {
                assert(cell_at(g, nx, ny) == cell_at(m0, nx, ny));
            }
        }
        assert(cidx(g, cpair) == flat(yl, nx, ny));
        assert(neighbor_ok(g, closed, cpair, current));
        assert(adjacent(coord(cpair), coord(current)));
        assert(nl.contains(cpair));
        let k = choose|k: int| 0 <= k < nl.len() && nl[k] == cpair;
        assert((#[trigger] nl[k]).0 == nx as usize);
        assert(seq_has_coord(nl, nx, ny));
    }
}

/// Marking the freshly expanded cell keeps every expanded cell but the
/// start showing `Visited`: on a role-consistent grid only the start cell
/// can refuse the marking.
proof fn lemma_visited_closed_step(
    pre: GridView,
    post: GridView,
    m0: GridView,
    old_closed: Seq<bool>,
    closed: Seq<bool>,
    current: (usize, usize),
    sq_start: (usize, usize),
    xl: int,
    yl: int,
)
    requires
        xl == pre.x_len as int,
        yl == pre.y_len as int,
        m0.x_len == pre.x_len,
        m0.y_len == pre.y_len,
        pre.cells.len() == xl * yl,
        m0.cells.len() == xl * yl,
        old_closed.len() == xl * yl,
        current.0 < xl && current.1 < yl,
        m0.start.0 == sq_start.0 && m0.start.1 == sq_start.1,
        roles_ok(m0),
        closed == old_closed.update(fidx(yl, current), true),
        post == with_cell(
            pre,
            current.0 as int,
            current.1 as int,
            (if cell_at(pre, current.0 as int, current.1 as int) == SquareType::Start {
                SquareType::Start
            } else {
                SquareType::Visited
            }),
        ),
        forall|x: int, y: int|
            in_grid(pre, x, y) ==> (#[trigger] cell_at(pre, x, y) == cell_at(m0, x, y) || cell_at(
                pre,
                x,
                y,
            ) == SquareType::Visited),
        visited_marked(xl, yl, pre, old_closed, coord(sq_start)),
    ensures
        visited_marked(xl, yl, post, closed, coord(sq_start)),
{
    lemma_flat_bounds(yl, current.0 as int, current.1 as int, xl);
    assert forall|x: int, y: int|
        0 <= x < xl && 0 <= y < yl && #[trigger] closed[flat(yl, x, y)] && (x, y) != coord(
            sq_start,
        ) implies cell_at(post, x, y) == SquareType::Visited by {
        lemma_flat_bounds(yl, x, y, xl);
        lemma_sidx_bounds(pre, x, y);
        lemma_sidx_bounds(pre, current.0 as int, current.1 as int);
        if flat(yl, x, y) == fidx(yl, current) {
            lemma_flat_injective(yl, x, y, current.0 as int, current.1 as int);
            assert(cell_at(pre, current.0 as int, current.1 as int) != SquareType::Start) by {
                if cell_at(pre, current.0 as int, current.1 as int) == SquareType::Start {
                    assert(cell_at(m0, current.0 as int, current.1 as int) == SquareType::Start);
                    assert(coord(current) == (m0.start.0 as int, m0.start.1 as int));
                }
            }
            assert(cell_at(post, x, y) == SquareType::Visited);
        } else {
            assert(old_closed[flat(yl, x, y)]);
            assert(cell_at(pre, x, y) == SquareType::Visited);
            if sidx(pre, x, y) == sidx(pre, current.0 as int, current.1 as int) {
                lemma_sidx_injective(pre, x, y, current.0 as int, current.1 as int);
            }
            assert(cell_at(post, x, y) == cell_at(pre, x, y));
        }
    }
}

/// What [`SquareCollection::neighbors`] promises of each listed cell: in
/// bounds, 4-adjacent to the expanded cell, not yet expanded, and not a
/// wall.
pub open spec fn neighbor_ok(
    m: GridView,
    closed: Seq<bool>,
    n: (usize, usize),
    current: (usize, usize),
) -> bool {
    &&& n.0 < m.x_len && n.1 < m.y_len
    &&& adjacent(coord(n), coord(current))
    &&& !closed[cidx(m, n)]
    &&& cell_at(m, n.0 as int, n.1 as int) != SquareType::Wall
}

/// The grid `m` with the role of the cell at column `x`, row `y` replaced
/// by `t`; everything else untouched.
pub open spec fn with_cell(m: GridView, x: int, y: int, t: SquareType) -> GridView {
    GridView { cells: m.cells.update(sidx(m, x, y), t), ..m }
}

/// The grid cell a pointer position resolves to: each coordinate is divided
/// by the cell width (the vertical one after removing the reserved top
/// strip) and clamped into the grid.  Deterministic and monotonic in each
/// pointer coordinate.
pub open spec fn mapped_cell(m: GridView, px: int, py: int) -> (int, int) {
    let col_raw = px / (m.square_width as int);
    let row_raw = (py - m.top_offset) / (m.square_width as int);
    (
        if col_raw <= m.x_len - 1 {
            col_raw
        } else {
            m.x_len - 1
        },
        if row_raw <= m.y_len - 1 {
            row_raw
        } else {
            m.y_len - 1
        },
    )
}

/// The model of [`SquareCollection::change_square_type`]: painting at a
/// pointer position at or above the reserved strip is a no-op; otherwise the
/// resolved cell takes the new role, after the previous holder of a painted
/// `Start` or `Objective` role reverted to `Blank`, and a role painted over
/// by a different role gives its presence flag up.
pub open spec fn painted(m: GridView, px: int, py: int, t: SquareType) -> GridView {
    if py <= m.top_offset {
        m
    } else {
        let cell = mapped_cell(m, px, py);
        let prev = cell_at(m, cell.0, cell.1);
        let reverted = if t == SquareType::Start && m.start_set {
            with_cell(m, m.start.0 as int, m.start.1 as int, SquareType::Blank)
        } else if t == SquareType::Objective && m.objective_set {
            with_cell(m, m.objective.0 as int, m.objective.1 as int, SquareType::Blank)
        } else {
            m
        };
        let designated = if t == SquareType::Start {
            GridView { start: (cell.0 as nat, cell.1 as nat), start_set: true, ..reverted }
        } else if t == SquareType::Objective {
            GridView { objective: (cell.0 as nat, cell.1 as nat), objective_set: true, ..reverted }
        } else {
            reverted
        };
        let written = with_cell(designated, cell.0, cell.1, t);
        let start_kept = if prev == SquareType::Start && t != SquareType::Start {
            GridView { start_set: false, ..written }
        } else {
            written
        };
        if prev == SquareType::Objective && t != SquareType::Objective {
            GridView { objective_set: false, ..start_kept }
        } else {
            start_kept
        }
    }
}

/// Reading a cell after a single-cell write: the written cell shows the new
/// role, every other cell is unchanged.
proof fn lemma_with_cell_at(m: GridView, x: int, y: int, t: SquareType, a: int, b: int)
    requires
        m.cells.len() == m.x_len * m.y_len,
        in_grid(m, x, y),
        in_grid(m, a, b),
    ensures
        cell_at(with_cell(m, x, y, t), a, b) == (if a == x && b == y {
            t
        } else {
            cell_at(m, a, b)
        }),
{
    lemma_sidx_bounds(m, x, y);
    lemma_sidx_bounds(m, a, b);
    if sidx(m, a, b) == sidx(m, x, y) {
        lemma_sidx_injective(m, a, b, x, y);
    }
}

/// Painting keeps the endpoint roles consistent: on a role-consistent grid,
/// after any paint the flagged start coordinate still holds the one and
/// only `Start` cell, and likewise for `Objective`.
pub proof fn lemma_painted_roles(m: GridView, px: int, py: int, t: SquareType)
    requires
        grid_wf(m),
        roles_ok(m),
        0 <= px,
        0 <= py,
    ensures
        roles_ok(painted(m, px, py, t)),
{
    if py <= m.top_offset {
        return ;
    }
    let cell = mapped_cell(m, px, py);
    let sw = m.square_width as int;
    assert(px / sw >= 0 && (py - m.top_offset) / sw >= 0) by (nonlinear_arith)
        requires
            px >= 0,
            py - m.top_offset > 0,
            sw >= 1,
    ;
    assert(in_grid(m, cell.0, cell.1));
    let c0 = cell.0;
    let c1 = cell.1;
    let prev = cell_at(m, c0, c1);
    let r = painted(m, px, py, t);
    if m.start_set {
        lemma_sidx_bounds(m, m.start.0 as int, m.start.1 as int);
    }
    if m.objective_set {
        lemma_sidx_bounds(m, m.objective.0 as int, m.objective.1 as int);
    }
    assert forall|x: int, y: int| in_grid(m, x, y) implies #[trigger] cell_at(r, x, y) == (
    if x == c0 && y == c1 {
        t
    } else if t == SquareType::Start && m.start_set && x == m.start.0 && y == m.start.1 {
        SquareType::Blank
    } else if t == SquareType::Objective && m.objective_set && x == m.objective.0 && y
        == m.objective.1 {
        SquareType::Blank
    } else {
        cell_at(m, x, y)
    }) by {
        let reverted = if t == SquareType::Start && m.start_set {
            with_cell(m, m.start.0 as int, m.start.1 as int, SquareType::Blank)
        } else if t == SquareType::Objective && m.objective_set {
            with_cell(m, m.objective.0 as int, m.objective.1 as int, SquareType::Blank)
        } else {
            m
        };
        if t == SquareType::Start && m.start_set {
            lemma_with_cell_at(m, m.start.0 as int, m.start.1 as int, SquareType::Blank, x, y);
        }
        if t == SquareType::Objective && m.objective_set {
            lemma_with_cell_at(
                m,
                m.objective.0 as int,
                m.objective.1 as int,
                SquareType::Blank,
                x,
                y,
            );
        }
        assert(reverted.cells.len() == reverted.x_len * reverted.y_len);
        lemma_with_cell_at(reverted, c0, c1, t, x, y);
        assert(cell_at(r, x, y) == cell_at(with_cell(reverted, c0, c1, t), x, y));
    }
    assert forall|x: int, y: int|
        in_grid(r, x, y) && #[trigger] cell_at(r, x, y) == SquareType::Start
        implies r.start_set && x == r.start.0 && y == r.start.1 by {
        assert(in_grid(m, x, y));
    }
    assert forall|x: int, y: int|
        in_grid(r, x, y) && #[trigger] cell_at(r, x, y) == SquareType::Objective
        implies r.objective_set && x == r.objective.0 && y == r.objective.1 by {
        assert(in_grid(m, x, y));
    }
    if r.start_set {
        assert(cell_at(r, r.start.0 as int, r.start.1 as int) == SquareType::Start) by {
            if t == SquareType::Start {
                assert(cell_at(r, c0, c1) == SquareType::Start);
            } else {
                assert(cell_at(m, m.start.0 as int, m.start.1 as int) == SquareType::Start);
            }
        }
    }
    if r.objective_set {
        assert(cell_at(r, r.objective.0 as int, r.objective.1 as int) == SquareType::Objective)
            by {
            if t == SquareType::Objective {
                assert(cell_at(r, c0, c1) == SquareType::Objective);
            } else {
                assert(cell_at(m, m.objective.0 as int, m.objective.1 as int)
                    == SquareType::Objective);
            }
        }
    }
}

/// Relies on `rand::thread_rng` and `rand::Rng::gen_range`: a draw from the
/// thread-local generator, uniformly distributed over `0..5`.  `gen_range`
/// panics only on an empty range, and `0..5` is not empty; a thread's first
/// `thread_rng()` call can also panic if the operating system's entropy
/// source fails while the generator is first seeded.
#[verifier::external_body]
fn random_draw() -> (draw: usize)
    ensures
        draw < 5,
{
    rand::thread_rng().gen_range(0..5)
}

/// The terrain a maze draw produces: draws 2, 3 and 4 give `Blank`, draws
/// 0 and 1 give `Wall` — a three-in-five chance of open floor.
pub fn maze_square_type(draw: usize) -> (t: SquareType)
    ensures
        t == (if draw % 5 > 1 {
            SquareType::Blank
        } else {
            SquareType::Wall
        }),
{
    if draw % 5 > 1 {
        SquareType::Blank
    } else {
        SquareType::Wall
    }
}

/// The model of [`SquareCollection::clear`]: every cell `Blank`, both
/// presence flags dropped, everything else untouched.
pub open spec fn cleared(m: GridView) -> GridView {
    GridView {
        cells: Seq::new(m.cells.len(), |i: int| SquareType::Blank),
        start_set: false,
        objective_set: false,
        ..m
    }
}

} // verus!

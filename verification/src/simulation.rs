use std::collections::HashSet;
use vstd::prelude::*;

use crate::random::random_below;

verus! {

/// A cell of the grid: `x` is the column, `y` the row.
#[derive(PartialEq, Eq, Hash, Clone, Copy, Debug, Structural)]
pub struct Point2D {
    pub x: usize,
    pub y: usize,
}

impl Point2D {
    /// The `k`-th candidate neighbour, in the order left, right, up, down;
    /// none where the coordinate would leave the range of `usize`.
    pub open spec fn neighbor(self, k: int) -> Option<Point2D> {
        if k == 0 {
            if self.x > 0 {
                Some(Point2D { x: (self.x - 1) as usize, y: self.y })
            } else {
                None
            }
        } else if k == 1 {
            if self.x < usize::MAX {
                Some(Point2D { x: (self.x + 1) as usize, y: self.y })
            } else {
                None
            }
        } else if k == 2 {
            if self.y > 0 {
                Some(Point2D { x: self.x, y: (self.y - 1) as usize })
            } else {
                None
            }
        } else if k == 3 {
            if self.y < usize::MAX {
                Some(Point2D { x: self.x, y: (self.y + 1) as usize })
            } else {
                None
            }
        } else {
            None
        }
    }

    /// The neighbours among the first `k` candidates that satisfy `pred`, in order.
    pub open spec fn neighbors_where(self, k: nat, pred: spec_fn(Point2D) -> bool) -> Seq<
        Point2D,
    >
        decreases k,
    {
        if k == 0 {
            Seq::empty()
        } else {
            let prev = self.neighbors_where((k - 1) as nat, pred);
            match self.neighbor(k - 1) {
                Some(q) => if pred(q) {
                    prev.push(q)
                } else {
                    prev
                },
                None => prev,
            }
        }
    }

    /// The neighbours kept by `neighbors_where` satisfy the predicate and are
    /// candidate neighbours.
    pub proof fn lemma_neighbors_where(p: Point2D, k: nat, pred: spec_fn(Point2D) -> bool)
        ensures
            forall|i: int|
                0 <= i < p.neighbors_where(k, pred).len() ==> pred(
                    #[trigger] p.neighbors_where(k, pred)[i],
                ),
            forall|i: int|
                0 <= i < p.neighbors_where(k, pred).len() ==> exists|j: int|
                    0 <= j < k && #[trigger] p.neighbor(j) == Some(
                        #[trigger] p.neighbors_where(k, pred)[i],
                    ),
        decreases k,
    {
        if k > 0 {
            Point2D::lemma_neighbors_where(p, (k - 1) as nat, pred);
            let prev = p.neighbors_where((k - 1) as nat, pred);
            let cur = p.neighbors_where(k, pred);
            assert forall|i: int| 0 <= i < cur.len() implies exists|j: int|
                0 <= j < k && #[trigger] p.neighbor(j) == Some(#[trigger] cur[i]) by {
                if i < prev.len() {
                    assert(cur[i] == prev[i]);
                    let j = choose|j: int| 0 <= j < k - 1 && #[trigger] p.neighbor(j) == Some(prev[i]);
                    assert(p.neighbor(j) == Some(cur[i]));
                } else {
                    assert(p.neighbor(k - 1) == Some(cur[i]));
                }
            }
        }
    }

    /// Every candidate neighbour among the first `k` that satisfies `pred` is kept.
    pub proof fn lemma_neighbors_where_complete(p: Point2D, k: nat, pred: spec_fn(Point2D) -> bool)
        ensures
            forall|j: int|
                0 <= j < k && #[trigger] p.neighbor(j) is Some && pred(p.neighbor(j)->0)
                    ==> p.neighbors_where(k, pred).contains(p.neighbor(j)->0),
        decreases k,
    {
        if k > 0 {
            Point2D::lemma_neighbors_where_complete(p, (k - 1) as nat, pred);
            let prev = p.neighbors_where((k - 1) as nat, pred);
            let cur = p.neighbors_where(k, pred);
            assert forall|j: int|
                0 <= j < k && #[trigger] p.neighbor(j) is Some && pred(p.neighbor(j)->0)
                    implies cur.contains(p.neighbor(j)->0) by {
                let q = p.neighbor(j)->0;
                if j < k - 1 {
                    assert(prev.contains(q));
                    let i = choose|i: int| 0 <= i < prev.len() && prev[i] == q;
                    assert(cur[i] == prev[i]);
                } else {
                    assert(cur[cur.len() - 1] == q);
                }
            }
        }
    }

    /// The neighbours kept by `neighbors_where` are all different.
    pub proof fn lemma_neighbors_where_distinct(p: Point2D, k: nat, pred: spec_fn(Point2D) -> bool)
        requires
            k <= 4,
        ensures
            forall|i: int, l: int|
                0 <= i < l < p.neighbors_where(k, pred).len() ==> #[trigger] p.neighbors_where(
                    k,
                    pred,
                )[i] != #[trigger] p.neighbors_where(k, pred)[l],
        decreases k,
    {
        if k > 0 {
            Point2D::lemma_neighbors_where_distinct(p, (k - 1) as nat, pred);
            Point2D::lemma_neighbors_where(p, (k - 1) as nat, pred);
            let prev = p.neighbors_where((k - 1) as nat, pred);
            let cur = p.neighbors_where(k, pred);
            assert forall|i: int, l: int| 0 <= i < l < cur.len() implies #[trigger] cur[i]
                != #[trigger] cur[l] by {
                assert(cur[i] == prev[i]);
                if l < prev.len() {
                    assert(cur[l] == prev[l]);
                } else {
                    let j = choose|j: int| 0 <= j < k - 1 && #[trigger] p.neighbor(j) == Some(prev[i]);
                    assert(p.neighbor(k - 1) == Some(cur[l]));
                }
            }
        }
    }

    /// The `k`-th candidate neighbour (see `neighbor`).
    pub fn neighbor_at(self, k: usize) -> (r: Option<Point2D>)
        requires
            k < 4,
        ensures
            r == self.neighbor(k as int),
    {
        if k == 0 {
            match self.x.checked_sub(1) {
                Some(x) => Some(Point2D { x, y: self.y }),
                None => None,
            }
        } else if k == 1 {
            match self.x.checked_add(1) {
                Some(x) => Some(Point2D { x, y: self.y }),
                None => None,
            }
        } else if k == 2 {
            match self.y.checked_sub(1) {
                Some(y) => Some(Point2D { x: self.x, y }),
                None => None,
            }
        } else {
            match self.y.checked_add(1) {
                Some(y) => Some(Point2D { x: self.x, y }),
                None => None,
            }
        }
    }
}

/// What an agent is told when it is asked to act.
#[derive(Debug)]
pub struct AgentInput {
    pub position: Point2D,
    pub taggable_positions: Vec<Point2D>,
    pub grid_view: Vec<Vec<CellState>>,
    pub is_tagger: bool,
}

/// What an agent decides to do.
#[derive(Clone, Copy, Debug, PartialEq, Eq, Structural)]
pub enum AgentAction {
    Move(Point2D),
    Tag(Point2D),
    Stay,
}

/// The identity of an agent, handed out in the order in which agents are placed.
#[derive(PartialEq, Eq, Clone, Copy, Debug, Hash, Structural)]
pub struct AgentId(pub u32);

impl View for AgentId {
    type V = nat;

    open spec fn view(&self) -> nat {
        self.0 as nat
    }
}

#[derive(Debug, PartialEq, Eq, Structural)]
pub enum SimulationError {
    CellOccupied(Point2D),
    OutOfBounds(Point2D),
}

/// What a cell holds, as agents see the grid.
#[derive(Clone, Copy, Debug, PartialEq, Eq, Structural)]
pub enum CellState {
    Empty,
    Agent,
    Tagger,
    TagbackImmune,
}

/// What an agent is told, as a mathematical value.
pub struct InputView {
    pub position: Point2D,
    pub taggable_positions: Seq<Point2D>,
    pub grid_view: Seq<Seq<CellState>>,
    pub is_tagger: bool,
}

impl View for AgentInput {
    type V = InputView;

    open spec fn view(&self) -> InputView {
        InputView {
            position: self.position,
            taggable_positions: self.taggable_positions@,
            grid_view: self.grid_view@.map_values(|row: Vec<CellState>| row@),
            is_tagger: self.is_tagger,
        }
    }
}

/// The Manhattan distance between two cells.
pub open spec fn distance(a: Point2D, b: Point2D) -> int {
    (if a.x >= b.x {
        a.x - b.x
    } else {
        b.x - a.x
    }) + (if a.y >= b.y {
        a.y - b.y
    } else {
        b.y - a.y
    })
}

impl InputView {
    /// An input an agent can act on: a non-empty rectangular grid whose
    /// width and height together fit in a `usize` (as they do for any grid
    /// held in memory), and a position whose distance to every cell of the
    /// grid fits in a `usize`. The position itself may lie outside the grid.
    pub open spec fn is_valid(self) -> bool {
        let g = self.grid_view;
        &&& g.len() > 0
        &&& forall|i: int| 0 <= i < g.len() ==> #[trigger] g[i].len() == g[0].len()
        &&& g.len() + g[0].len() <= usize::MAX
        &&& forall|q: Point2D|
            q.y < g.len() && q.x < g[0].len() ==> #[trigger] distance(self.position, q)
                <= usize::MAX
    }
}

/// The behaviour of an agent; the simulation asks each agent once per step.
pub trait Agent {
    /// Whether this agent may answer `action` when told `input`. An agent
    /// that does not say may answer anything.
    open spec fn chooses(&self, input: InputView, action: AgentAction) -> bool {
        true
    }

    fn act(&self, input: AgentInput) -> (action: AgentAction)
        requires
            input@.is_valid(),
        ensures
            self.chooses(input@, action),
    ;
}

/// An agent on the grid together with its identity.
pub struct AgentEntry {
    pub id: AgentId,
    pub agent: Box<dyn Agent>,
}

impl AgentEntry {
    pub fn act(&self, input: AgentInput) -> (action: AgentAction)
        requires
            input@.is_valid(),
        ensures
            self.agent.chooses(input@, action),
    {
        self.agent.act(input)
    }
}

/// The identity of the agent in a cell, if any.
pub open spec fn entry_id(cell: Option<AgentEntry>) -> Option<nat> {
    match cell {
        Some(e) => Some(e.id@),
        None => None,
    }
}

pub open spec fn id_view(id: Option<AgentId>) -> Option<nat> {
    match id {
        Some(i) => Some(i@),
        None => None,
    }
}

/// Lexicographic order on (row, column): the order in which a step visits cells.
pub open spec fn visited_before(ay: int, ax: int, by: int, bx: int) -> bool {
    ay < by || (ay == by && ax < bx)
}

/// The state of a simulation as a mathematical value.
pub struct SimView {
    pub rows: nat,
    pub cols: nat,
    /// `cells[y][x]` is the agent in column `x` of row `y`, if any.
    pub cells: Seq<Seq<Option<AgentEntry>>>,
    pub current_tagger: Option<nat>,
    pub tagback_immune: Option<nat>,
    /// The identity that the next placed agent gets; identities are handed
    /// out from 0 upwards.
    pub next_id: nat,
}

impl SimView {
    pub open spec fn in_bounds(self, x: int, y: int) -> bool {
        0 <= x < self.cols && 0 <= y < self.rows
    }

    /// The identity of the agent on cell (x, y), if any.
    pub open spec fn occupant(self, x: int, y: int) -> Option<nat> {
        entry_id(self.cells[y][x])
    }

    /// The agent with identity `id` stands on some cell.
    pub open spec fn on_grid(self, id: nat) -> bool {
        exists|x: int, y: int| self.in_bounds(x, y) && #[trigger] self.occupant(x, y) == Some(id)
    }

    /// The grid has the declared size, every placed agent stands on exactly one
    /// cell, and the tagger and the immune agent are agents that were placed.
    pub open spec fn wf(self) -> bool {
        &&& self.cells.len() == self.rows
        &&& forall|y: int| 0 <= y < self.rows ==> #[trigger] self.cells[y].len() == self.cols
        &&& self.rows > 0 ==> self.rows + self.cols <= usize::MAX
        &&& self.next_id <= u32::MAX
        &&& forall|x: int, y: int|
            self.in_bounds(x, y) && #[trigger] self.occupant(x, y) is Some ==> self.occupant(
                x,
                y,
            ).unwrap() < self.next_id
        &&& forall|x1: int, y1: int, x2: int, y2: int|
            self.in_bounds(x1, y1) && self.in_bounds(x2, y2) && #[trigger] self.occupant(x1, y1)
                is Some && #[trigger] self.occupant(x2, y2) == self.occupant(x1, y1) ==> x1 == x2
                && y1 == y2
        &&& forall|id: nat| id < self.next_id ==> #[trigger] self.on_grid(id)
        &&& self.current_tagger matches Some(t) ==> t < self.next_id
        &&& self.tagback_immune matches Some(t) ==> t < self.next_id
    }

    /// A grid of the given size with no agent on it.
    pub open spec fn empty(rows: nat, cols: nat) -> SimView {
        SimView {
            rows,
            cols,
            cells: Seq::new(rows, |y: int| Seq::new(cols, |x: int| None::<AgentEntry>)),
            current_tagger: None,
            tagback_immune: None,
            next_id: 0,
        }
    }

    /// What agents see in a cell.
    pub open spec fn cell_state(self, x: int, y: int) -> CellState {
        match self.occupant(x, y) {
            None => CellState::Empty,
            Some(id) => if self.current_tagger == Some(id) {
                CellState::Tagger
            } else if self.tagback_immune == Some(id) {
                CellState::TagbackImmune
            } else {
                CellState::Agent
            },
        }
    }

    /// The whole grid as agents see it, row by row.
    pub open spec fn grid_view(self) -> Seq<Seq<CellState>> {
        Seq::new(self.rows, |y: int| Seq::new(self.cols, |x: int| self.cell_state(x, y)))
    }

    /// A cell that the tagger may tag: inside the grid and holding an agent
    /// that is not immune.
    pub open spec fn is_taggable_cell(self, p: Point2D) -> bool {
        &&& self.in_bounds(p.x as int, p.y as int)
        &&& self.occupant(p.x as int, p.y as int) matches Some(id)
        &&& self.tagback_immune != Some(id)
    }

    pub open spec fn taggable_pred(self) -> spec_fn(Point2D) -> bool {
        |q: Point2D| self.is_taggable_cell(q)
    }

    /// The neighbours of `p` that may be tagged, in the order left, right, up, down.
    pub open spec fn taggable_adjacent(self, p: Point2D) -> Seq<Point2D> {
        p.neighbors_where(4, self.taggable_pred())
    }

    /// The positions that the agent `id` standing on `p` may tag: none unless
    /// it is the tagger.
    pub open spec fn taggable_positions(self, id: nat, p: Point2D) -> Seq<Point2D> {
        if self.current_tagger == Some(id) {
            self.taggable_adjacent(p)
        } else {
            Seq::empty()
        }
    }

    /// The agent on `p` moves to `m`.
    pub open spec fn moved(self, p: Point2D, m: Point2D) -> SimView {
        let c1 = self.cells.update(p.y as int, self.cells[p.y as int].update(p.x as int, None));
        SimView {
            cells: c1.update(m.y as int, c1[m.y as int].update(m.x as int, self.cells[p.y as int][p.x as int])),
            ..self
        }
    }

    /// Whether carrying out `action` for the cell `p` reads that cell.
    pub open spec fn reads_source(self, p: Point2D, action: AgentAction) -> bool {
        match action {
            AgentAction::Move(m) => self.in_bounds(m.x as int, m.y as int) && m != p
                && self.occupant(m.x as int, m.y as int) is None,
            AgentAction::Tag(_) => true,
            AgentAction::Stay => false,
        }
    }

    /// What carrying out `action` for the agent on `p` returns.
    pub open spec fn apply_result(self, p: Point2D, action: AgentAction) -> Result<(), SimulationError> {
        match action {
            AgentAction::Move(m) => if !self.in_bounds(m.x as int, m.y as int) {
                Err(SimulationError::OutOfBounds(m))
            } else if m == p {
                Ok(())
            } else if self.occupant(m.x as int, m.y as int) is Some {
                Err(SimulationError::CellOccupied(m))
            } else {
                Ok(())
            },
            _ => Ok(()),
        }
    }

    /// The state after carrying out `action` for the agent on `p`. A move goes
    /// to an empty cell inside the grid; a tag is carried out only when the
    /// agent on `p` is the tagger and the target is one of its taggable
    /// positions: the target becomes the tagger and the old tagger immune.
    /// Anything else leaves the state as it is.
    pub open spec fn apply(self, p: Point2D, action: AgentAction) -> SimView {
        match action {
            AgentAction::Move(m) => if self.in_bounds(m.x as int, m.y as int) && m != p
                && self.occupant(m.x as int, m.y as int) is None {
                self.moved(p, m)
            } else {
                self
            },
            AgentAction::Tag(t) => match self.occupant(p.x as int, p.y as int) {
                Some(tagger) => if self.current_tagger == Some(tagger)
                    && self.taggable_positions(tagger, p).contains(t) {
                    match self.occupant(t.x as int, t.y as int) {
                        Some(tagged) => SimView {
                            tagback_immune: Some(tagger),
                            current_tagger: Some(tagged),
                            ..self
                        },
                        None => self,
                    }
                } else {
                    self
                },
                None => self,
            },
            AgentAction::Stay => self,
        }
    }

    /// How a move changes the cells: the source is emptied, the destination
    /// gets the source's agent, every other cell keeps its agent.
    pub proof fn lemma_moved_cells(self, p: Point2D, m: Point2D)
        requires
            self.wf(),
            self.in_bounds(p.x as int, p.y as int),
            self.in_bounds(m.x as int, m.y as int),
            m != p,
        ensures
            self.moved(p, m).cells.len() == self.rows,
            forall|y: int| 0 <= y < self.rows ==> #[trigger] self.moved(p, m).cells[y].len() == self.cols,
            self.moved(p, m).cells[m.y as int][m.x as int] == self.cells[p.y as int][p.x as int],
            self.moved(p, m).cells[p.y as int][p.x as int] is None,
            forall|x: int, y: int|
                self.in_bounds(x, y) && !(x == p.x && y == p.y) && !(x == m.x && y == m.y)
                    ==> #[trigger] self.moved(p, m).cells[y][x] == self.cells[y][x],
    {
        let s = self.moved(p, m);
        let c1 = self.cells.update(p.y as int, self.cells[p.y as int].update(p.x as int, None));
        assert forall|y: int| 0 <= y < self.rows implies #[trigger] s.cells[y].len() == self.cols by {
            assert(c1[y].len() == self.cols);
        }
        assert forall|x: int, y: int|
            self.in_bounds(x, y) && !(x == p.x && y == p.y) && !(x == m.x && y == m.y)
                implies #[trigger] s.cells[y][x] == self.cells[y][x] by {
            assert(c1[y][x] == self.cells[y][x]);
        }
    }

    /// A move from an occupied or empty cell to an empty cell keeps the state
    /// well formed.
    pub proof fn lemma_move_wf(self, p: Point2D, m: Point2D)
        requires
            self.wf(),
            self.in_bounds(p.x as int, p.y as int),
            self.in_bounds(m.x as int, m.y as int),
            m != p,
            self.occupant(m.x as int, m.y as int) is None,
        ensures
            self.moved(p, m).wf(),
    {
        let s = self.moved(p, m);
        self.lemma_moved_cells(p, m);
        let (px, py, mx, my) = (p.x as int, p.y as int, m.x as int, m.y as int);
        assert forall|x: int, y: int| s.in_bounds(x, y) implies #[trigger] s.occupant(x, y) == if x
            == mx && y == my {
            self.occupant(px, py)
        } else if x == px && y == py {
            None
        } else {
            self.occupant(x, y)
        } by {}
        assert forall|id: nat| id < s.next_id implies #[trigger] s.on_grid(id) by {
            assert(self.on_grid(id));
            let (wx, wy) = choose|wx: int, wy: int|
                self.in_bounds(wx, wy) && #[trigger] self.occupant(wx, wy) == Some(id);
            if wx == px && wy == py {
                assert(s.occupant(mx, my) == Some(id));
            } else {
                assert(s.occupant(wx, wy) == Some(id));
            }
        }
        assert forall|x1: int, y1: int, x2: int, y2: int|
            s.in_bounds(x1, y1) && s.in_bounds(x2, y2) && #[trigger] s.occupant(x1, y1) is Some
                && #[trigger] s.occupant(x2, y2) == s.occupant(x1, y1) implies x1 == x2 && y1
            == y2 by {
            let a1 = if x1 == mx && y1 == my { (px, py) } else { (x1, y1) };
            let a2 = if x2 == mx && y2 == my { (px, py) } else { (x2, y2) };
            assert(self.occupant(a1.0, a1.1) == s.occupant(x1, y1));
            assert(self.occupant(a2.0, a2.1) == s.occupant(x2, y2));
        }
    }

    /// Carrying out any action keeps the state well formed; every cell either
    /// keeps its agent, is emptied, or receives the agent of `p`.
    pub proof fn lemma_apply(self, p: Point2D, action: AgentAction)
        requires
            self.wf(),
            self.reads_source(p, action) ==> self.in_bounds(p.x as int, p.y as int),
        ensures
            self.apply(p, action).wf(),
            self.apply(p, action).rows == self.rows,
            self.apply(p, action).cols == self.cols,
            self.apply(p, action).next_id == self.next_id,
            forall|x: int, y: int|
                self.in_bounds(x, y) ==> {
                    let c = #[trigger] self.apply(p, action).occupant(x, y);
                    c == self.occupant(x, y) || c is None || c == self.occupant(
                        p.x as int,
                        p.y as int,
                    )
                },
    {
        let s = self.apply(p, action);
        match action {
            AgentAction::Move(m) => {
                if self.in_bounds(m.x as int, m.y as int) && m != p && self.occupant(
                    m.x as int,
                    m.y as int,
                ) is None {
                    self.lemma_move_wf(p, m);
                    self.lemma_moved_cells(p, m);
                    assert(s == self.moved(p, m));
                    assert(s.wf());
                } else {
                    assert(s == self);
                }
            },
            AgentAction::Tag(t) => {
                if let Some(tagger) = self.occupant(p.x as int, p.y as int) {
                    if self.current_tagger == Some(tagger) && self.taggable_positions(
                        tagger,
                        p,
                    ).contains(t) {
                        Point2D::lemma_neighbors_where(p, 4, self.taggable_pred());
                        let i = choose|i: int|
                            0 <= i < self.taggable_adjacent(p).len()
                                && self.taggable_adjacent(p)[i] == t;
                        assert((self.taggable_pred())(self.taggable_adjacent(p)[i]));
                        assert(self.is_taggable_cell(t));
                        assert(s.cells == self.cells);
                        assert(forall|x: int, y: int| #[trigger] s.occupant(x, y) == self.occupant(x, y));
                        assert forall|id: nat| id < s.next_id implies #[trigger] s.on_grid(id) by {
                            assert(self.on_grid(id));
                            let (wx, wy) = choose|wx: int, wy: int|
                                self.in_bounds(wx, wy) && #[trigger] self.occupant(wx, wy) == Some(id);
                            assert(s.occupant(wx, wy) == Some(id));
                        }
                        assert(s.wf());
                    }
                }
            },
            AgentAction::Stay => {},
        }
    }

    /// What the agent `id` standing on `p` is told when it is asked to act.
    pub open spec fn input_for(self, id: nat, p: Point2D) -> InputView {
        InputView {
            position: p,
            taggable_positions: self.taggable_positions(id, p),
            grid_view: self.grid_view(),
            is_tagger: self.current_tagger == Some(id),
        }
    }

    /// In a well-formed state the agents on the grid are exactly those placed.
    pub proof fn lemma_on_grid_exactly_placed(self)
        requires
            self.wf(),
        ensures
            forall|id: nat| #[trigger] self.on_grid(id) <==> id < self.next_id,
    {
        assert forall|id: nat| #[trigger] self.on_grid(id) implies id < self.next_id by {
            let (wx, wy) = choose|wx: int, wy: int|
                self.in_bounds(wx, wy) && #[trigger] self.occupant(wx, wy) == Some(id);
        }
    }

    /// `entry` stands on cell (x, y), and the next identity is taken.
    pub open spec fn place(self, x: int, y: int, entry: AgentEntry) -> SimView {
        SimView {
            cells: self.cells.update(y, self.cells[y].update(x, Some(entry))),
            next_id: self.next_id + 1,
            ..self
        }
    }

    /// Placing an agent on an empty cell of a well-formed grid keeps it well
    /// formed, as long as identities remain.
    pub proof fn lemma_place_wf(self, x: int, y: int, entry: AgentEntry)
        requires
            self.wf(),
            self.in_bounds(x, y),
            self.cells[y][x] is None,
            self.next_id < u32::MAX,
            entry.id@ == self.next_id,
        ensures
            self.place(x, y, entry).wf(),
    {
        let s = self.place(x, y, entry);
        assert(s.occupant(x, y) == Some(self.next_id));
        assert forall|j: int| 0 <= j < s.rows implies #[trigger] s.cells[j].len() == s.cols by {
            if j != y {
                assert(s.cells[j] == self.cells[j]);
            }
        }
        assert forall|i: int, j: int|
            s.in_bounds(i, j) && (i != x || j != y) implies #[trigger] s.occupant(i, j)
            == self.occupant(i, j) by {
            if j != y {
                assert(s.cells[j] == self.cells[j]);
            }
        }
        assert forall|id: nat| id < s.next_id implies #[trigger] s.on_grid(id) by {
            if id < self.next_id {
                assert(self.on_grid(id));
                let (wx, wy) = choose|wx: int, wy: int|
                    self.in_bounds(wx, wy) && #[trigger] self.occupant(wx, wy) == Some(id);
                assert(s.occupant(wx, wy) == Some(id));
            } else {
                assert(s.occupant(x, y) == Some(id));
            }
        }
    }
}

/// The grid, the agents on it, who is the tagger and who may not be tagged back.
pub struct Simulation {
    rows: usize,
    cols: usize,
    grid: Vec<Vec<Option<AgentEntry>>>,
    current_tagger: Option<AgentId>,
    tagback_immune_agent: Option<AgentId>,
    next_agent_id: u32,
}

impl View for Simulation {
    type V = SimView;

    closed spec fn view(&self) -> SimView {
        SimView {
            rows: self.rows as nat,
            cols: self.cols as nat,
            cells: self.grid@.map_values(|row: Vec<Option<AgentEntry>>| row@),
            current_tagger: id_view(self.current_tagger),
            tagback_immune: id_view(self.tagback_immune_agent),
            next_id: self.next_agent_id as nat,
        }
    }
}

impl Simulation {
    /// The simulation is well formed: its view is, and the grid's rows have
    /// the declared length.
    pub closed spec fn wf(&self) -> bool {
        &&& self@.wf()
        &&& self.grid@.len() == self.rows
        &&& forall|y: int| 0 <= y < self.rows ==> #[trigger] self.grid@[y]@.len() == self.cols
    }

    /// A well-formed simulation has a well-formed view, to which the laws
    /// about views apply.
    pub proof fn lemma_wf(&self)
        requires
            self.wf(),
        ensures
            self@.wf(),
    {
    }

    proof fn lemma_view_row(&self, y: int)
        requires
            0 <= y < self.grid@.len(),
        ensures
            self@.cells.len() == self.grid@.len(),
            self@.cells[y] == self.grid@[y]@,
    {
    }

    /// An empty grid of `rows` rows and `cols` columns, with no tagger.
    pub fn new(rows: usize, cols: usize) -> (sim: Self)
        requires
            rows > 0 ==> rows + cols <= usize::MAX,
        ensures
            sim.wf(),
            sim@ == SimView::empty(rows as nat, cols as nat),
    {
        let mut grid: Vec<Vec<Option<AgentEntry>>> = Vec::new();
        let mut y: usize = 0;
        while y < rows
            invariant
                y <= rows,
                grid@.len() == y,
                forall|j: int| 0 <= j < y ==> #[trigger] grid@[j]@ == Seq::new(
                    cols as nat,
                    |x: int| None::<AgentEntry>,
                ),
            decreases rows - y,
        {
            let mut row: Vec<Option<AgentEntry>> = Vec::new();
            let mut x: usize = 0;
            while x < cols
                invariant
                    x <= cols,
                    row@ == Seq::new(x as nat, |i: int| None::<AgentEntry>),
                decreases cols - x,
            {
                row.push(None);
                x = x + 1;
                assert(row@ =~= Seq::new(x as nat, |i: int| None::<AgentEntry>));
            }
            grid.push(row);
            y = y + 1;
        }
        let sim = Simulation {
            rows,
            cols,
            grid,
            current_tagger: None,
            tagback_immune_agent: None,
            next_agent_id: 0,
        };
        assert(sim@.cells =~= SimView::empty(rows as nat, cols as nat).cells) by {
            assert forall|j: int| 0 <= j < rows implies #[trigger] sim@.cells[j]
                == SimView::empty(rows as nat, cols as nat).cells[j] by {
                sim.lemma_view_row(j);
            }
        }
        sim
    }

    fn next_agent_id(&mut self) -> (id: AgentId)
        requires
            old(self).next_agent_id < u32::MAX,
        ensures
            id@ == old(self).next_agent_id,
            final(self).next_agent_id == old(self).next_agent_id + 1,
            final(self).rows == old(self).rows,
            final(self).cols == old(self).cols,
            final(self).grid == old(self).grid,
            final(self).current_tagger == old(self).current_tagger,
            final(self).tagback_immune_agent == old(self).tagback_immune_agent,
    {
        let id = AgentId(self.next_agent_id);
        self.next_agent_id = self.next_agent_id + 1;
        id
    }

    /// Places `agent` on cell (x, y) under the next identity. Fails when the
    /// cell is outside the grid, or already occupied.
    pub fn place_agent(&mut self, agent: Box<dyn Agent>, x: usize, y: usize) -> (r: Result<
        (),
        SimulationError,
    >)
        requires
            old(self).wf(),
            old(self)@.in_bounds(x as int, y as int) && old(self)@.occupant(x as int, y as int)
                is None ==> old(self)@.next_id < u32::MAX,
        ensures
            final(self).wf(),
            !old(self)@.in_bounds(x as int, y as int) ==> r == Err::<(), SimulationError>(
                SimulationError::OutOfBounds(Point2D { x, y }),
            ) && final(self)@ == old(self)@,
            old(self)@.in_bounds(x as int, y as int) && old(self)@.occupant(x as int, y as int)
                is Some ==> r == Err::<(), SimulationError>(
                SimulationError::CellOccupied(Point2D { x, y }),
            ) && final(self)@ == old(self)@,
            old(self)@.in_bounds(x as int, y as int) && old(self)@.occupant(x as int, y as int)
                is None ==> {
                &&& r == Ok::<(), SimulationError>(())
                &&& final(self)@.cells[y as int][x as int] matches Some(e) && e.id@ == old(
                    self,
                )@.next_id && final(self)@ == old(self)@.place(x as int, y as int, e)
                &&& final(self)@.cells[y as int][x as int] == Some(
                    AgentEntry { id: AgentId(old(self)@.next_id as u32), agent },
                )
            },
    {
        let point = Point2D { x, y };

        if x >= self.cols || y >= self.rows {
            return Err(SimulationError::OutOfBounds(point));
        }
        proof {
            self.lemma_view_row(y as int);
        }
        if self.grid[y][x].is_some() {
            return Err(SimulationError::CellOccupied(point));
        }
        let ghost before = *self;
        let ghost given = agent;
        let id = self.next_agent_id();
        self.grid[y][x] = Some(AgentEntry { id, agent });
        proof {
            self.lemma_view_row(y as int);
            assert(id == AgentId(before.next_agent_id));
            assert(self.grid@[y as int]@[x as int] == Some(AgentEntry { id, agent: given }));
            let placed = self.grid@[y as int]@[x as int].unwrap();
            let expected = before@.place(x as int, y as int, placed);
            before@.lemma_place_wf(x as int, y as int, placed);
            assert forall|j: int| 0 <= j < self.rows implies #[trigger] self@.cells[j]
                == expected.cells[j] by {
                self.lemma_view_row(j);
                before.lemma_view_row(j);
            }
            assert(self@.cells =~= expected.cells);
            assert forall|j: int| 0 <= j < self.rows implies #[trigger] self.grid@[j]@.len()
                == self.cols by {
                self.lemma_view_row(j);
            }
        }
        Ok(())
    }

    pub fn rows(&self) -> (r: usize)
        ensures
            r == self@.rows,
    {
        self.rows
    }

    pub fn cols(&self) -> (r: usize)
        ensures
            r == self@.cols,
    {
        self.cols
    }
}


/// Whether `a` names the agent `id`.
fn is_agent(a: Option<AgentId>, id: AgentId) -> (r: bool)
    ensures
        r == (id_view(a) == Some(id@)),
{
    match a {
        Some(b) => b.0 == id.0,
        None => false,
    }
}

/// Whether `v` holds `p`.
fn contains_point(v: &Vec<Point2D>, p: Point2D) -> (r: bool)
    ensures
        r == v@.contains(p),
{
    let mut i: usize = 0;
    while i < v.len()
        invariant
            i <= v@.len(),
            forall|j: int| 0 <= j < i ==> v@[j] != p,
        decreases v@.len() - i,
    {
        if v[i] == p {
            return true;
        }
        i = i + 1;
    }
    false
}

impl Simulation {
    /// What agents see in cell (x, y); none outside the grid.
    pub fn cell_state(&self, x: usize, y: usize) -> (r: Option<CellState>)
        requires
            self.wf(),
        ensures
            r == if self@.in_bounds(x as int, y as int) {
                Some(self@.cell_state(x as int, y as int))
            } else {
                None
            },
    {
        if x >= self.cols || y >= self.rows {
            return None;
        }
        proof {
            self.lemma_view_row(y as int);
        }
        let agent = match &self.grid[y][x] {
            Some(agent) => agent,
            None => {
                return Some(CellState::Empty);
            },
        };

        if is_agent(self.current_tagger, agent.id) {
            return Some(CellState::Tagger);
        }
        if is_agent(self.tagback_immune_agent, agent.id) {
            return Some(CellState::TagbackImmune);
        }
        Some(CellState::Agent)
    }

    /// The identity of the agent on cell (x, y); none outside the grid or on
    /// an empty cell.
    pub fn agent_id_at(&self, x: usize, y: usize) -> (r: Option<AgentId>)
        requires
            self.wf(),
        ensures
            id_view(r) == if self@.in_bounds(x as int, y as int) {
                self@.occupant(x as int, y as int)
            } else {
                None
            },
    {
        if x >= self.cols || y >= self.rows {
            return None;
        }
        proof {
            self.lemma_view_row(y as int);
        }
        match &self.grid[y][x] {
            Some(agent) => Some(agent.id),
            None => None,
        }
    }

    /// How many agents were placed: the identity that the next one gets.
    pub fn agents_placed(&self) -> (r: u32)
        ensures
            r == self@.next_id,
    {
        self.next_agent_id
    }

    pub fn current_tagger(&self) -> (r: Option<AgentId>)
        ensures
            id_view(r) == self@.current_tagger,
    {
        self.current_tagger
    }

    pub fn tagback_immune_agent(&self) -> (r: Option<AgentId>)
        ensures
            id_view(r) == self@.tagback_immune,
    {
        self.tagback_immune_agent
    }

    /// Makes `tagger` the tagger; it must be an agent that was placed.
    pub fn set_current_tagger(&mut self, tagger: Option<AgentId>)
        requires
            old(self).wf(),
            (id_view(tagger) matches Some(t) ==> t < old(self)@.next_id),
        ensures
            final(self).wf(),
            final(self)@ == (SimView { current_tagger: id_view(tagger), ..old(self)@ }),
    {
        self.current_tagger = tagger;
        proof {
            assert(forall|x: int, y: int| #[trigger] self@.occupant(x, y) == old(self)@.occupant(x, y));
            assert forall|id: nat| id < self@.next_id implies #[trigger] self@.on_grid(id) by {
                assert(old(self)@.on_grid(id));
                let (wx, wy) = choose|wx: int, wy: int|
                    old(self)@.in_bounds(wx, wy) && #[trigger] old(self)@.occupant(wx, wy) == Some(id);
                assert(self@.occupant(wx, wy) == Some(id));
            }
        }
    }

    /// Makes `agent` immune to being tagged back; it must be an agent that was placed.
    pub fn set_tagback_immune_agent(&mut self, agent: Option<AgentId>)
        requires
            old(self).wf(),
            (id_view(agent) matches Some(t) ==> t < old(self)@.next_id),
        ensures
            final(self).wf(),
            final(self)@ == (SimView { tagback_immune: id_view(agent), ..old(self)@ }),
    {
        self.tagback_immune_agent = agent;
        proof {
            assert(forall|x: int, y: int| #[trigger] self@.occupant(x, y) == old(self)@.occupant(x, y));
            assert forall|id: nat| id < self@.next_id implies #[trigger] self@.on_grid(id) by {
                assert(old(self)@.on_grid(id));
                let (wx, wy) = choose|wx: int, wy: int|
                    old(self)@.in_bounds(wx, wy) && #[trigger] old(self)@.occupant(wx, wy) == Some(id);
                assert(self@.occupant(wx, wy) == Some(id));
            }
        }
    }

    fn is_taggable_cell(&self, q: Point2D) -> (r: bool)
        requires
            self.wf(),
        ensures
            r == self@.is_taggable_cell(q),
    {
        if q.x >= self.cols || q.y >= self.rows {
            return false;
        }
        proof {
            self.lemma_view_row(q.y as int);
        }
        match &self.grid[q.y][q.x] {
            Some(agent) => !is_agent(self.tagback_immune_agent, agent.id),
            None => false,
        }
    }

    /// The occupied neighbours of `p`, inside the grid and not immune, in the
    /// order left, right, up, down.
    fn taggable_adjacent_positions(&self, p: Point2D) -> (r: Vec<Point2D>)
        requires
            self.wf(),
        ensures
            r@ == self@.taggable_adjacent(p),
    {
        let mut out: Vec<Point2D> = Vec::new();
        let mut k: usize = 0;
        while k < 4
            invariant
                self.wf(),
                k <= 4,
                out@ == p.neighbors_where(k as nat, self@.taggable_pred()),
            decreases 4 - k,
        {
            match p.neighbor_at(k) {
                Some(q) => {
                    if self.is_taggable_cell(q) {
                        out.push(q);
                    }
                },
                None => {},
            }
            k = k + 1;
        }
        out
    }

    fn can_agent_tag(&self, agent_id: AgentId) -> (r: bool)
        ensures
            r == (self@.current_tagger == Some(agent_id@)),
    {
        is_agent(self.current_tagger, agent_id)
    }

    /// The positions that the agent `agent_id` on `position` may tag: none
    /// unless it is the tagger.
    pub fn find_taggable_positions(&self, agent_id: AgentId, position: Point2D) -> (r: Vec<
        Point2D,
    >)
        requires
            self.wf(),
        ensures
            r@ == self@.taggable_positions(agent_id@, position),
    {
        if !self.can_agent_tag(agent_id) {
            return Vec::new();
        }
        self.taggable_adjacent_positions(position)
    }
}

impl Simulation {
    /// Carries out `action` for the agent on cell (x, y). A move fails when the
    /// destination is outside the grid or occupied; moving to the own cell
    /// does nothing. A tag that the rules do not allow is ignored.
    pub fn apply_action(&mut self, position: Point2D, action: AgentAction) -> (r: Result<
        (),
        SimulationError,
    >)
        requires
            old(self).wf(),
            old(self)@.reads_source(position, action) ==> old(self)@.in_bounds(
                position.x as int,
                position.y as int,
            ),
        ensures
            final(self).wf(),
            r == old(self)@.apply_result(position, action),
            final(self)@ == old(self)@.apply(position, action),
    {
        let x = position.x;
        let y = position.y;
        let ghost p = position;
        proof {
            old(self)@.lemma_apply(p, action);
        }
        match action {
            AgentAction::Move(move_to) => {
                // Bounds check the new position
                if move_to.x >= self.cols || move_to.y >= self.rows {
                    return Err(SimulationError::OutOfBounds(move_to));
                }
                // Trying to move to the source position is a no-op
                if move_to.x == x && move_to.y == y {
                    return Ok(());
                }
                proof {
                    self.lemma_view_row(move_to.y as int);
                }
                // Trying to move to an occupied position should fail
                if self.grid[move_to.y][move_to.x].is_some() {
                    return Err(SimulationError::CellOccupied(move_to));
                }
                proof {
                    self.lemma_view_row(y as int);
                }
                let ghost before = *self;
                // Take out the agent from the current position
                let agent = self.grid[y][x].take();
                // New position is valid: move the agent to it
                self.grid[move_to.y][move_to.x] = agent;
                proof {
                    let expected = before@.moved(p, move_to);
                    before@.lemma_moved_cells(p, move_to);
                    assert forall|j: int| 0 <= j < self.rows implies #[trigger] self@.cells[j]
                        =~= expected.cells[j] by {
                        self.lemma_view_row(j);
                        before.lemma_view_row(j);
                    }
                    assert(self@.cells =~= expected.cells);
                    assert forall|j: int| 0 <= j < self.rows implies #[trigger] self.grid@[j]@.len()
                        == self.cols by {
                        self.lemma_view_row(j);
                    }
                }
                Ok(())
            },
            AgentAction::Tag(target_position) => {
                proof {
                    self.lemma_view_row(y as int);
                }
                let tagger_id = match &self.grid[y][x] {
                    Some(tagger) => tagger.id,
                    None => {
                        return Ok(());
                    },
                };
                let tagger_position = Point2D { x, y };

                if !is_agent(self.current_tagger, tagger_id) {
                    return Ok(());
                }
                let taggable = self.find_taggable_positions(tagger_id, tagger_position);
                if !contains_point(&taggable, target_position) {
                    return Ok(());
                }
                proof {
                    Point2D::lemma_neighbors_where(p, 4, self@.taggable_pred());
                    let i = choose|i: int|
                        0 <= i < taggable@.len() && taggable@[i] == target_position;
                    assert((self@.taggable_pred())(taggable@[i]));
                    self.lemma_view_row(target_position.y as int);
                }
                let tagged_id = match &self.grid[target_position.y][target_position.x] {
                    Some(tagged) => tagged.id,
                    None => {
                        return Ok(());
                    },
                };
                // The tagger becomes immune for the next round
                self.tagback_immune_agent = Some(tagger_id);
                // The target becomes the tagger for the next round
                self.current_tagger = Some(tagged_id);
                proof {
                    assert(self@.cells == old(self)@.cells);
                }
                Ok(())
            },
            AgentAction::Stay => Ok(()),
        }
    }
}

/// One agent's turn within a step: who acted, from where, what it was told
/// and what it decided.
pub struct ActEvent {
    pub id: nat,
    pub position: Point2D,
    pub input: InputView,
    pub action: AgentAction,
}

/// The state after the turns `events`, carried out one after the other from `s`.
pub open spec fn run_events(s: SimView, events: Seq<ActEvent>) -> SimView
    decreases events.len(),
{
    if events.len() == 0 {
        s
    } else {
        run_events(s, events.drop_last()).apply(events.last().position, events.last().action)
    }
}

/// The turn `e` fits the state `s` it was taken in: the agent stood on the
/// position, it was told its position, its taggable positions, the grid and
/// whether it is the tagger, as they were in `s`, and it answered as it
/// chooses to.
pub open spec fn turn_fits(s: SimView, e: ActEvent) -> bool {
    &&& s.in_bounds(e.position.x as int, e.position.y as int)
    &&& s.occupant(e.position.x as int, e.position.y as int) == Some(e.id)
    &&& e.input == s.input_for(e.id, e.position)
    &&& s.cells[e.position.y as int][e.position.x as int]->0.agent.chooses(e.input, e.action)
}

/// `events` is a step from `s` to `result`: the cells are visited row by row,
/// each agent takes exactly one turn, in the state left by the turns before
/// it and answering as it chooses, and `result` is the state after the last
/// turn.
pub open spec fn is_step(s: SimView, events: Seq<ActEvent>, result: SimView) -> bool {
    &&& result == run_events(s, events)
    &&& forall|i: int|
        0 <= i < events.len() ==> turn_fits(run_events(s, events.take(i)), #[trigger] events[i])
    &&& forall|i: int, j: int|
        0 <= i < j < events.len() ==> visited_before(
            #[trigger] events[i].position.y as int,
            events[i].position.x as int,
            #[trigger] events[j].position.y as int,
            events[j].position.x as int,
        )
    &&& forall|i: int, j: int|
        0 <= i < j < events.len() ==> #[trigger] events[i].id != #[trigger] events[j].id
    &&& forall|i: int| 0 <= i < events.len() ==> #[trigger] events[i].id < s.next_id
    &&& forall|id: nat| id < s.next_id ==> #[trigger] takes_turn(events, id)
}

/// The agent `id` takes a turn in `events`.
pub open spec fn takes_turn(events: Seq<ActEvent>, id: nat) -> bool {
    exists|i: int| 0 <= i < events.len() && #[trigger] events[i].id == id
}

impl Simulation {
    /// The grid as agents see it.
    fn create_grid_view(&self) -> (r: Vec<Vec<CellState>>)
        requires
            self.wf(),
        ensures
            r@.map_values(|row: Vec<CellState>| row@) == self@.grid_view(),
    {
        let mut view: Vec<Vec<CellState>> = Vec::new();
        let mut y: usize = 0;
        while y < self.rows
            invariant
                self.wf(),
                y <= self.rows,
                view@.len() == y,
                forall|j: int| 0 <= j < y ==> #[trigger] view@[j]@ == self@.grid_view()[j],
            decreases self.rows - y,
        {
            let mut row: Vec<CellState> = Vec::new();
            let mut x: usize = 0;
            while x < self.cols
                invariant
                    self.wf(),
                    y < self.rows,
                    x <= self.cols,
                    row@ == self@.grid_view()[y as int].take(x as int),
                decreases self.cols - x,
            {
                row.push(self.cell_state(x, y).expect("Out of bounds grid coordinate"));
                x = x + 1;
                assert(row@ =~= self@.grid_view()[y as int].take(x as int));
            }
            assert(row@ =~= self@.grid_view()[y as int]);
            view.push(row);
            y = y + 1;
        }
        assert(view@.map_values(|row: Vec<CellState>| row@) =~= self@.grid_view());
        view
    }
}

/// Partway through a step that started from `s0`: the turns `events` were
/// taken in the cells before (y, x), `cur` is the state they left, `acted`
/// holds who took a turn, and every agent that has not taken a turn stands on
/// a cell that is yet to be visited.
spec fn step_progress(
    s0: SimView,
    events: Seq<ActEvent>,
    cur: SimView,
    acted: Set<u32>,
    y: int,
    x: int,
) -> bool {
    &&& cur == run_events(s0, events)
    &&& cur.wf()
    &&& cur.rows == s0.rows
    &&& cur.cols == s0.cols
    &&& cur.next_id == s0.next_id
    &&& forall|i: int|
        0 <= i < events.len() ==> turn_fits(run_events(s0, events.take(i)), #[trigger] events[i])
    &&& forall|i: int, j: int|
        0 <= i < j < events.len() ==> visited_before(
            #[trigger] events[i].position.y as int,
            events[i].position.x as int,
            #[trigger] events[j].position.y as int,
            events[j].position.x as int,
        )
    &&& forall|i: int, j: int|
        0 <= i < j < events.len() ==> #[trigger] events[i].id != #[trigger] events[j].id
    &&& forall|i: int| 0 <= i < events.len() ==> #[trigger] events[i].id < s0.next_id
    &&& forall|i: int|
        0 <= i < events.len() ==> visited_before(
            #[trigger] events[i].position.y as int,
            events[i].position.x as int,
            y,
            x,
        )
    &&& forall|k: u32| #[trigger] acted.contains(k) <==> takes_turn(events, k as nat)
    &&& forall|cx: int, cy: int|
        cur.in_bounds(cx, cy) && #[trigger] cur.occupant(cx, cy) is Some && !takes_turn(
            events,
            cur.occupant(cx, cy).unwrap(),
        ) ==> !visited_before(cy, cx, y, x)
}

/// A turn taken on cell (x, y) moves the step forward by one cell.
#[verifier::rlimit(40)]
proof fn lemma_step_turn(
    s0: SimView,
    events: Seq<ActEvent>,
    cur: SimView,
    acted: Set<u32>,
    y: int,
    x: int,
    e: ActEvent,
)
    requires
        step_progress(s0, events, cur, acted, y, x),
        e.position.x == x,
        e.position.y == y,
        turn_fits(cur, e),
        !acted.contains(e.id as u32),
    ensures
        step_progress(
            s0,
            events.push(e),
            cur.apply(e.position, e.action),
            acted.insert(e.id as u32),
            y,
            x + 1,
        ),
{
    let ev = events.push(e);
    let next = cur.apply(e.position, e.action);
    let acted2 = acted.insert(e.id as u32);
    cur.lemma_apply(e.position, e.action);
    assert(ev.drop_last() =~= events);
    assert(e.id < s0.next_id);
    assert(!takes_turn(events, e.id)) by {
        if takes_turn(events, e.id) {
            let i = choose|i: int| 0 <= i < events.len() && #[trigger] events[i].id == e.id;
            assert(acted.contains(e.id as u32));
        }
    }
    assert forall|i: int| 0 <= i < ev.len() implies turn_fits(
        run_events(s0, ev.take(i)),
        #[trigger] ev[i],
    ) by {
        if i < events.len() {
            assert(ev.take(i) =~= events.take(i));
        } else {
            assert(ev.take(i) =~= events);
        }
    }
    assert forall|k: u32| #[trigger] acted2.contains(k) <==> takes_turn(ev, k as nat) by {
        if acted2.contains(k) {
            if k == e.id as u32 {
                assert(ev[events.len() as int].id == k as nat);
            } else {
                assert(acted.contains(k));
                let i = choose|i: int| 0 <= i < events.len() && #[trigger] events[i].id == k as nat;
                assert(ev[i].id == k as nat);
            }
        }
        if takes_turn(ev, k as nat) {
            let i = choose|i: int| 0 <= i < ev.len() && #[trigger] ev[i].id == k as nat;
            if i < events.len() {
                assert(events[i].id == k as nat);
                assert(takes_turn(events, k as nat));
            }
        }
    }
    assert forall|cx: int, cy: int|
        next.in_bounds(cx, cy) && #[trigger] next.occupant(cx, cy) is Some && !takes_turn(
            ev,
            next.occupant(cx, cy).unwrap(),
        ) implies !visited_before(cy, cx, y, x + 1) by {
        let k = next.occupant(cx, cy).unwrap();
        assert(ev[events.len() as int].id == e.id);
        assert(k != e.id);
        assert(next.occupant(cx, cy) == cur.occupant(cx, cy));
        assert(!takes_turn(events, k)) by {
            if takes_turn(events, k) {
                let i = choose|i: int| 0 <= i < events.len() && #[trigger] events[i].id == k;
                assert(ev[i].id == k);
            }
        }
    }
    assert forall|i: int, j: int| 0 <= i < j < ev.len() implies #[trigger] ev[i].id
        != #[trigger] ev[j].id by {
        if j == events.len() {
            if ev[i].id == e.id {
                assert(events[i].id == e.id);
            }
        }
    }
}

/// A cell that is empty, or whose agent has already taken its turn, moves
/// the step forward by one cell without a turn.
proof fn lemma_step_skip(
    s0: SimView,
    events: Seq<ActEvent>,
    cur: SimView,
    acted: Set<u32>,
    y: int,
    x: int,
)
    requires
        step_progress(s0, events, cur, acted, y, x),
        cur.in_bounds(x, y),
        cur.occupant(x, y) matches Some(k) ==> acted.contains(k as u32),
    ensures
        step_progress(s0, events, cur, acted, y, x + 1),
{
    if let Some(k) = cur.occupant(x, y) {
        assert(k < s0.next_id);
        assert(acted.contains(k as u32));
        assert(takes_turn(events, k));
    }
}

/// Finishing a row moves the step to the start of the next row.
proof fn lemma_step_row(
    s0: SimView,
    events: Seq<ActEvent>,
    cur: SimView,
    acted: Set<u32>,
    y: int,
)
    requires
        step_progress(s0, events, cur, acted, y, s0.cols as int),
    ensures
        step_progress(s0, events, cur, acted, y + 1, 0),
{
}

/// Once every row is visited, the turns form a whole step.
proof fn lemma_step_done(s0: SimView, events: Seq<ActEvent>, cur: SimView, acted: Set<u32>)
    requires
        s0.wf(),
        step_progress(s0, events, cur, acted, s0.rows as int, 0),
    ensures
        is_step(s0, events, cur),
{
    assert forall|id: nat| id < s0.next_id implies #[trigger] takes_turn(events, id) by {
        assert(cur.on_grid(id));
        let (wx, wy) = choose|wx: int, wy: int|
            cur.in_bounds(wx, wy) && #[trigger] cur.occupant(wx, wy) == Some(id);
    }
}

impl Simulation {
    /// Lets the agent on `point` act, unless it already acted in this step,
    /// and carries out its decision.
    fn act_at(&mut self, point: Point2D, already_acted: &mut HashSet<u32>) -> (turn: Ghost<
        Option<ActEvent>,
    >)
        requires
            old(self).wf(),
            old(self)@.in_bounds(point.x as int, point.y as int),
        ensures
            final(self).wf(),
            (turn@ is None ==> {
                &&& final(self)@ == old(self)@
                &&& final(already_acted)@ == old(already_acted)@
                &&& old(self)@.occupant(point.x as int, point.y as int) matches Some(k)
                    ==> old(already_acted)@.contains(k as u32)
            }),
            (turn@ matches Some(e) ==> {
                &&& e.position == point
                &&& turn_fits(old(self)@, e)
                &&& !old(already_acted)@.contains(e.id as u32)
                &&& final(already_acted)@ == old(already_acted)@.insert(e.id as u32)
                &&& final(self)@ == old(self)@.apply(point, e.action)
            }),
    {
        broadcast use vstd::std_specs::hash::group_hash_axioms;

        proof {
            self.lemma_view_row(point.y as int);
        }
        if let Some(agent) = self.grid[point.y][point.x].as_ref() {
            if !already_acted.insert(agent.id.0) {
                return Ghost(None);
            }
            let input = AgentInput {
                position: point,
                taggable_positions: self.find_taggable_positions(agent.id, point),
                grid_view: self.create_grid_view(),
                is_tagger: is_agent(self.current_tagger, agent.id),
            };
            let ghost told = input@;
            let ghost id = agent.id@;
            proof {
                assert(told == self@.input_for(id, point));
                assert(self@.grid_view()[0].len() == self@.cols);
            }
            let action = agent.act(input);
            let _ = self.apply_action(point, action);
            Ghost(Some(ActEvent { id, position: point, input: told, action }))
        } else {
            Ghost(None)
        }
    }

    /// One step: every agent, visited row by row, decides what to do, and its
    /// decision is carried out before the next agent's turn. An agent acts at
    /// most once, even when it moves into a cell that is visited later.
    fn tick(&mut self) -> (events: Ghost<Seq<ActEvent>>)
        requires
            old(self).wf(),
        ensures
            final(self).wf(),
            is_step(old(self)@, events@, final(self)@),
            final(self)@.rows == old(self)@.rows,
            final(self)@.cols == old(self)@.cols,
            final(self)@.next_id == old(self)@.next_id,
            forall|id: nat| #[trigger] final(self)@.on_grid(id) <==> old(self)@.on_grid(id),
    {
        broadcast use vstd::std_specs::hash::group_hash_axioms;

        let mut already_acted: HashSet<u32> = HashSet::new();
        let ghost s0 = self@;
        let ghost mut events: Seq<ActEvent> = Seq::empty();
        let rows = self.rows;
        let cols = self.cols;
        proof {
            assert(run_events(s0, events) == s0);
        }
        let mut y: usize = 0;
        while y < rows
            invariant
                self.wf(),
                s0.wf(),
                self.rows == rows,
                self.cols == cols,
                s0.rows == rows,
                s0.cols == cols,
                y <= rows,
                step_progress(s0, events, self@, already_acted@, y as int, 0),
            decreases rows - y,
        {
            let mut x: usize = 0;
            while x < cols
                invariant
                    self.wf(),
                    s0.wf(),
                    self.rows == rows,
                    self.cols == cols,
                    s0.rows == rows,
                    s0.cols == cols,
                    y < rows,
                    x <= cols,
                    step_progress(s0, events, self@, already_acted@, y as int, x as int),
                decreases cols - x,
            {
                let point = Point2D { x, y };
                let ghost before = self@;
                let ghost acted_before = already_acted@;
                let turn = self.act_at(point, &mut already_acted);
                proof {
                    match turn@ {
                        Some(e) => {
                            lemma_step_turn(s0, events, before, acted_before, y as int, x as int, e);
                            events = events.push(e);
                        },
                        None => {
                            lemma_step_skip(s0, events, before, acted_before, y as int, x as int);
                        },
                    }
                }
                x = x + 1;
            }
            proof {
                lemma_step_row(s0, events, self@, already_acted@, y as int);
            }
            y = y + 1;
        }
        proof {
            lemma_step_done(s0, events, self@, already_acted@);
            s0.lemma_on_grid_exactly_placed();
            self@.lemma_on_grid_exactly_placed();
        }
        Ghost(events)
    }
}

impl Simulation {
    /// Advances the simulation by one step (see `is_step`).
    pub fn step(&mut self)
        requires
            old(self).wf(),
        ensures
            final(self).wf(),
            exists|events: Seq<ActEvent>| is_step(old(self)@, events, final(self)@),
            final(self)@.rows == old(self)@.rows,
            final(self)@.cols == old(self)@.cols,
            final(self)@.next_id == old(self)@.next_id,
            forall|id: nat| #[trigger] final(self)@.on_grid(id) <==> old(self)@.on_grid(id),
    {
        let events = self.tick();
        proof {
            assert(is_step(old(self)@, events@, self@));
        }
    }

    /// Makes an agent drawn at random the tagger; nothing happens when no
    /// agent was placed.
    fn choose_random_tagger(&mut self)
        requires
            old(self).wf(),
        ensures
            final(self).wf(),
            old(self)@.next_id == 0 ==> final(self)@ == old(self)@,
            old(self)@.next_id > 0 ==> {
                &&& final(self)@ == (SimView { current_tagger: final(self)@.current_tagger, ..old(self)@ })
                &&& final(self)@.current_tagger matches Some(t) && t < old(self)@.next_id
            },
    {
        // Avoid panicking by not choosing a tagger if there are no agents
        if self.next_agent_id == 0 {
            return;
        }
        let random_agent = random_below(self.next_agent_id as usize);
        self.set_current_tagger(Some(AgentId(random_agent as u32)));
    }

    /// Makes an agent drawn at random the tagger, unless there is a tagger
    /// already or no agent was placed.
    pub fn ensure_tagger_chosen(&mut self)
        requires
            old(self).wf(),
        ensures
            final(self).wf(),
            old(self)@.current_tagger is Some || old(self)@.next_id == 0 ==> final(self)@ == old(
                self,
            )@,
            old(self)@.current_tagger is None && old(self)@.next_id > 0 ==> {
                &&& final(self)@ == (SimView { current_tagger: final(self)@.current_tagger, ..old(self)@ })
                &&& final(self)@.current_tagger matches Some(t) && t < old(self)@.next_id
            },
    {
        if self.current_tagger.is_none() {
            self.choose_random_tagger();
        }
    }

    /// How the cell (x, y) is drawn: `T` for the tagger, `x` for any other
    /// agent, `.` for an empty cell.
    pub fn cell_symbol(&self, x: usize, y: usize) -> (c: char)
        requires
            self.wf(),
            self@.in_bounds(x as int, y as int),
        ensures
            c == match self@.occupant(x as int, y as int) {
                None => '.',
                Some(id) => if self@.current_tagger == Some(id) {
                    'T'
                } else {
                    'x'
                },
            },
    {
        proof {
            self.lemma_view_row(y as int);
        }
        match &self.grid[y][x] {
            Some(agent) => if is_agent(self.current_tagger, agent.id) {
                'T'
            } else {
                'x'
            },
            None => '.',
        }
    }
}
} // verus!

//! An agent with a strategy: the tagger tags when it can and otherwise chases
//! the nearest agent; everyone else runs away from the tagger.
use vstd::prelude::*;

use crate::simulation::{distance, visited_before, Agent, AgentAction, AgentInput, CellState, InputView, Point2D};

verus! {

/// The distance from `p`.
pub open spec fn distance_from(p: Point2D) -> spec_fn(Point2D) -> int {
    |q: Point2D| distance(p, q)
}

/// The distance to `p`.
pub open spec fn distance_to(p: Point2D) -> spec_fn(Point2D) -> int {
    |q: Point2D| distance(q, p)
}

/// A cell of the grid `g`, as wide as its first row, that is empty.
pub open spec fn is_free_cell(g: Seq<Seq<CellState>>) -> spec_fn(Point2D) -> bool {
    |q: Point2D| q.x < g[0].len() && q.y < g.len() && g[q.y as int][q.x as int] == CellState::Empty
}

/// The neighbours of `p` that are free, in the order left, right, up, down.
pub open spec fn valid_moves(g: Seq<Seq<CellState>>, p: Point2D) -> Seq<Point2D> {
    p.neighbors_where(4, is_free_cell(g))
}

/// The cells among the first `n` of `row` (row number `y`) that hold `state`,
/// left to right.
pub open spec fn row_cells_with(row: Seq<CellState>, y: int, n: nat, state: CellState) -> Seq<
    Point2D,
>
    decreases n,
{
    if n == 0 {
        Seq::empty()
    } else {
        let prev = row_cells_with(row, y, (n - 1) as nat, state);
        if row[n - 1] == state {
            prev.push(Point2D { x: (n - 1) as usize, y: y as usize })
        } else {
            prev
        }
    }
}

/// The cells of the first `n` rows of `g` that hold `state`, row by row.
pub open spec fn cells_with(g: Seq<Seq<CellState>>, n: nat, state: CellState) -> Seq<Point2D>
    decreases n,
{
    if n == 0 {
        Seq::empty()
    } else {
        cells_with(g, (n - 1) as nat, state) + row_cells_with(
            g[n - 1],
            n - 1,
            g[n - 1].len(),
            state,
        )
    }
}

/// The first element of `s` with the least key.
pub open spec fn first_min_by(s: Seq<Point2D>, key: spec_fn(Point2D) -> int) -> Option<Point2D>
    decreases s.len(),
{
    if s.len() == 0 {
        None
    } else {
        match first_min_by(s.drop_last(), key) {
            None => Some(s.last()),
            Some(m) => if key(s.last()) < key(m) {
                Some(s.last())
            } else {
                Some(m)
            },
        }
    }
}

/// The last element of `s` with the greatest key.
pub open spec fn last_max_by(s: Seq<Point2D>, key: spec_fn(Point2D) -> int) -> Option<Point2D>
    decreases s.len(),
{
    if s.len() == 0 {
        None
    } else {
        match last_max_by(s.drop_last(), key) {
            None => Some(s.last()),
            Some(m) => if key(s.last()) >= key(m) {
                Some(s.last())
            } else {
                Some(m)
            },
        }
    }
}

pub open spec fn last_of(s: Seq<Point2D>) -> Option<Point2D> {
    if s.len() == 0 {
        None
    } else {
        Some(s.last())
    }
}

/// What a competent agent does. The tagger tags its first taggable position
/// if it has one; otherwise it takes the free neighbouring cell closest to
/// the nearest agent. Any other agent takes the free neighbouring cell
/// farthest from the tagger. When there is no such cell, or nobody to chase
/// or flee, it stays.
pub open spec fn competent_action(input: InputView) -> AgentAction {
    let g = input.grid_view;
    let p = input.position;
    let taggable = input.taggable_positions;
    if input.is_tagger && taggable.len() > 0 {
        AgentAction::Tag(taggable[0])
    } else {
        let moves = valid_moves(g, p);
        if input.is_tagger {
            match first_min_by(cells_with(g, g.len(), CellState::Agent), distance_from(p)) {
                Some(target) => match first_min_by(moves, distance_to(target)) {
                    Some(m) => AgentAction::Move(m),
                    None => AgentAction::Stay,
                },
                None => AgentAction::Stay,
            }
        } else {
            match last_of(cells_with(g, g.len(), CellState::Tagger)) {
                Some(tp) => match last_max_by(moves, distance_to(tp)) {
                    Some(m) => AgentAction::Move(m),
                    None => AgentAction::Stay,
                },
                None => AgentAction::Stay,
            }
        }
    }
}

/// The grid is non-empty and rectangular, and its width and height together
/// fit in a `usize`.
pub open spec fn is_rectangular(g: Seq<Seq<CellState>>) -> bool {
    &&& g.len() > 0
    &&& forall|i: int| 0 <= i < g.len() ==> #[trigger] g[i].len() == g[0].len()
    &&& g.len() + g[0].len() <= usize::MAX
}

/// A cell inside the grid `g`.
pub open spec fn inside(g: Seq<Seq<CellState>>, q: Point2D) -> bool {
    q.y < g.len() && q.x < g[0].len()
}

pub struct CompetentAgent;

impl Agent for CompetentAgent {
    open spec fn chooses(&self, input: InputView, action: AgentAction) -> bool {
        action == competent_action(input)
    }

    fn act(&self, input: AgentInput) -> (action: AgentAction)
        ensures
            action == competent_action(input@),
    {
        let ghost g = input@.grid_view;
        let position = input.position;
        let taggable_positions = input.taggable_positions;
        let grid_view = input.grid_view;
        let is_tagger = input.is_tagger;
        proof {
            assert(grid_view@.map_values(|row: Vec<CellState>| row@) == g);
        }
        // If we are the tagger and have targets in range, grab the first
        if is_tagger && taggable_positions.len() > 0 {
            return AgentAction::Tag(taggable_positions[0]);
        }
        let possible_targets = find_possible_targets(&grid_view);
        let valid_moves = find_valid_moves(&grid_view, position);
        proof {
            lemma_cells_with_inside(g, g.len(), CellState::Agent);
            lemma_cells_with_inside(g, g.len(), CellState::Tagger);
            lemma_valid_moves_inside(g, position);
        }
        proof {
            assert forall|i: int| 0 <= i < possible_targets@.len() implies distance(
                position,
                #[trigger] possible_targets@[i],
            ) <= usize::MAX by {
                lemma_cells_with_inside(g, g.len(), CellState::Agent);
                assert(inside(g, possible_targets@[i]));
            }
        }
        if is_tagger {
            // If we are the tagger and have no taggable positions, chase nearest possible target
            if let Some(target) = find_nearest_target(&possible_targets, position) {
                proof {
                    lemma_first_min_by_in(possible_targets@, distance_from(position));
                    assert forall|i: int| 0 <= i < valid_moves@.len() implies distance(
                        #[trigger] valid_moves@[i],
                        target,
                    ) <= usize::MAX by {
                        lemma_distance_fits(g, valid_moves@[i], target);
                    }
                }
                // Find the best move towards the target
                if let Some(best_move_towards_target) = nearest_to(&valid_moves, target) {
                    return AgentAction::Move(best_move_towards_target);
                } else {
                    // No best move towards target exist, stay
                    return AgentAction::Stay;
                }
            }
        } else if let Some(tagger_position) = find_tagger_position(&grid_view) {
            proof {
                let ts = cells_with(g, g.len(), CellState::Tagger);
                assert(inside(g, ts[ts.len() - 1]));
                assert forall|i: int| 0 <= i < valid_moves@.len() implies distance(
                    #[trigger] valid_moves@[i],
                    tagger_position,
                ) <= usize::MAX by {
                    lemma_distance_fits(g, valid_moves@[i], tagger_position);
                }
            }
            // Find the best move away from the tagger
            if let Some(best_move_away_from_tagger) = farthest_from(&valid_moves, tagger_position) {
                return AgentAction::Move(best_move_away_from_tagger);
            } else {
                // No best move away from tagger exist, stay
                return AgentAction::Stay;
            }
        }
        // No valid moves exist, stay
        AgentAction::Stay
    }
}

/// Every cell listed by `cells_with` lies inside the grid.
proof fn lemma_cells_with_inside(g: Seq<Seq<CellState>>, n: nat, state: CellState)
    requires
        is_rectangular(g),
        n <= g.len(),
    ensures
        forall|i: int|
            0 <= i < cells_with(g, n, state).len() ==> inside(g, #[trigger] cells_with(g, n, state)[i]),
    decreases n,
{
    if n > 0 {
        lemma_cells_with_inside(g, (n - 1) as nat, state);
        lemma_row_cells_with_inside(g[n - 1], n - 1, g[n - 1].len(), state);
        let prev = cells_with(g, (n - 1) as nat, state);
        let row = row_cells_with(g[n - 1], n - 1, g[n - 1].len(), state);
        assert forall|i: int| 0 <= i < cells_with(g, n, state).len() implies inside(
            g,
            #[trigger] cells_with(g, n, state)[i],
        ) by {
            if i >= prev.len() {
                assert(cells_with(g, n, state)[i] == row[i - prev.len()]);
            } else {
                assert(cells_with(g, n, state)[i] == prev[i]);
            }
        }
    }
}

proof fn lemma_row_cells_with_inside(row: Seq<CellState>, y: int, n: nat, state: CellState)
    requires
        0 <= y <= usize::MAX,
        n <= row.len(),
        n <= usize::MAX,
    ensures
        forall|i: int|
            0 <= i < row_cells_with(row, y, n, state).len() ==> {
                let q = #[trigger] row_cells_with(row, y, n, state)[i];
                q.y == y && q.x < n
            },
    decreases n,
{
    if n > 0 {
        lemma_row_cells_with_inside(row, y, (n - 1) as nat, state);
        let prev = row_cells_with(row, y, (n - 1) as nat, state);
        let cur = row_cells_with(row, y, n, state);
        assert forall|i: int| 0 <= i < cur.len() implies {
            let q = #[trigger] cur[i];
            q.y == y && q.x < n
        } by {
            if i < prev.len() {
                assert(cur[i] == prev[i]);
            }
        }
    }
}

/// The first element with the least key is an element.
pub proof fn lemma_first_min_by_in(s: Seq<Point2D>, key: spec_fn(Point2D) -> int)
    ensures
        first_min_by(s, key) matches Some(m) ==> s.contains(m),
    decreases s.len(),
{
    if s.len() > 0 {
        lemma_first_min_by_in(s.drop_last(), key);
        if let Some(m) = first_min_by(s.drop_last(), key) {
            let i = choose|i: int| 0 <= i < s.drop_last().len() && s.drop_last()[i] == m;
            assert(s[i] == m);
        }
        assert(s[s.len() - 1] == s.last());
    }
}

/// The last element with the greatest key is an element.
pub proof fn lemma_last_max_by_in(s: Seq<Point2D>, key: spec_fn(Point2D) -> int)
    ensures
        last_max_by(s, key) matches Some(m) ==> s.contains(m),
    decreases s.len(),
{
    if s.len() > 0 {
        lemma_last_max_by_in(s.drop_last(), key);
        if let Some(m) = last_max_by(s.drop_last(), key) {
            let i = choose|i: int| 0 <= i < s.drop_last().len() && s.drop_last()[i] == m;
            assert(s[i] == m);
        }
        assert(s[s.len() - 1] == s.last());
    }
}

/// The first element with the least key has a key no greater than any
/// other element's, and there is one whenever `s` is not empty.
pub proof fn lemma_first_min_by_least(s: Seq<Point2D>, key: spec_fn(Point2D) -> int)
    ensures
        s.len() > 0 ==> first_min_by(s, key) is Some,
        first_min_by(s, key) matches Some(m) ==> forall|i: int|
            0 <= i < s.len() ==> key(m) <= key(#[trigger] s[i]),
    decreases s.len(),
{
    if s.len() > 0 {
        let prev = s.drop_last();
        lemma_first_min_by_least(prev, key);
        if let Some(m) = first_min_by(s, key) {
            assert forall|i: int| 0 <= i < s.len() implies key(m) <= key(#[trigger] s[i]) by {
                if i < s.len() - 1 {
                    assert(s[i] == prev[i]);
                }
            }
        }
    }
}

/// The last element with the greatest key has a key no smaller than any
/// other element's, and there is one whenever `s` is not empty.
pub proof fn lemma_last_max_by_greatest(s: Seq<Point2D>, key: spec_fn(Point2D) -> int)
    ensures
        s.len() > 0 ==> last_max_by(s, key) is Some,
        last_max_by(s, key) matches Some(m) ==> forall|i: int|
            0 <= i < s.len() ==> key(m) >= key(#[trigger] s[i]),
    decreases s.len(),
{
    if s.len() > 0 {
        let prev = s.drop_last();
        lemma_last_max_by_greatest(prev, key);
        if let Some(m) = last_max_by(s, key) {
            assert forall|i: int| 0 <= i < s.len() implies key(m) >= key(#[trigger] s[i]) by {
                if i < s.len() - 1 {
                    assert(s[i] == prev[i]);
                }
            }
        }
    }
}

/// The cells of a row listed by `row_cells_with` are exactly the cells of
/// the first `n` that hold `state`.
proof fn lemma_row_cells_with_exact(row: Seq<CellState>, y: int, n: nat, state: CellState)
    requires
        0 <= y <= usize::MAX,
        n <= row.len(),
        n <= usize::MAX + 1,
    ensures
        forall|i: int|
            0 <= i < row_cells_with(row, y, n, state).len() ==> {
                let q = #[trigger] row_cells_with(row, y, n, state)[i];
                q.y == y && q.x < n && row[q.x as int] == state
            },
        forall|x: usize|
            x < n && row[x as int] == state ==> #[trigger] row_cells_with(row, y, n, state).contains(
                Point2D { x, y: y as usize },
            ),
    decreases n,
{
    if n > 0 {
        lemma_row_cells_with_exact(row, y, (n - 1) as nat, state);
        let prev = row_cells_with(row, y, (n - 1) as nat, state);
        let cur = row_cells_with(row, y, n, state);
        assert forall|i: int| 0 <= i < cur.len() implies {
            let q = #[trigger] cur[i];
            q.y == y && q.x < n && row[q.x as int] == state
        } by {
            if i < prev.len() {
                assert(cur[i] == prev[i]);
            }
        }
        assert forall|x: usize| x < n && row[x as int] == state implies #[trigger] cur.contains(
            Point2D { x, y: y as usize },
        ) by {
            if x < n - 1 {
                assert(prev.contains(Point2D { x, y: y as usize }));
                let i = choose|i: int| 0 <= i < prev.len() && prev[i] == Point2D { x, y: y as usize };
                assert(cur[i] == prev[i]);
            } else {
                assert(cur[cur.len() - 1] == Point2D { x, y: y as usize });
            }
        }
    }
}

/// The cells listed by `cells_with` are exactly the cells of the first `n`
/// rows that hold `state`.
pub proof fn lemma_cells_with_exact(g: Seq<Seq<CellState>>, n: nat, state: CellState)
    requires
        n <= g.len(),
        g.len() <= usize::MAX,
        forall|i: int| 0 <= i < g.len() ==> #[trigger] g[i].len() <= usize::MAX,
    ensures
        forall|i: int|
            0 <= i < cells_with(g, n, state).len() ==> {
                let q = #[trigger] cells_with(g, n, state)[i];
                q.y < n && q.x < g[q.y as int].len() && g[q.y as int][q.x as int] == state
            },
        forall|t: Point2D|
            t.y < n && t.x < g[t.y as int].len() && g[t.y as int][t.x as int] == state
                ==> #[trigger] cells_with(g, n, state).contains(t),
    decreases n,
{
    if n > 0 {
        lemma_cells_with_exact(g, (n - 1) as nat, state);
        let y = n - 1;
        lemma_row_cells_with_exact(g[y], y, g[y].len(), state);
        let prev = cells_with(g, (n - 1) as nat, state);
        let row = row_cells_with(g[y], y, g[y].len(), state);
        let cur = cells_with(g, n, state);
        assert(cur == prev + row);
        assert forall|i: int| 0 <= i < cur.len() implies {
            let q = #[trigger] cur[i];
            q.y < n && q.x < g[q.y as int].len() && g[q.y as int][q.x as int] == state
        } by {
            if i < prev.len() {
                assert(cur[i] == prev[i]);
            } else {
                assert(cur[i] == row[i - prev.len()]);
            }
        }
        assert forall|t: Point2D|
            t.y < n && t.x < g[t.y as int].len() && g[t.y as int][t.x as int] == state
                implies #[trigger] cur.contains(t) by {
            if t.y < n - 1 {
                assert(prev.contains(t));
                let i = choose|i: int| 0 <= i < prev.len() && prev[i] == t;
                assert(cur[i] == prev[i]);
            } else {
                assert(row.contains(Point2D { x: t.x, y: y as usize }));
                let i = choose|i: int| 0 <= i < row.len() && row[i] == Point2D { x: t.x, y: y as usize };
                assert(cur[prev.len() + i] == row[i]);
            }
        }
    }
}

/// The cells of a row listed by `row_cells_with` come left to right.
proof fn lemma_row_cells_with_sorted(row: Seq<CellState>, y: int, n: nat, state: CellState)
    requires
        0 <= y <= usize::MAX,
        n <= row.len(),
        n <= usize::MAX + 1,
    ensures
        forall|i: int, j: int|
            0 <= i < j < row_cells_with(row, y, n, state).len() ==> (#[trigger] row_cells_with(
                row,
                y,
                n,
                state,
            )[i]).x < (#[trigger] row_cells_with(row, y, n, state)[j]).x,
    decreases n,
{
    if n > 0 {
        lemma_row_cells_with_sorted(row, y, (n - 1) as nat, state);
        lemma_row_cells_with_exact(row, y, (n - 1) as nat, state);
        let prev = row_cells_with(row, y, (n - 1) as nat, state);
        let cur = row_cells_with(row, y, n, state);
        assert forall|i: int, j: int| 0 <= i < j < cur.len() implies (#[trigger] cur[i]).x < (
        #[trigger] cur[j]).x by {
            assert(cur[i] == prev[i]);
            if j < prev.len() {
                assert(cur[j] == prev[j]);
            }
        }
    }
}

/// The cells listed by `cells_with` come row by row, left to right.
pub proof fn lemma_cells_with_sorted(g: Seq<Seq<CellState>>, n: nat, state: CellState)
    requires
        n <= g.len(),
        g.len() <= usize::MAX,
        forall|i: int| 0 <= i < g.len() ==> #[trigger] g[i].len() <= usize::MAX,
    ensures
        forall|i: int, j: int|
            0 <= i < j < cells_with(g, n, state).len() ==> visited_before(
                (#[trigger] cells_with(g, n, state)[i]).y as int,
                cells_with(g, n, state)[i].x as int,
                (#[trigger] cells_with(g, n, state)[j]).y as int,
                cells_with(g, n, state)[j].x as int,
            ),
    decreases n,
{
    if n > 0 {
        lemma_cells_with_sorted(g, (n - 1) as nat, state);
        lemma_cells_with_exact(g, (n - 1) as nat, state);
        let y = n - 1;
        lemma_row_cells_with_sorted(g[y], y, g[y].len(), state);
        lemma_row_cells_with_exact(g[y], y, g[y].len(), state);
        let prev = cells_with(g, (n - 1) as nat, state);
        let row = row_cells_with(g[y], y, g[y].len(), state);
        let cur = cells_with(g, n, state);
        assert(cur == prev + row);
        assert forall|i: int, j: int| 0 <= i < j < cur.len() implies visited_before(
            (#[trigger] cur[i]).y as int,
            cur[i].x as int,
            (#[trigger] cur[j]).y as int,
            cur[j].x as int,
        ) by {
            if j < prev.len() {
                assert(cur[i] == prev[i]);
                assert(cur[j] == prev[j]);
            } else if i < prev.len() {
                assert(cur[i] == prev[i]);
                assert(cur[j] == row[j - prev.len()]);
            } else {
                assert(cur[i] == row[i - prev.len()]);
                assert(cur[j] == row[j - prev.len()]);
            }
        }
    }
}

/// Every valid move lies inside the grid.
proof fn lemma_valid_moves_inside(g: Seq<Seq<CellState>>, p: Point2D)
    ensures
        forall|i: int|
            0 <= i < valid_moves(g, p).len() ==> inside(g, #[trigger] valid_moves(g, p)[i]),
{
    Point2D::lemma_neighbors_where(p, 4, is_free_cell(g));
    assert forall|i: int| 0 <= i < valid_moves(g, p).len() implies inside(
        g,
        #[trigger] valid_moves(g, p)[i],
    ) by {
        assert((is_free_cell(g))(valid_moves(g, p)[i]));
    }
}

/// The distance between two cells inside a grid fits in a `usize`.
proof fn lemma_distance_fits(g: Seq<Seq<CellState>>, a: Point2D, b: Point2D)
    requires
        is_rectangular(g),
        inside(g, a),
        inside(g, b),
    ensures
        0 <= distance(a, b) <= usize::MAX,
{
}

/// The neighbours of `p` that are empty cells of the grid, in the order left,
/// right, up, down.
fn find_valid_moves(grid_view: &Vec<Vec<CellState>>, p: Point2D) -> (r: Vec<Point2D>)
    requires
        is_rectangular(grid_view@.map_values(|row: Vec<CellState>| row@)),
    ensures
        r@ == valid_moves(grid_view@.map_values(|row: Vec<CellState>| row@), p),
{
    let ghost g = grid_view@.map_values(|row: Vec<CellState>| row@);
    // This could panic if the simulation grid is empty
    let row_count = grid_view.len();
    let col_count = grid_view[0].len();
    let mut out: Vec<Point2D> = Vec::new();
    let mut k: usize = 0;
    while k < 4
        invariant
            g == grid_view@.map_values(|row: Vec<CellState>| row@),
            is_rectangular(g),
            row_count == g.len(),
            col_count == g[0].len(),
            k <= 4,
            out@ == p.neighbors_where(k as nat, is_free_cell(g)),
        decreases 4 - k,
    {
        match p.neighbor_at(k) {
            Some(point) => {
                // Keep the positions inside the grid that no agent occupies
                if point.x < col_count && point.y < row_count {
                    assert(g[point.y as int] == grid_view@[point.y as int]@);
                    if grid_view[point.y][point.x] == CellState::Empty {
                        out.push(point);
                    }
                }
            },
            None => {},
        }
        k = k + 1;
    }
    out
}

/// The Manhattan distance between two cells.
fn manhattan_distance(a: Point2D, b: Point2D) -> (r: usize)
    requires
        distance(a, b) <= usize::MAX,
    ensures
        r == distance(a, b),
{
    let dx = if a.x >= b.x {
        a.x - b.x
    } else {
        b.x - a.x
    };
    let dy = if a.y >= b.y {
        a.y - b.y
    } else {
        b.y - a.y
    };
    dx + dy
}

/// The cells that hold an agent other than the tagger and the immune one,
/// row by row.
fn find_possible_targets(grid_view: &Vec<Vec<CellState>>) -> (r: Vec<Point2D>)
    ensures
        r@ == cells_with(
            grid_view@.map_values(|row: Vec<CellState>| row@),
            grid_view@.len(),
            CellState::Agent,
        ),
{
    find_cells_with(grid_view, CellState::Agent)
}

/// The cells that hold `state`, row by row.
fn find_cells_with(grid_view: &Vec<Vec<CellState>>, state: CellState) -> (r: Vec<Point2D>)
    ensures
        r@ == cells_with(grid_view@.map_values(|row: Vec<CellState>| row@), grid_view@.len(), state),
{
    let ghost g = grid_view@.map_values(|row: Vec<CellState>| row@);
    let mut positions: Vec<Point2D> = Vec::new();
    let mut y: usize = 0;
    while y < grid_view.len()
        invariant
            g == grid_view@.map_values(|row: Vec<CellState>| row@),
            y <= grid_view@.len(),
            positions@ == cells_with(g, y as nat, state),
        decreases grid_view@.len() - y,
    {
        let row = &grid_view[y];
        let ghost before = positions@;
        let mut x: usize = 0;
        while x < row.len()
            invariant
                g == grid_view@.map_values(|row: Vec<CellState>| row@),
                y < grid_view@.len(),
                row@ == g[y as int],
                x <= row@.len(),
                positions@ == before + row_cells_with(g[y as int], y as int, x as nat, state),
            decreases row@.len() - x,
        {
            if row[x] == state {
                positions.push(Point2D { x, y });
            }
            x = x + 1;
            assert(positions@ =~= before + row_cells_with(g[y as int], y as int, x as nat, state));
        }
        y = y + 1;
    }
    positions
}

/// The first of `possible_targets` nearest to `position`.
fn find_nearest_target(possible_targets: &Vec<Point2D>, position: Point2D) -> (r: Option<Point2D>)
    requires
        forall|i: int|
            0 <= i < possible_targets@.len() ==> distance(position, #[trigger] possible_targets@[i])
                <= usize::MAX,
    ensures
        r == first_min_by(possible_targets@, distance_from(position)),
{
    let ghost s = possible_targets@;
    let ghost key = distance_from(position);
    let mut best: Option<(Point2D, usize)> = None;
    let mut i: usize = 0;
    while i < possible_targets.len()
        invariant
            s == possible_targets@,
            key == distance_from(position),
            forall|j: int| 0 <= j < s.len() ==> distance(position, #[trigger] s[j]) <= usize::MAX,
            i <= s.len(),
            match best {
                None => first_min_by(s.take(i as int), key) is None,
                Some((m, d)) => first_min_by(s.take(i as int), key) == Some(m) && d == key(m),
            },
        decreases s.len() - i,
    {
        let candidate = possible_targets[i];
        let d = manhattan_distance(position, candidate);
        assert(s.take(i + 1).drop_last() =~= s.take(i as int));
        match best {
            None => {
                best = Some((candidate, d));
            },
            Some((_, best_d)) => {
                if d < best_d {
                    best = Some((candidate, d));
                }
            },
        }
        i = i + 1;
    }
    assert(s.take(s.len() as int) =~= s);
    match best {
        Some((m, _)) => Some(m),
        None => None,
    }
}

/// The first of `moves` nearest to `target`.
fn nearest_to(moves: &Vec<Point2D>, target: Point2D) -> (r: Option<Point2D>)
    requires
        forall|i: int| 0 <= i < moves@.len() ==> distance(#[trigger] moves@[i], target) <= usize::MAX,
    ensures
        r == first_min_by(moves@, distance_to(target)),
{
    let ghost s = moves@;
    let ghost key = distance_to(target);
    let mut best: Option<(Point2D, usize)> = None;
    let mut i: usize = 0;
    while i < moves.len()
        invariant
            s == moves@,
            key == distance_to(target),
            forall|j: int| 0 <= j < s.len() ==> distance(#[trigger] s[j], target) <= usize::MAX,
            i <= s.len(),
            match best {
                None => first_min_by(s.take(i as int), key) is None,
                Some((m, d)) => first_min_by(s.take(i as int), key) == Some(m) && d == key(m),
            },
        decreases s.len() - i,
    {
        let candidate = moves[i];
        let d = manhattan_distance(candidate, target);
        assert(s.take(i + 1).drop_last() =~= s.take(i as int));
        match best {
            None => {
                best = Some((candidate, d));
            },
            Some((_, best_d)) => {
                if d < best_d {
                    best = Some((candidate, d));
                }
            },
        }
        i = i + 1;
    }
    assert(s.take(s.len() as int) =~= s);
    match best {
        Some((m, _)) => Some(m),
        None => None,
    }
}

/// The last of `moves` farthest from `from`.
fn farthest_from(moves: &Vec<Point2D>, from: Point2D) -> (r: Option<Point2D>)
    requires
        forall|i: int| 0 <= i < moves@.len() ==> distance(#[trigger] moves@[i], from) <= usize::MAX,
    ensures
        r == last_max_by(moves@, distance_to(from)),
{
    let ghost s = moves@;
    let ghost key = distance_to(from);
    let mut best: Option<(Point2D, usize)> = None;
    let mut i: usize = 0;
    while i < moves.len()
        invariant
            s == moves@,
            key == distance_to(from),
            forall|j: int| 0 <= j < s.len() ==> distance(#[trigger] s[j], from) <= usize::MAX,
            i <= s.len(),
            match best {
                None => last_max_by(s.take(i as int), key) is None,
                Some((m, d)) => last_max_by(s.take(i as int), key) == Some(m) && d == key(m),
            },
        decreases s.len() - i,
    {
        let candidate = moves[i];
        let d = manhattan_distance(candidate, from);
        assert(s.take(i + 1).drop_last() =~= s.take(i as int));
        match best {
            None => {
                best = Some((candidate, d));
            },
            Some((_, best_d)) => {
                if d >= best_d {
                    best = Some((candidate, d));
                }
            },
        }
        i = i + 1;
    }
    assert(s.take(s.len() as int) =~= s);
    match best {
        Some((m, _)) => Some(m),
        None => None,
    }
}

/// The last cell, row by row, that holds the tagger.
fn find_tagger_position(grid_view: &Vec<Vec<CellState>>) -> (r: Option<Point2D>)
    ensures
        r == last_of(
            cells_with(
                grid_view@.map_values(|row: Vec<CellState>| row@),
                grid_view@.len(),
                CellState::Tagger,
            ),
        ),
{
    let ghost g = grid_view@.map_values(|row: Vec<CellState>| row@);
    let mut tagger_position: Option<Point2D> = None;
    let mut y: usize = 0;
    while y < grid_view.len()
        invariant
            g == grid_view@.map_values(|row: Vec<CellState>| row@),
            y <= grid_view@.len(),
            tagger_position == last_of(cells_with(g, y as nat, CellState::Tagger)),
        decreases grid_view@.len() - y,
    {
        let row = &grid_view[y];
        let ghost before = cells_with(g, y as nat, CellState::Tagger);
        let mut x: usize = 0;
        while x < row.len()
            invariant
                g == grid_view@.map_values(|row: Vec<CellState>| row@),
                y < grid_view@.len(),
                row@ == g[y as int],
                x <= row@.len(),
                before == cells_with(g, y as nat, CellState::Tagger),
                tagger_position == last_of(
                    before + row_cells_with(g[y as int], y as int, x as nat, CellState::Tagger),
                ),
            decreases row@.len() - x,
        {
            if row[x] == CellState::Tagger {
                tagger_position = Some(Point2D { x, y });
            }
            x = x + 1;
        }
        y = y + 1;
    }
    tagger_position
}

} // verus!

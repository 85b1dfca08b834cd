//! Properties of the simulation that hold across operations.
use vstd::prelude::*;

use crate::competent_agent::{
    cells_with, competent_action, distance_from, distance_to, first_min_by, inside, is_free_cell,
    last_max_by, last_of, lemma_cells_with_exact, lemma_cells_with_sorted, lemma_first_min_by_in,
    lemma_first_min_by_least, lemma_last_max_by_greatest, lemma_last_max_by_in, valid_moves,
};
use crate::simulation::{
    distance, is_step, run_events, visited_before, turn_fits, takes_turn, ActEvent, AgentAction, AgentEntry,
    CellState, InputView, Point2D, SimView, SimulationError,
};

verus! {

/// The states along a step are well formed and keep the grid and the agents.
proof fn lemma_step_prefix(s0: SimView, events: Seq<ActEvent>, result: SimView, i: int)
    requires
        s0.wf(),
        is_step(s0, events, result),
        0 <= i <= events.len(),
    ensures
        run_events(s0, events.take(i)).wf(),
        run_events(s0, events.take(i)).rows == s0.rows,
        run_events(s0, events.take(i)).cols == s0.cols,
        run_events(s0, events.take(i)).next_id == s0.next_id,
    decreases i,
{
    if i == 0 {
        assert(events.take(0) =~= Seq::<ActEvent>::empty());
    } else {
        lemma_step_prefix(s0, events, result, i - 1);
        let prev = run_events(s0, events.take(i - 1));
        assert(events.take(i).drop_last() =~= events.take(i - 1));
        assert(events.take(i).last() == events[i - 1]);
        assert(turn_fits(prev, events[i - 1]));
        prev.lemma_apply(events[i - 1].position, events[i - 1].action);
    }
}

/// A step neither adds nor removes agents: afterwards every placed agent
/// still stands on exactly one cell of a grid of the same size, and no
/// identity was handed out.
pub proof fn lemma_step_keeps_agents(s0: SimView, events: Seq<ActEvent>, s1: SimView)
    requires
        s0.wf(),
        is_step(s0, events, s1),
    ensures
        s1.wf(),
        s1.rows == s0.rows,
        s1.cols == s0.cols,
        s1.next_id == s0.next_id,
{
    lemma_step_prefix(s0, events, s1, events.len() as int);
    assert(events.take(events.len() as int) =~= events);
}

/// Within a step every agent acts exactly once: there are as many turns as
/// agents, and each agent takes one of them.
pub proof fn lemma_step_turns(s0: SimView, events: Seq<ActEvent>, s1: SimView)
    requires
        s0.wf(),
        is_step(s0, events, s1),
    ensures
        events.len() == s0.next_id,
        forall|id: nat| id < s0.next_id <==> takes_turn(events, id),
{
    let ids = events.map_values(|e: ActEvent| e.id as int);
    assert(ids.no_duplicates()) by {
        assert forall|i: int, j: int| 0 <= i < ids.len() && 0 <= j < ids.len() && i != j implies ids[i]
            != ids[j] by {
            if i < j {
                assert(events[i].id != events[j].id);
            } else {
                assert(events[j].id != events[i].id);
            }
        }
    }
    ids.unique_seq_to_set();
    vstd::set_lib::lemma_int_range(0, s0.next_id as int);
    assert(ids.to_set() =~= vstd::set_lib::set_int_range(0, s0.next_id as int)) by {
        assert forall|k: int| ids.to_set().contains(k) implies 0 <= k < s0.next_id by {
            let i = choose|i: int| 0 <= i < ids.len() && ids[i] == k;
            assert(events[i].id < s0.next_id);
        }
        assert forall|k: int| 0 <= k < s0.next_id implies ids.to_set().contains(k) by {
            assert(takes_turn(events, k as nat));
            let i = choose|i: int| 0 <= i < events.len() && #[trigger] events[i].id == k as nat;
            assert(ids[i] == k);
        }
    }
    assert forall|id: nat| takes_turn(events, id) implies id < s0.next_id by {
        let i = choose|i: int| 0 <= i < events.len() && #[trigger] events[i].id == id;
    }
}

/// Only the tagger passes on the tag, only to an agent on a neighbouring
/// cell that is not immune, and it becomes immune itself: whenever carrying
/// out an action changes who is the tagger or who is immune, the action was
/// such a tag.
pub proof fn lemma_tag_rules(s: SimView, p: Point2D, action: AgentAction)
    requires
        s.wf(),
        s.reads_source(p, action) ==> s.in_bounds(p.x as int, p.y as int),
    ensures
        ({
            let t = s.apply(p, action);
            t.current_tagger != s.current_tagger || t.tagback_immune != s.tagback_immune ==> {
                &&& action matches AgentAction::Tag(target)
                &&& s.occupant(p.x as int, p.y as int) is Some
                &&& s.current_tagger == s.occupant(p.x as int, p.y as int)
                &&& exists|j: int| 0 <= j < 4 && #[trigger] p.neighbor(j) == Some(target)
                &&& s.in_bounds(target.x as int, target.y as int)
                &&& t.current_tagger == s.occupant(target.x as int, target.y as int)
                &&& t.current_tagger is Some
                &&& t.current_tagger != s.tagback_immune
                &&& t.tagback_immune == s.current_tagger
                &&& t.cells == s.cells
            }
        }),
{
    let t = s.apply(p, action);
    if let AgentAction::Tag(target) = action {
        if t.current_tagger != s.current_tagger || t.tagback_immune != s.tagback_immune {
            Point2D::lemma_neighbors_where(p, 4, s.taggable_pred());
            let i = choose|i: int|
                0 <= i < s.taggable_adjacent(p).len() && s.taggable_adjacent(p)[i] == target;
            assert((s.taggable_pred())(s.taggable_adjacent(p)[i]));
            assert(exists|j: int| 0 <= j < 4 && #[trigger] p.neighbor(j) == Some(s.taggable_adjacent(p)[i]));
        }
    }
}

/// An action that fails changes nothing.
pub proof fn lemma_failed_action_changes_nothing(s: SimView, p: Point2D, action: AgentAction)
    ensures
        s.apply_result(p, action) is Err ==> s.apply(p, action) == s,
{
}

/// Once there is a tagger, there always is one: no step removes it.
pub proof fn lemma_tagger_stays(s0: SimView, events: Seq<ActEvent>, s1: SimView)
    requires
        s0.wf(),
        is_step(s0, events, s1),
        s0.current_tagger is Some,
    ensures
        s1.current_tagger is Some,
{
    lemma_tagger_stays_prefix(s0, events, s1, events.len() as int);
    assert(events.take(events.len() as int) =~= events);
}

proof fn lemma_tagger_stays_prefix(s0: SimView, events: Seq<ActEvent>, s1: SimView, i: int)
    requires
        s0.wf(),
        is_step(s0, events, s1),
        s0.current_tagger is Some,
        0 <= i <= events.len(),
    ensures
        run_events(s0, events.take(i)).current_tagger is Some,
    decreases i,
{
    if i == 0 {
        assert(events.take(0) =~= Seq::<ActEvent>::empty());
    } else {
        lemma_tagger_stays_prefix(s0, events, s1, i - 1);
        assert(events.take(i).drop_last() =~= events.take(i - 1));
    }
}

/// A competent agent tags only when it is the tagger and only a position it
/// was told it may tag, and moves only to an empty neighbouring cell of the
/// grid.
pub proof fn lemma_competent_moves(input: InputView)
    requires
        input.is_valid(),
    ensures
        competent_action(input) matches AgentAction::Tag(t) ==> input.is_tagger
            && input.taggable_positions.contains(t),
        competent_action(input) matches AgentAction::Move(m) ==> {
            &&& exists|j: int| 0 <= j < 4 && #[trigger] input.position.neighbor(j) == Some(m)
            &&& inside(input.grid_view, m)
            &&& input.grid_view[m.y as int][m.x as int] == CellState::Empty
        },
{
    let g = input.grid_view;
    let p = input.position;
    let moves = valid_moves(g, p);
    Point2D::lemma_neighbors_where(p, 4, is_free_cell(g));
    let agents = cells_with(g, g.len(), CellState::Agent);
    if let Some(target) = first_min_by(agents, distance_from(p)) {
        lemma_first_min_by_in(moves, distance_to(target));
    }
    if let Some(tp) = last_of(cells_with(g, g.len(), CellState::Tagger)) {
        lemma_last_max_by_in(moves, distance_to(tp));
    }
    if let AgentAction::Tag(t) = competent_action(input) {
        assert(input.taggable_positions[0] == t);
    }
    if let AgentAction::Move(m) = competent_action(input) {
        assert(moves.contains(m));
        let i = choose|i: int| 0 <= i < moves.len() && moves[i] == m;
        assert((is_free_cell(g))(moves[i]));
    }
}


/// A cell of the grid `g` marked as holding an agent that may be chased.
pub open spec fn is_agent_cell(g: Seq<Seq<CellState>>, t: Point2D) -> bool {
    inside(g, t) && g[t.y as int][t.x as int] == CellState::Agent
}

/// A cell one step from `p` (left, right, up or down) that lies in the grid
/// `g` and is empty.
pub open spec fn is_free_neighbor(g: Seq<Seq<CellState>>, p: Point2D, m: Point2D) -> bool {
    &&& exists|j: int| 0 <= j < 4 && #[trigger] p.neighbor(j) == Some(m)
    &&& inside(g, m)
    &&& g[m.y as int][m.x as int] == CellState::Empty
}

/// A competent tagger that cannot tag chases the nearest agent: when it
/// moves, it moves to a free neighbouring cell that is as close as any other
/// free neighbouring cell to an agent that is as close to the tagger as any
/// other agent; and it does move whenever there is an agent to chase and a
/// free neighbouring cell. It never tags.
pub proof fn lemma_competent_tagger_chases_nearest(input: InputView)
    requires
        input.is_valid(),
        input.is_tagger,
        input.taggable_positions.len() == 0,
    ensures
        competent_action(input) matches AgentAction::Move(m) ==> exists|t: Point2D|
            {
                &&& #[trigger] is_agent_cell(input.grid_view, t)
                &&& forall|u: Point2D|
                    #[trigger] is_agent_cell(input.grid_view, u) ==> distance(input.position, t)
                        <= distance(input.position, u)
                &&& is_free_neighbor(input.grid_view, input.position, m)
                &&& forall|m2: Point2D|
                    #[trigger] is_free_neighbor(input.grid_view, input.position, m2) ==> distance(
                        m,
                        t,
                    ) <= distance(m2, t)
            },
        (exists|t: Point2D| #[trigger] is_agent_cell(input.grid_view, t)) && (exists|m: Point2D|
            #[trigger] is_free_neighbor(input.grid_view, input.position, m)) ==> competent_action(
            input,
        ) is Move,
        !(competent_action(input) is Tag),
{
    let g = input.grid_view;
    let p = input.position;
    let agents = cells_with(g, g.len(), CellState::Agent);
    let moves = valid_moves(g, p);
    lemma_cells_with_exact(g, g.len(), CellState::Agent);
    lemma_first_min_by_least(agents, distance_from(p));
    lemma_first_min_by_in(agents, distance_from(p));
    Point2D::lemma_neighbors_where(p, 4, is_free_cell(g));
    Point2D::lemma_neighbors_where_complete(p, 4, is_free_cell(g));
    // Every free neighbour is a valid move.
    assert forall|m2: Point2D| #[trigger] is_free_neighbor(g, p, m2) implies moves.contains(m2) by {
        let j = choose|j: int| 0 <= j < 4 && #[trigger] p.neighbor(j) == Some(m2);
        assert((is_free_cell(g))(m2));
        assert(p.neighbor(j) is Some && (is_free_cell(g))(p.neighbor(j)->0));
    }
    // Every valid move is a free neighbour.
    assert forall|i: int| 0 <= i < moves.len() implies is_free_neighbor(g, p, #[trigger] moves[i]) by {
        assert((is_free_cell(g))(moves[i]));
    }
    // Every agent cell is listed among the agents, and the other way round.
    assert forall|u: Point2D| #[trigger] is_agent_cell(g, u) implies agents.contains(u) by {
        assert(g[u.y as int].len() == g[0].len());
    }
    assert forall|i: int| 0 <= i < agents.len() implies is_agent_cell(g, #[trigger] agents[i]) by {
        assert(g[agents[i].y as int].len() == g[0].len());
    }
    if let Some(target) = first_min_by(agents, distance_from(p)) {
        lemma_first_min_by_least(moves, distance_to(target));
        lemma_first_min_by_in(moves, distance_to(target));
        if let AgentAction::Move(m) = competent_action(input) {
            assert(first_min_by(moves, distance_to(target)) == Some(m));
            let ti = choose|i: int| 0 <= i < agents.len() && agents[i] == target;
            assert(is_agent_cell(g, agents[ti]));
            let mi = choose|i: int| 0 <= i < moves.len() && moves[i] == m;
            assert(is_free_neighbor(g, p, moves[mi]));
            assert forall|u: Point2D| #[trigger] is_agent_cell(g, u) implies distance(p, target)
                <= distance(p, u) by {
                let k = choose|k: int| 0 <= k < agents.len() && agents[k] == u;
                assert((distance_from(p))(target) <= (distance_from(p))(agents[k]));
            }
            assert forall|m2: Point2D| #[trigger] is_free_neighbor(g, p, m2) implies distance(m, target)
                <= distance(m2, target) by {
                let k = choose|k: int| 0 <= k < moves.len() && moves[k] == m2;
                assert((distance_to(target))(m) <= (distance_to(target))(moves[k]));
            }
            assert(is_agent_cell(g, target));
        }
    }
    if (exists|t: Point2D| #[trigger] is_agent_cell(g, t)) && (exists|m: Point2D|
        #[trigger] is_free_neighbor(g, p, m)) {
        let t0 = choose|t: Point2D| #[trigger] is_agent_cell(g, t);
        let m0 = choose|m: Point2D| #[trigger] is_free_neighbor(g, p, m);
        assert(agents.contains(t0));
        assert(moves.contains(m0));
        let target = first_min_by(agents, distance_from(p))->0;
        lemma_first_min_by_least(moves, distance_to(target));
    }
}

/// A cell of the grid `g` marked as holding the tagger.
pub open spec fn is_tagger_cell(g: Seq<Seq<CellState>>, t: Point2D) -> bool {
    inside(g, t) && g[t.y as int][t.x as int] == CellState::Tagger
}

/// A competent agent that is not the tagger flees: when it moves, it moves
/// to a free neighbouring cell that is as far as any other free neighbouring
/// cell from the tagger, taken to be the last cell marked as the tagger, row
/// by row; it does move whenever there is a tagger and a free neighbouring
/// cell, and it stays when there is no tagger. It never tags.
pub proof fn lemma_competent_runner_flees(input: InputView)
    requires
        input.is_valid(),
        !input.is_tagger,
    ensures
        competent_action(input) matches AgentAction::Move(m) ==> exists|t: Point2D|
            {
                &&& #[trigger] is_tagger_cell(input.grid_view, t)
                &&& forall|u: Point2D|
                    #[trigger] is_tagger_cell(input.grid_view, u) ==> u == t || visited_before(
                        u.y as int,
                        u.x as int,
                        t.y as int,
                        t.x as int,
                    )
                &&& is_free_neighbor(input.grid_view, input.position, m)
                &&& forall|m2: Point2D|
                    #[trigger] is_free_neighbor(input.grid_view, input.position, m2) ==> distance(
                        m2,
                        t,
                    ) <= distance(m, t)
            },
        (exists|t: Point2D| #[trigger] is_tagger_cell(input.grid_view, t)) && (exists|m: Point2D|
            #[trigger] is_free_neighbor(input.grid_view, input.position, m)) ==> competent_action(
            input,
        ) is Move,
        !(exists|t: Point2D| #[trigger] is_tagger_cell(input.grid_view, t)) ==> competent_action(
            input,
        ) == AgentAction::Stay,
        !(competent_action(input) is Tag),
{
    let g = input.grid_view;
    let p = input.position;
    let taggers = cells_with(g, g.len(), CellState::Tagger);
    let moves = valid_moves(g, p);
    lemma_cells_with_exact(g, g.len(), CellState::Tagger);
    lemma_cells_with_sorted(g, g.len(), CellState::Tagger);
    Point2D::lemma_neighbors_where(p, 4, is_free_cell(g));
    Point2D::lemma_neighbors_where_complete(p, 4, is_free_cell(g));
    assert forall|m2: Point2D| #[trigger] is_free_neighbor(g, p, m2) implies moves.contains(m2) by {
        let j = choose|j: int| 0 <= j < 4 && #[trigger] p.neighbor(j) == Some(m2);
        assert((is_free_cell(g))(m2));
        assert(p.neighbor(j) is Some && (is_free_cell(g))(p.neighbor(j)->0));
    }
    assert forall|i: int| 0 <= i < moves.len() implies is_free_neighbor(g, p, #[trigger] moves[i]) by {
        assert((is_free_cell(g))(moves[i]));
    }
    assert forall|u: Point2D| #[trigger] is_tagger_cell(g, u) implies taggers.contains(u) by {
        assert(g[u.y as int].len() == g[0].len());
    }
    assert forall|i: int| 0 <= i < taggers.len() implies is_tagger_cell(g, #[trigger] taggers[i]) by {
        assert(g[taggers[i].y as int].len() == g[0].len());
    }
    if taggers.len() > 0 {
        let t = taggers.last();
        let last = taggers.len() - 1;
        assert(taggers[last] == t);
        assert(is_tagger_cell(g, taggers[last]));
        lemma_last_max_by_greatest(moves, distance_to(t));
        lemma_last_max_by_in(moves, distance_to(t));
        assert forall|u: Point2D| #[trigger] is_tagger_cell(g, u) implies u == t || visited_before(
            u.y as int,
            u.x as int,
            t.y as int,
            t.x as int,
        ) by {
            let k = choose|k: int| 0 <= k < taggers.len() && taggers[k] == u;
            if k < last {
                assert(visited_before(
                    taggers[k].y as int,
                    taggers[k].x as int,
                    taggers[last].y as int,
                    taggers[last].x as int,
                ));
            }
        }
        if let AgentAction::Move(m) = competent_action(input) {
            assert(last_max_by(moves, distance_to(t)) == Some(m));
            let mi = choose|i: int| 0 <= i < moves.len() && moves[i] == m;
            assert(is_free_neighbor(g, p, moves[mi]));
            assert forall|m2: Point2D| #[trigger] is_free_neighbor(g, p, m2) implies distance(m2, t)
                <= distance(m, t) by {
                let k = choose|k: int| 0 <= k < moves.len() && moves[k] == m2;
                assert((distance_to(t))(m) >= (distance_to(t))(moves[k]));
            }
        }
        if exists|m: Point2D| #[trigger] is_free_neighbor(g, p, m) {
            let m0 = choose|m: Point2D| #[trigger] is_free_neighbor(g, p, m);
            assert(moves.contains(m0));
        }
    } else {
        assert forall|u: Point2D| !#[trigger] is_tagger_cell(g, u) by {
            if is_tagger_cell(g, u) {
                assert(taggers.contains(u));
            }
        }
    }
}

/// What an agent is told at its turn is true of the state it acts in: its
/// position; that it is the tagger exactly when it is; as the tagger, all
/// the neighbouring cells that hold an agent that is not immune, and only
/// those; as any other agent, no position to tag; and, for every cell of the
/// grid, whether it is empty and whether it holds the tagger.
pub open spec fn told_truly(s: SimView, e: ActEvent) -> bool {
    let p = e.position;
    let tp = e.input.taggable_positions;
    let gv = e.input.grid_view;
    &&& e.input.position == p
    &&& e.input.is_tagger == (s.current_tagger == Some(e.id))
    &&& s.current_tagger != Some(e.id) ==> tp.len() == 0
    &&& forall|k: int|
        0 <= k < tp.len() ==> {
            &&& exists|j: int| 0 <= j < 4 && #[trigger] p.neighbor(j) == Some(tp[k])
            &&& s.in_bounds(tp[k].x as int, tp[k].y as int)
            &&& s.occupant(tp[k].x as int, tp[k].y as int) is Some
            &&& s.tagback_immune != s.occupant(tp[k].x as int, tp[k].y as int)
        }
    &&& s.current_tagger == Some(e.id) ==> forall|j: int|
        0 <= j < 4 && #[trigger] p.neighbor(j) is Some && s.in_bounds(
            p.neighbor(j)->0.x as int,
            p.neighbor(j)->0.y as int,
        ) && s.occupant(p.neighbor(j)->0.x as int, p.neighbor(j)->0.y as int) is Some
            && s.tagback_immune != s.occupant(p.neighbor(j)->0.x as int, p.neighbor(j)->0.y as int)
            ==> tp.contains(p.neighbor(j)->0)
    &&& gv.len() == s.rows
    &&& forall|y: int| 0 <= y < s.rows ==> #[trigger] gv[y].len() == s.cols
    &&& forall|x: int, y: int|
        s.in_bounds(x, y) ==> {
            &&& (#[trigger] gv[y][x] == CellState::Empty) == (s.occupant(x, y) is None)
            &&& (gv[y][x] == CellState::Tagger) == (s.occupant(x, y) is Some
                && s.current_tagger == s.occupant(x, y))
        }
}

/// An agent told what `turn_fits` says it is told is told the truth.
proof fn lemma_turn_tells_the_truth(s: SimView, e: ActEvent)
    requires
        turn_fits(s, e),
    ensures
        told_truly(s, e),
{
    let p = e.position;
    Point2D::lemma_neighbors_where(p, 4, s.taggable_pred());
    Point2D::lemma_neighbors_where_complete(p, 4, s.taggable_pred());
    let tp = e.input.taggable_positions;
    assert forall|k: int| 0 <= k < tp.len() implies {
        &&& exists|j: int| 0 <= j < 4 && #[trigger] p.neighbor(j) == Some(tp[k])
        &&& s.in_bounds(tp[k].x as int, tp[k].y as int)
        &&& s.occupant(tp[k].x as int, tp[k].y as int) is Some
        &&& s.tagback_immune != s.occupant(tp[k].x as int, tp[k].y as int)
    } by {
        assert((s.taggable_pred())(tp[k]));
    }
    if s.current_tagger == Some(e.id) {
        assert forall|j: int|
            0 <= j < 4 && #[trigger] p.neighbor(j) is Some && s.in_bounds(
                p.neighbor(j)->0.x as int,
                p.neighbor(j)->0.y as int,
            ) && s.occupant(p.neighbor(j)->0.x as int, p.neighbor(j)->0.y as int) is Some
                && s.tagback_immune != s.occupant(p.neighbor(j)->0.x as int, p.neighbor(j)->0.y as int)
                implies tp.contains(p.neighbor(j)->0) by {
            assert((s.taggable_pred())(p.neighbor(j)->0));
        }
    }
}

/// In a step, every agent is told the truth about the state in which it
/// takes its turn (see `told_truly`).
pub proof fn lemma_step_tells_the_truth(s0: SimView, events: Seq<ActEvent>, s1: SimView)
    requires
        s0.wf(),
        is_step(s0, events, s1),
    ensures
        forall|i: int|
            0 <= i < events.len() ==> told_truly(run_events(s0, events.take(i)), #[trigger] events[i]),
{
    assert forall|i: int| 0 <= i < events.len() implies told_truly(
        run_events(s0, events.take(i)),
        #[trigger] events[i],
    ) by {
        lemma_turn_tells_the_truth(run_events(s0, events.take(i)), events[i]);
    }
}

/// A tag by the tagger of a neighbouring cell that holds an agent that is not
/// immune succeeds: that agent becomes the tagger and the tagger becomes
/// immune, and nothing else changes.
pub proof fn lemma_tag_passes(s: SimView, p: Point2D, t: Point2D)
    requires
        s.wf(),
        s.in_bounds(p.x as int, p.y as int),
        s.occupant(p.x as int, p.y as int) is Some,
        s.current_tagger == s.occupant(p.x as int, p.y as int),
        exists|j: int| 0 <= j < 4 && #[trigger] p.neighbor(j) == Some(t),
        s.in_bounds(t.x as int, t.y as int),
        s.occupant(t.x as int, t.y as int) is Some,
        s.tagback_immune != s.occupant(t.x as int, t.y as int),
    ensures
        s.apply_result(p, AgentAction::Tag(t)) is Ok,
        s.apply(p, AgentAction::Tag(t)).current_tagger == s.occupant(t.x as int, t.y as int),
        s.apply(p, AgentAction::Tag(t)).tagback_immune == s.occupant(p.x as int, p.y as int),
        s.apply(p, AgentAction::Tag(t)).cells == s.cells,
        s.apply(p, AgentAction::Tag(t)).rows == s.rows,
        s.apply(p, AgentAction::Tag(t)).cols == s.cols,
        s.apply(p, AgentAction::Tag(t)).next_id == s.next_id,
{
    Point2D::lemma_neighbors_where_complete(p, 4, s.taggable_pred());
    let j = choose|j: int| 0 <= j < 4 && #[trigger] p.neighbor(j) == Some(t);
    assert((s.taggable_pred())(p.neighbor(j)->0));
    assert(s.taggable_adjacent(p).contains(t));
}

/// A move to a cell outside the grid fails with `OutOfBounds`, one to an
/// occupied other cell with `CellOccupied`, and neither changes anything; a
/// move to the own cell does nothing; a move to an empty cell of the grid
/// puts the agent there, empties its cell and changes no other cell, nor who
/// is the tagger or immune.
pub proof fn lemma_move_outcome(s: SimView, p: Point2D, m: Point2D)
    requires
        s.wf(),
        s.in_bounds(p.x as int, p.y as int),
    ensures
        ({
            let r = s.apply_result(p, AgentAction::Move(m));
            let t = s.apply(p, AgentAction::Move(m));
            &&& !s.in_bounds(m.x as int, m.y as int) ==> r == Err::<(), SimulationError>(
                SimulationError::OutOfBounds(m),
            ) && t == s
            &&& s.in_bounds(m.x as int, m.y as int) && m == p ==> r is Ok && t == s
            &&& s.in_bounds(m.x as int, m.y as int) && m != p && s.occupant(m.x as int, m.y as int)
                is Some ==> r == Err::<(), SimulationError>(SimulationError::CellOccupied(m))
                && t == s
            &&& s.in_bounds(m.x as int, m.y as int) && m != p && s.occupant(m.x as int, m.y as int)
                is None ==> {
                &&& r is Ok
                &&& t.cells[m.y as int][m.x as int] == s.cells[p.y as int][p.x as int]
                &&& t.cells[p.y as int][p.x as int] is None
                &&& forall|x: int, y: int|
                    s.in_bounds(x, y) && !(x == p.x && y == p.y) && !(x == m.x && y == m.y)
                        ==> #[trigger] t.cells[y][x] == s.cells[y][x]
                &&& t.rows == s.rows && t.cols == s.cols && t.next_id == s.next_id
                &&& t.current_tagger == s.current_tagger
                &&& t.tagback_immune == s.tagback_immune
            }
        }),
{
    if s.in_bounds(m.x as int, m.y as int) && m != p && s.occupant(m.x as int, m.y as int) is None {
        s.lemma_moved_cells(p, m);
    }
}

/// Placing an agent puts it on its cell under the next identity and changes
/// no other cell, nor the size of the grid, nor who is the tagger or immune.
pub proof fn lemma_place_outcome(s: SimView, x: int, y: int, e: AgentEntry)
    requires
        s.wf(),
        s.in_bounds(x, y),
    ensures
        s.place(x, y, e).cells[y][x] == Some(e),
        forall|i: int, j: int|
            s.in_bounds(i, j) && !(i == x && j == y) ==> #[trigger] s.place(x, y, e).cells[j][i]
                == s.cells[j][i],
        s.place(x, y, e).next_id == s.next_id + 1,
        s.place(x, y, e).rows == s.rows,
        s.place(x, y, e).cols == s.cols,
        s.place(x, y, e).current_tagger == s.current_tagger,
        s.place(x, y, e).tagback_immune == s.tagback_immune,
{
    let t = s.place(x, y, e);
    assert forall|i: int, j: int| s.in_bounds(i, j) && !(i == x && j == y) implies #[trigger] t.cells[j][i]
        == s.cells[j][i] by {
        if j != y {
            assert(t.cells[j] == s.cells[j]);
        }
    }
}

/// What agents see in a cell: empty exactly when no agent stands there,
/// the tagger's mark exactly on the tagger, the immune mark exactly on the
/// immune agent when it is not the tagger, and a plain agent otherwise.
pub proof fn lemma_cell_state_meaning(s: SimView, x: int, y: int)
    ensures
        (s.cell_state(x, y) == CellState::Empty) == (s.occupant(x, y) is None),
        (s.cell_state(x, y) == CellState::Tagger) == (s.occupant(x, y) is Some
            && s.current_tagger == s.occupant(x, y)),
        (s.cell_state(x, y) == CellState::TagbackImmune) == (s.occupant(x, y) is Some
            && s.tagback_immune == s.occupant(x, y) && s.current_tagger != s.occupant(x, y)),
        (s.cell_state(x, y) == CellState::Agent) == (s.occupant(x, y) is Some
            && s.tagback_immune != s.occupant(x, y) && s.current_tagger != s.occupant(x, y)),
{
}

/// The positions an agent may tag: none unless it is the tagger; for the
/// tagger, exactly the neighbouring cells of the grid that hold an agent
/// that is not immune, each once, in the order left, right, up, down.
pub proof fn lemma_taggable_positions_meaning(s: SimView, id: nat, p: Point2D)
    ensures
        s.current_tagger != Some(id) ==> s.taggable_positions(id, p).len() == 0,
        forall|k: int|
            0 <= k < s.taggable_positions(id, p).len() ==> {
                let q = #[trigger] s.taggable_positions(id, p)[k];
                &&& exists|j: int| 0 <= j < 4 && #[trigger] p.neighbor(j) == Some(q)
                &&& s.in_bounds(q.x as int, q.y as int)
                &&& s.occupant(q.x as int, q.y as int) is Some
                &&& s.tagback_immune != s.occupant(q.x as int, q.y as int)
            },
        s.current_tagger == Some(id) ==> forall|j: int|
            0 <= j < 4 && #[trigger] p.neighbor(j) is Some && s.in_bounds(
                p.neighbor(j)->0.x as int,
                p.neighbor(j)->0.y as int,
            ) && s.occupant(p.neighbor(j)->0.x as int, p.neighbor(j)->0.y as int) is Some
                && s.tagback_immune != s.occupant(p.neighbor(j)->0.x as int, p.neighbor(j)->0.y as int)
                ==> s.taggable_positions(id, p).contains(p.neighbor(j)->0),
        forall|i: int, k: int|
            0 <= i < k < s.taggable_positions(id, p).len() ==> #[trigger] s.taggable_positions(
                id,
                p,
            )[i] != #[trigger] s.taggable_positions(id, p)[k],
{
    Point2D::lemma_neighbors_where(p, 4, s.taggable_pred());
    Point2D::lemma_neighbors_where_complete(p, 4, s.taggable_pred());
    Point2D::lemma_neighbors_where_distinct(p, 4, s.taggable_pred());
    let tp = s.taggable_positions(id, p);
    assert forall|k: int| 0 <= k < tp.len() implies {
        let q = #[trigger] tp[k];
        &&& exists|j: int| 0 <= j < 4 && #[trigger] p.neighbor(j) == Some(q)
        &&& s.in_bounds(q.x as int, q.y as int)
        &&& s.occupant(q.x as int, q.y as int) is Some
        &&& s.tagback_immune != s.occupant(q.x as int, q.y as int)
    } by {
        assert((s.taggable_pred())(tp[k]));
    }
    if s.current_tagger == Some(id) {
        assert forall|j: int|
            0 <= j < 4 && #[trigger] p.neighbor(j) is Some && s.in_bounds(
                p.neighbor(j)->0.x as int,
                p.neighbor(j)->0.y as int,
            ) && s.occupant(p.neighbor(j)->0.x as int, p.neighbor(j)->0.y as int) is Some
                && s.tagback_immune != s.occupant(p.neighbor(j)->0.x as int, p.neighbor(j)->0.y as int)
                implies tp.contains(p.neighbor(j)->0) by {
            assert((s.taggable_pred())(p.neighbor(j)->0));
        }
    }
}
} // verus!

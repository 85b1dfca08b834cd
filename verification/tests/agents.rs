use fangeleg::action_code::{
    decode_action, encode_action, ACTION_MOVE, ACTION_STAY, ACTION_TAG,
};
use fangeleg::competent_agent::CompetentAgent;
use fangeleg::naive_agent::{naive_action, Direction, NaiveAgent};
use fangeleg::simulation::{Agent, AgentAction, AgentInput, CellState, Point2D};

use CellState::{Agent as A, Empty as E, Tagger as T, TagbackImmune as I};

fn input(
    position: Point2D,
    taggable_positions: Vec<Point2D>,
    grid_view: Vec<Vec<CellState>>,
    is_tagger: bool,
) -> AgentInput {
    AgentInput {
        position,
        taggable_positions,
        grid_view,
        is_tagger,
    }
}

fn p(x: usize, y: usize) -> Point2D {
    Point2D { x, y }
}

fn is_one_step(from: Point2D, to: Point2D) -> bool {
    to == p(from.x, from.y.saturating_sub(1))
        || to == p(from.x, from.y.saturating_add(1))
        || to == p(from.x.saturating_sub(1), from.y)
        || to == p(from.x.saturating_add(1), from.y)
}

#[test]
fn competent_tagger_tags_first_taggable_position() {
    let agent = CompetentAgent;
    let grid = vec![vec![T, A, A], vec![A, E, E]];
    let action = agent.act(input(p(0, 0), vec![p(1, 0), p(0, 1)], grid, true));
    assert_eq!(action, AgentAction::Tag(p(1, 0)));
}

#[test]
fn competent_tagger_chases_nearest_agent_taking_first_best_move() {
    let agent = CompetentAgent;
    let grid = vec![vec![T, E, E], vec![E, E, E], vec![E, E, A]];
    // Right (1, 0) and down (0, 1) are both at distance 3 from (2, 2): the
    // first one found wins.
    let action = agent.act(input(p(0, 0), vec![], grid, true));
    assert_eq!(action, AgentAction::Move(p(1, 0)));
}

#[test]
fn competent_tagger_chases_the_first_of_equally_near_agents() {
    let agent = CompetentAgent;
    // Agents at (2, 0) and (0, 2) are both at distance 2 from (0, 0); the one
    // found first, row by row, is chased.
    let grid = vec![vec![T, E, A], vec![E, E, E], vec![A, E, E]];
    let action = agent.act(input(p(0, 0), vec![], grid, true));
    assert_eq!(action, AgentAction::Move(p(1, 0)));
}

#[test]
fn competent_tagger_ignores_immune_agents_when_chasing() {
    let agent = CompetentAgent;
    // The immune agent at (1, 0) is not a target; the agent at (0, 2) is.
    let grid = vec![vec![T, I, E], vec![E, E, E], vec![A, E, E]];
    let action = agent.act(input(p(0, 0), vec![], grid, true));
    assert_eq!(action, AgentAction::Move(p(0, 1)));
}

#[test]
fn competent_tagger_without_targets_stays() {
    let agent = CompetentAgent;
    let grid = vec![vec![T, E], vec![E, I]];
    let action = agent.act(input(p(0, 0), vec![], grid, true));
    assert_eq!(action, AgentAction::Stay);
}

#[test]
fn competent_tagger_boxed_in_stays() {
    let agent = CompetentAgent;
    let grid = vec![vec![T, I, E], vec![I, E, A]];
    let action = agent.act(input(p(0, 0), vec![], grid, true));
    assert_eq!(action, AgentAction::Stay);
}

#[test]
fn competent_runner_flees_to_last_farthest_move() {
    let agent = CompetentAgent;
    let grid = vec![vec![E, E, E], vec![T, A, E], vec![E, E, E]];
    // Right, up and down are all at distance 2 from the tagger at (0, 1);
    // the last one found, down, wins.
    let action = agent.act(input(p(1, 1), vec![], grid, false));
    assert_eq!(action, AgentAction::Move(p(1, 2)));
}

#[test]
fn competent_runner_prefers_farther_cell() {
    let agent = CompetentAgent;
    let grid = vec![vec![E, T, E, E], vec![E, E, A, E]];
    // From (2, 1): left (1, 1) is 1 away from (1, 0), right (3, 1) is 3 away,
    // up (2, 0) is 1 away.
    let action = agent.act(input(p(2, 1), vec![], grid, false));
    assert_eq!(action, AgentAction::Move(p(3, 1)));
}

#[test]
fn competent_runner_without_tagger_stays() {
    let agent = CompetentAgent;
    let grid = vec![vec![E, A], vec![E, E]];
    let action = agent.act(input(p(1, 0), vec![], grid, false));
    assert_eq!(action, AgentAction::Stay);
}

#[test]
fn competent_runner_flees_from_last_tagger_found() {
    let agent = CompetentAgent;
    // Two cells marked as tagger: the last one, row by row, is fled from.
    let grid = vec![vec![T, E, E], vec![E, A, E], vec![E, E, T]];
    // From (1, 1), fleeing (2, 2): left (0, 1) and up (1, 0) are at
    // distance 3; the last one found, up, wins.
    let action = agent.act(input(p(1, 1), vec![], grid, false));
    assert_eq!(action, AgentAction::Move(p(1, 0)));
}

#[test]
fn competent_runner_boxed_in_stays() {
    let agent = CompetentAgent;
    let grid = vec![vec![A, T], vec![A, E]];
    let action = agent.act(input(p(0, 0), vec![], grid, false));
    assert_eq!(action, AgentAction::Stay);
}

#[test]
fn naive_agent_without_targets_moves_one_cell_or_stays() {
    let agent = NaiveAgent;
    let mut moved = false;
    let mut stayed = false;
    for _ in 0..400 {
        let grid = vec![vec![E, E, E], vec![E, A, E], vec![E, E, E]];
        match agent.act(input(p(1, 1), vec![], grid, false)) {
            AgentAction::Move(m) => {
                assert!(is_one_step(p(1, 1), m));
                moved = true;
            }
            AgentAction::Stay => stayed = true,
            AgentAction::Tag(_) => panic!("a naive agent without targets never tags"),
        }
    }
    assert!(moved && stayed);
}

#[test]
fn naive_agent_tags_only_its_targets() {
    let agent = NaiveAgent;
    let targets = vec![p(1, 0), p(0, 1)];
    let mut tagged = false;
    for _ in 0..400 {
        let grid = vec![vec![T, A], vec![A, E]];
        match agent.act(input(p(0, 0), targets.clone(), grid, true)) {
            AgentAction::Tag(t) => {
                assert!(targets.contains(&t));
                tagged = true;
            }
            AgentAction::Move(m) => assert!(is_one_step(p(0, 0), m)),
            AgentAction::Stay => {}
        }
    }
    assert!(tagged);
}

#[test]
fn naive_agent_moves_saturate_at_zero() {
    let agent = NaiveAgent;
    for _ in 0..200 {
        let grid = vec![vec![A]];
        if let AgentAction::Move(m) = agent.act(input(p(0, 0), vec![], grid, false)) {
            assert!(m == p(0, 0) || m == p(1, 0) || m == p(0, 1));
        }
    }
}

#[test]
fn action_codes_round_trip() {
    for action in [
        AgentAction::Stay,
        AgentAction::Move(p(3, 4)),
        AgentAction::Tag(p(0, 7)),
    ] {
        let (kind, point) = encode_action(action);
        assert_eq!(decode_action(kind, point), Some(action));
    }
    assert_eq!(encode_action(AgentAction::Stay), (ACTION_STAY, None));
    assert_eq!(encode_action(AgentAction::Move(p(1, 2))), (ACTION_MOVE, Some(p(1, 2))));
    assert_eq!(encode_action(AgentAction::Tag(p(2, 1))), (ACTION_TAG, Some(p(2, 1))));
}

#[test]
fn action_codes_reject_unknown_kinds_and_missing_cells() {
    assert_eq!(decode_action(3, Some(p(1, 1))), None);
    assert_eq!(decode_action(255, None), None);
    assert_eq!(decode_action(ACTION_MOVE, None), None);
    assert_eq!(decode_action(ACTION_TAG, None), None);
    assert_eq!(decode_action(ACTION_STAY, Some(p(1, 1))), Some(AgentAction::Stay));
}

#[test]
fn naive_decision_tags_the_chosen_target() {
    let targets = vec![p(1, 0), p(0, 1)];
    assert_eq!(
        naive_action(p(0, 0), &targets, Some(1), Some(Direction::Up)),
        AgentAction::Tag(p(0, 1))
    );
    assert_eq!(
        naive_action(p(0, 0), &targets, Some(0), None),
        AgentAction::Tag(p(1, 0))
    );
}

#[test]
fn naive_decision_moves_in_the_chosen_direction() {
    let none = vec![];
    assert_eq!(
        naive_action(p(2, 2), &none, None, Some(Direction::Up)),
        AgentAction::Move(p(2, 1))
    );
    assert_eq!(
        naive_action(p(2, 2), &none, None, Some(Direction::Down)),
        AgentAction::Move(p(2, 3))
    );
    assert_eq!(
        naive_action(p(2, 2), &none, None, Some(Direction::Left)),
        AgentAction::Move(p(1, 2))
    );
    assert_eq!(
        naive_action(p(2, 2), &none, None, Some(Direction::Right)),
        AgentAction::Move(p(3, 2))
    );
    assert_eq!(
        naive_action(p(0, 0), &none, None, Some(Direction::Left)),
        AgentAction::Move(p(0, 0))
    );
    assert_eq!(
        naive_action(p(usize::MAX, 0), &none, None, Some(Direction::Right)),
        AgentAction::Move(p(usize::MAX, 0))
    );
}

#[test]
fn naive_decision_without_choices_stays() {
    let targets = vec![p(1, 0)];
    assert_eq!(naive_action(p(0, 0), &targets, None, None), AgentAction::Stay);
}

#[test]
fn naive_agent_acts_on_any_input() {
    let agent = NaiveAgent;
    for _ in 0..100 {
        // No grid at all, and a position at the end of the range.
        match agent.act(input(p(usize::MAX, usize::MAX), vec![], vec![], false)) {
            AgentAction::Move(m) => assert!(is_one_step(p(usize::MAX, usize::MAX), m)),
            AgentAction::Stay => {}
            AgentAction::Tag(_) => panic!("no targets were given"),
        }
        match agent.naive_act(p(4, 4), &vec![p(4, 5)]) {
            AgentAction::Tag(t) => assert_eq!(t, p(4, 5)),
            AgentAction::Move(m) => assert!(is_one_step(p(4, 4), m)),
            AgentAction::Stay => {}
        }
    }
}

#[test]
fn competent_tagger_outside_the_grid_moves_towards_it() {
    let agent = CompetentAgent;
    let grid = vec![vec![E, E], vec![A, E]];
    // From (2, 0), only the left neighbour (1, 0) lies in the grid.
    let action = agent.act(input(p(2, 0), vec![], grid, true));
    assert_eq!(action, AgentAction::Move(p(1, 0)));
}

#[test]
fn competent_runner_far_outside_the_grid_stays() {
    let agent = CompetentAgent;
    let grid = vec![vec![T, E], vec![E, E]];
    let action = agent.act(input(p(5, 0), vec![], grid, false));
    assert_eq!(action, AgentAction::Stay);
}

use fangeleg::simulation::{
    Agent, AgentAction, AgentId, AgentInput, CellState, Point2D, Simulation, SimulationError,
};

struct TestAgent;

impl Agent for TestAgent {
    fn act(&self, _input: AgentInput) -> AgentAction {
        AgentAction::Stay
    }
}

fn test_agent() -> Box<dyn Agent> {
    Box::new(TestAgent)
}

fn agent_id_at(sim: &Simulation, x: usize, y: usize) -> AgentId {
    sim.agent_id_at(x, y).expect("expected agent at position")
}

#[test]
fn place_agent_returns_error_when_x_out_of_bounds() {
    let mut sim = Simulation::new(2, 3);

    let result = sim.place_agent(test_agent(), 3, 0);

    assert!(matches!(
        result,
        Err(SimulationError::OutOfBounds(Point2D { x: 3, y: 0 }))
    ));
}

#[test]
fn place_agent_returns_error_when_y_out_of_bounds() {
    let mut sim = Simulation::new(2, 3);

    let result = sim.place_agent(test_agent(), 0, 2);

    assert!(matches!(
        result,
        Err(SimulationError::OutOfBounds(Point2D { x: 0, y: 2 }))
    ));
}

#[test]
fn place_agent_returns_error_when_cell_is_occupied() {
    let mut sim = Simulation::new(2, 3);

    assert!(sim.place_agent(test_agent(), 1, 1).is_ok());

    let result = sim.place_agent(test_agent(), 1, 1);

    assert!(matches!(
        result,
        Err(SimulationError::CellOccupied(Point2D { x: 1, y: 1 }))
    ));
}

#[test]
fn move_action_succeeds_when_destination_cell_is_empty() {
    let mut sim = Simulation::new(2, 3);

    sim.place_agent(test_agent(), 0, 0).unwrap();

    let result = sim.apply_action(
        Point2D { x: 0, y: 0 },
        AgentAction::Move(Point2D { x: 1, y: 0 }),
    );

    assert!(result.is_ok());
    assert!(sim.agent_id_at(0, 0).is_none());
    assert!(sim.agent_id_at(1, 0).is_some());
}

#[test]
fn move_out_of_bounds_returns_error_and_keeps_agent_in_original_cell() {
    let mut sim = Simulation::new(2, 3);

    sim.place_agent(test_agent(), 2, 1).unwrap();

    let result = sim.apply_action(
        Point2D { x: 2, y: 1 },
        AgentAction::Move(Point2D { x: 3, y: 1 }),
    );

    assert!(matches!(
        result,
        Err(SimulationError::OutOfBounds(Point2D { x: 3, y: 1 }))
    ));
    assert!(sim.agent_id_at(2, 1).is_some());
}

#[test]
fn move_into_occupied_cell_fails_without_overwriting() {
    let mut sim = Simulation::new(2, 3);

    sim.place_agent(test_agent(), 0, 0).unwrap();
    sim.place_agent(test_agent(), 1, 0).unwrap();

    let original_target_id = agent_id_at(&sim, 1, 0);

    let result = sim.apply_action(
        Point2D { x: 0, y: 0 },
        AgentAction::Move(Point2D { x: 1, y: 0 }),
    );

    assert!(matches!(
        result,
        Err(SimulationError::CellOccupied(Point2D { x: 1, y: 0 }))
    ));
    assert!(sim.agent_id_at(0, 0).is_some());
    assert_eq!(agent_id_at(&sim, 1, 0), original_target_id);
}

#[test]
fn move_to_own_cell_is_noop() {
    let mut sim = Simulation::new(2, 3);

    sim.place_agent(test_agent(), 1, 1).unwrap();
    let original_id = agent_id_at(&sim, 1, 1);

    let result = sim.apply_action(
        Point2D { x: 1, y: 1 },
        AgentAction::Move(Point2D { x: 1, y: 1 }),
    );

    assert!(result.is_ok());
    assert_eq!(agent_id_at(&sim, 1, 1), original_id);
}

#[test]
fn non_tagger_has_no_taggable_positions() {
    let mut sim = Simulation::new(2, 3);

    sim.place_agent(test_agent(), 0, 0).unwrap();
    sim.place_agent(test_agent(), 1, 0).unwrap();

    let non_tagger_id = agent_id_at(&sim, 0, 0);
    sim.set_current_tagger(Some(agent_id_at(&sim, 1, 0)));

    let taggable_positions = sim.find_taggable_positions(non_tagger_id, Point2D { x: 0, y: 0 });

    assert!(taggable_positions.is_empty());
}

#[test]
fn tagger_has_adjacent_occupied_position_as_taggable() {
    let mut sim = Simulation::new(2, 3);

    sim.place_agent(test_agent(), 0, 0).unwrap();
    sim.place_agent(test_agent(), 1, 0).unwrap();

    let tagger_id = agent_id_at(&sim, 0, 0);
    sim.set_current_tagger(Some(tagger_id));

    let taggable_positions = sim.find_taggable_positions(tagger_id, Point2D { x: 0, y: 0 });

    assert_eq!(taggable_positions, vec![Point2D { x: 1, y: 0 }]);
}

#[test]
fn tagger_with_no_adjacent_occupied_positions_gets_no_taggable_positions() {
    let mut sim = Simulation::new(2, 3);

    sim.place_agent(test_agent(), 1, 1).unwrap();

    let tagger_id = agent_id_at(&sim, 1, 1);
    sim.set_current_tagger(Some(tagger_id));

    let taggable_positions = sim.find_taggable_positions(tagger_id, Point2D { x: 1, y: 1 });

    assert!(taggable_positions.is_empty());
}

#[test]
fn tagger_does_not_get_adjacent_tagback_immune_agent_as_taggable() {
    let mut sim = Simulation::new(2, 3);

    sim.place_agent(test_agent(), 0, 0).unwrap();
    sim.place_agent(test_agent(), 1, 0).unwrap();

    let current_tagger_id = agent_id_at(&sim, 0, 0);
    let immune_id = agent_id_at(&sim, 1, 0);

    sim.set_current_tagger(Some(current_tagger_id));
    sim.set_tagback_immune_agent(Some(immune_id));

    let taggable_positions =
        sim.find_taggable_positions(current_tagger_id, Point2D { x: 0, y: 0 });

    assert!(taggable_positions.is_empty());
}

#[test]
fn valid_tag_updates_current_tagger_to_target_agent() {
    let mut sim = Simulation::new(2, 3);

    sim.place_agent(test_agent(), 0, 0).unwrap();
    sim.place_agent(test_agent(), 1, 0).unwrap();

    let original_tagger_id = agent_id_at(&sim, 0, 0);
    let target_id = agent_id_at(&sim, 1, 0);

    sim.set_current_tagger(Some(original_tagger_id));

    let result = sim.apply_action(
        Point2D { x: 0, y: 0 },
        AgentAction::Tag(Point2D { x: 1, y: 0 }),
    );

    assert!(result.is_ok());
    assert_eq!(sim.current_tagger(), Some(target_id));
}

#[test]
fn valid_tag_makes_old_tagger_tagback_immune() {
    let mut sim = Simulation::new(2, 3);

    sim.place_agent(test_agent(), 0, 0).unwrap();
    sim.place_agent(test_agent(), 1, 0).unwrap();

    let original_tagger_id = agent_id_at(&sim, 0, 0);

    sim.set_current_tagger(Some(original_tagger_id));

    let result = sim.apply_action(
        Point2D { x: 0, y: 0 },
        AgentAction::Tag(Point2D { x: 1, y: 0 }),
    );

    assert!(result.is_ok());
    assert_eq!(sim.tagback_immune_agent(), Some(original_tagger_id));
}

#[test]
fn tag_from_non_tagger_is_ignored() {
    let mut sim = Simulation::new(2, 3);

    sim.place_agent(test_agent(), 0, 0).unwrap();
    sim.place_agent(test_agent(), 1, 0).unwrap();

    let non_tagger_id = agent_id_at(&sim, 0, 0);
    let actual_tagger_id = agent_id_at(&sim, 1, 0);

    sim.set_current_tagger(Some(actual_tagger_id));

    let result = sim.apply_action(
        Point2D { x: 0, y: 0 },
        AgentAction::Tag(Point2D { x: 1, y: 0 }),
    );

    assert!(result.is_ok());
    assert_eq!(sim.current_tagger(), Some(actual_tagger_id));
    assert_eq!(sim.tagback_immune_agent(), None);
    assert_ne!(sim.current_tagger(), Some(non_tagger_id));
}

#[test]
fn tag_to_non_adjacent_target_is_ignored() {
    let mut sim = Simulation::new(3, 3);

    sim.place_agent(test_agent(), 0, 0).unwrap();
    sim.place_agent(test_agent(), 2, 2).unwrap();

    let tagger_id = agent_id_at(&sim, 0, 0);
    let target_id = agent_id_at(&sim, 2, 2);

    sim.set_current_tagger(Some(tagger_id));

    let result = sim.apply_action(
        Point2D { x: 0, y: 0 },
        AgentAction::Tag(Point2D { x: 2, y: 2 }),
    );

    assert!(result.is_ok());
    assert_eq!(sim.current_tagger(), Some(tagger_id));
    assert_ne!(sim.current_tagger(), Some(target_id));
    assert_eq!(sim.tagback_immune_agent(), None);
}

// ---- further cases ----

/// An agent that always moves one cell to the right and records what it saw.
struct RightMover {
    seen: std::rc::Rc<std::cell::RefCell<Vec<(Point2D, usize, bool)>>>,
}

impl Agent for RightMover {
    fn act(&self, input: AgentInput) -> AgentAction {
        self.seen.borrow_mut().push((
            input.position,
            input.taggable_positions.len(),
            input.is_tagger,
        ));
        AgentAction::Move(Point2D {
            x: input.position.x + 1,
            y: input.position.y,
        })
    }
}

/// An agent that tags the first position it may tag, and stays otherwise.
struct Tagger;

impl Agent for Tagger {
    fn act(&self, input: AgentInput) -> AgentAction {
        match input.taggable_positions.first() {
            Some(p) => AgentAction::Tag(*p),
            None => AgentAction::Stay,
        }
    }
}

#[test]
fn new_simulation_is_empty_with_given_size() {
    let sim = Simulation::new(2, 3);
    assert_eq!(sim.rows(), 2);
    assert_eq!(sim.cols(), 3);
    for y in 0..2 {
        for x in 0..3 {
            assert_eq!(sim.cell_state(x, y), Some(CellState::Empty));
            assert_eq!(sim.agent_id_at(x, y), None);
        }
    }
    assert_eq!(sim.cell_state(3, 0), None);
    assert_eq!(sim.cell_state(0, 2), None);
    assert_eq!(sim.current_tagger(), None);
    assert_eq!(sim.tagback_immune_agent(), None);
}

#[test]
fn agents_get_identities_in_placement_order() {
    let mut sim = Simulation::new(2, 3);
    sim.place_agent(test_agent(), 2, 1).unwrap();
    sim.place_agent(test_agent(), 0, 0).unwrap();
    assert!(sim.place_agent(test_agent(), 0, 0).is_err());
    sim.place_agent(test_agent(), 1, 0).unwrap();
    assert_eq!(agent_id_at(&sim, 2, 1), AgentId(0));
    assert_eq!(agent_id_at(&sim, 0, 0), AgentId(1));
    assert_eq!(agent_id_at(&sim, 1, 0), AgentId(2));
}

#[test]
fn cell_state_reports_tagger_immune_and_agents() {
    let mut sim = Simulation::new(1, 4);
    sim.place_agent(test_agent(), 0, 0).unwrap();
    sim.place_agent(test_agent(), 1, 0).unwrap();
    sim.place_agent(test_agent(), 2, 0).unwrap();
    sim.set_current_tagger(Some(AgentId(0)));
    sim.set_tagback_immune_agent(Some(AgentId(1)));
    assert_eq!(sim.cell_state(0, 0), Some(CellState::Tagger));
    assert_eq!(sim.cell_state(1, 0), Some(CellState::TagbackImmune));
    assert_eq!(sim.cell_state(2, 0), Some(CellState::Agent));
    assert_eq!(sim.cell_state(3, 0), Some(CellState::Empty));
    assert_eq!(sim.cell_symbol(0, 0), 'T');
    assert_eq!(sim.cell_symbol(1, 0), 'x');
    assert_eq!(sim.cell_symbol(2, 0), 'x');
    assert_eq!(sim.cell_symbol(3, 0), '.');
}

#[test]
fn ensure_tagger_chosen_does_nothing_without_agents() {
    let mut sim = Simulation::new(2, 2);
    sim.ensure_tagger_chosen();
    assert_eq!(sim.current_tagger(), None);
}

#[test]
fn ensure_tagger_chosen_picks_a_placed_agent() {
    let mut sim = Simulation::new(2, 2);
    sim.place_agent(test_agent(), 0, 0).unwrap();
    sim.place_agent(test_agent(), 1, 1).unwrap();
    for _ in 0..20 {
        let mut copy = Simulation::new(1, 1);
        copy.place_agent(test_agent(), 0, 0).unwrap();
        copy.ensure_tagger_chosen();
        assert_eq!(copy.current_tagger(), Some(AgentId(0)));
    }
    sim.ensure_tagger_chosen();
    let tagger = sim.current_tagger().expect("a tagger is chosen");
    assert!(tagger == AgentId(0) || tagger == AgentId(1));
}

#[test]
fn ensure_tagger_chosen_keeps_existing_tagger() {
    let mut sim = Simulation::new(2, 2);
    sim.place_agent(test_agent(), 0, 0).unwrap();
    sim.place_agent(test_agent(), 1, 1).unwrap();
    sim.set_current_tagger(Some(AgentId(1)));
    sim.ensure_tagger_chosen();
    assert_eq!(sim.current_tagger(), Some(AgentId(1)));
}

#[test]
fn step_lets_each_agent_act_once_even_when_it_moves_ahead() {
    let seen = std::rc::Rc::new(std::cell::RefCell::new(Vec::new()));
    let mut sim = Simulation::new(1, 4);
    sim.place_agent(Box::new(RightMover { seen: seen.clone() }), 0, 0)
        .unwrap();
    sim.step();
    // The agent moved from column 0 to column 1, which the step visits next,
    // but it acted only once.
    assert_eq!(seen.borrow().len(), 1);
    assert_eq!(seen.borrow()[0], (Point2D { x: 0, y: 0 }, 0, false));
    assert!(sim.agent_id_at(1, 0).is_some());
    assert!(sim.agent_id_at(0, 0).is_none());
    sim.step();
    assert_eq!(seen.borrow().len(), 2);
    assert!(sim.agent_id_at(2, 0).is_some());
}

#[test]
fn step_keeps_every_agent_on_the_grid() {
    let seen = std::rc::Rc::new(std::cell::RefCell::new(Vec::new()));
    let mut sim = Simulation::new(2, 3);
    sim.place_agent(Box::new(RightMover { seen: seen.clone() }), 0, 0)
        .unwrap();
    sim.place_agent(Box::new(RightMover { seen: seen.clone() }), 2, 0)
        .unwrap();
    sim.place_agent(Box::new(RightMover { seen: seen.clone() }), 1, 1)
        .unwrap();
    for _ in 0..5 {
        sim.step();
        let mut count = 0;
        for y in 0..2 {
            for x in 0..3 {
                if sim.agent_id_at(x, y).is_some() {
                    count += 1;
                }
            }
        }
        assert_eq!(count, 3);
    }
    // Three agents, five steps: fifteen turns.
    assert_eq!(seen.borrow().len(), 15);
}

#[test]
fn step_passes_the_tag_and_the_new_tagger_cannot_tag_back() {
    let mut sim = Simulation::new(1, 2);
    sim.place_agent(Box::new(Tagger), 0, 0).unwrap();
    sim.place_agent(Box::new(Tagger), 1, 0).unwrap();
    sim.set_current_tagger(Some(AgentId(0)));
    sim.step();
    assert_eq!(sim.current_tagger(), Some(AgentId(1)));
    assert_eq!(sim.tagback_immune_agent(), Some(AgentId(0)));
    // Agent 1 may not tag agent 0 back.
    sim.step();
    assert_eq!(sim.current_tagger(), Some(AgentId(1)));
    assert_eq!(
        sim.find_taggable_positions(AgentId(1), Point2D { x: 1, y: 0 }),
        vec![]
    );
}

#[test]
fn taggable_positions_come_left_right_up_down() {
    let mut sim = Simulation::new(3, 3);
    sim.place_agent(test_agent(), 1, 1).unwrap();
    sim.place_agent(test_agent(), 1, 2).unwrap();
    sim.place_agent(test_agent(), 1, 0).unwrap();
    sim.place_agent(test_agent(), 2, 1).unwrap();
    sim.place_agent(test_agent(), 0, 1).unwrap();
    sim.set_current_tagger(Some(AgentId(0)));
    assert_eq!(
        sim.find_taggable_positions(AgentId(0), Point2D { x: 1, y: 1 }),
        vec![
            Point2D { x: 0, y: 1 },
            Point2D { x: 2, y: 1 },
            Point2D { x: 1, y: 0 },
            Point2D { x: 1, y: 2 },
        ]
    );
}

#[test]
fn stay_changes_nothing() {
    let mut sim = Simulation::new(1, 2);
    sim.place_agent(test_agent(), 0, 0).unwrap();
    assert!(sim.apply_action(Point2D { x: 0, y: 0 }, AgentAction::Stay).is_ok());
    assert_eq!(sim.agent_id_at(0, 0), Some(AgentId(0)));
}

#[test]
fn move_may_jump_to_any_empty_cell() {
    let mut sim = Simulation::new(3, 3);
    sim.place_agent(test_agent(), 0, 0).unwrap();
    let result = sim.apply_action(
        Point2D { x: 0, y: 0 },
        AgentAction::Move(Point2D { x: 2, y: 2 }),
    );
    assert!(result.is_ok());
    assert_eq!(sim.agent_id_at(2, 2), Some(AgentId(0)));
    assert_eq!(sim.agent_id_at(0, 0), None);
}

#[test]
fn tag_of_empty_cell_is_ignored() {
    let mut sim = Simulation::new(1, 2);
    sim.place_agent(test_agent(), 0, 0).unwrap();
    sim.set_current_tagger(Some(AgentId(0)));
    assert!(sim
        .apply_action(Point2D { x: 0, y: 0 }, AgentAction::Tag(Point2D { x: 1, y: 0 }))
        .is_ok());
    assert_eq!(sim.current_tagger(), Some(AgentId(0)));
    assert_eq!(sim.tagback_immune_agent(), None);
}

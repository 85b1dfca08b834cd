//! An agent that decides at random.
use vstd::prelude::*;

use crate::random::{random_below, random_ratio};
use crate::simulation::{Agent, AgentAction, AgentInput, InputView, Point2D};

verus! {

/// A direction of a one-cell move.
pub enum Direction {
    Up,
    Down,
    Left,
    Right,
}

/// The cell one step from `p` in `direction`, stopping at the ends of the
/// range of `usize`.
pub open spec fn stepped(p: Point2D, direction: Direction) -> Point2D {
    match direction {
        Direction::Up => Point2D { x: p.x, y: if p.y > 0 { (p.y - 1) as usize } else { 0 } },
        Direction::Down => Point2D {
            x: p.x,
            y: if p.y < usize::MAX { (p.y + 1) as usize } else { usize::MAX },
        },
        Direction::Left => Point2D { x: if p.x > 0 { (p.x - 1) as usize } else { 0 }, y: p.y },
        Direction::Right => Point2D {
            x: if p.x < usize::MAX { (p.x + 1) as usize } else { usize::MAX },
            y: p.y,
        },
    }
}

/// What a naive agent on `position` answers, given the outcome of its draws:
/// the index of the target it chose to tag, if it chose to tag, and
/// otherwise the direction it chose to move in, if it chose to move.
pub open spec fn naive_decision(
    position: Point2D,
    taggable_positions: Seq<Point2D>,
    tag_choice: Option<nat>,
    move_choice: Option<Direction>,
) -> AgentAction {
    match tag_choice {
        Some(i) => AgentAction::Tag(taggable_positions[i as int]),
        None => match move_choice {
            Some(d) => AgentAction::Move(stepped(position, d)),
            None => AgentAction::Stay,
        },
    }
}

/// Every decision of a naive agent is an answer it may give.
pub proof fn lemma_naive_decision_allowed(
    position: Point2D,
    taggable_positions: Seq<Point2D>,
    tag_choice: Option<nat>,
    move_choice: Option<Direction>,
)
    requires
        tag_choice matches Some(i) ==> i < taggable_positions.len(),
    ensures
        naive_may_answer(
            position,
            taggable_positions,
            naive_decision(position, taggable_positions, tag_choice, move_choice),
        ),
{
    if let Some(i) = tag_choice {
        assert(taggable_positions[i as int] == taggable_positions[i as int]);
    }
}

/// Carries out the decision of a naive agent on `position` (see `naive_decision`).
pub fn naive_action(
    position: Point2D,
    taggable_positions: &Vec<Point2D>,
    tag_choice: Option<usize>,
    move_choice: Option<Direction>,
) -> (action: AgentAction)
    requires
        tag_choice matches Some(i) ==> i < taggable_positions@.len(),
    ensures
        action == naive_decision(
            position,
            taggable_positions@,
            match tag_choice {
                Some(i) => Some(i as nat),
                None => None,
            },
            move_choice,
        ),
{
    match tag_choice {
        Some(i) => AgentAction::Tag(taggable_positions[i]),
        None => match move_choice {
            Some(direction) => AgentAction::Move(position.move_in_direction(direction)),
            None => AgentAction::Stay,
        },
    }
}

/// The one-cell moves from `p`, kept inside the range of `usize`: up, down,
/// left or right.
pub open spec fn is_one_step_from(p: Point2D, m: Point2D) -> bool {
    ||| m == Point2D { x: p.x, y: if p.y > 0 { (p.y - 1) as usize } else { 0 } }
    ||| m == Point2D { x: p.x, y: if p.y < usize::MAX { (p.y + 1) as usize } else { usize::MAX } }
    ||| m == Point2D { x: if p.x > 0 { (p.x - 1) as usize } else { 0 }, y: p.y }
    ||| m == Point2D { x: if p.x < usize::MAX { (p.x + 1) as usize } else { usize::MAX }, y: p.y }
}

/// An agent that, when it may tag, tags one of its targets with even odds;
/// otherwise it moves one cell in a random direction with even odds, or stays.
pub struct NaiveAgent;

/// What a naive agent may answer: a tag of a position it may tag, a move
/// of one cell, or staying.
pub open spec fn naive_may_answer(
    position: Point2D,
    taggable_positions: Seq<Point2D>,
    action: AgentAction,
) -> bool {
    match action {
        AgentAction::Tag(t) => taggable_positions.contains(t),
        AgentAction::Move(m) => is_one_step_from(position, m),
        AgentAction::Stay => true,
    }
}

impl Agent for NaiveAgent {
    open spec fn chooses(&self, input: InputView, action: AgentAction) -> bool {
        naive_may_answer(input.position, input.taggable_positions, action)
    }

    fn act(&self, input: AgentInput) -> (action: AgentAction)
        ensures
            naive_may_answer(input@.position, input@.taggable_positions, action),
    {
        self.naive_act(input.position, &input.taggable_positions)
    }
}

impl NaiveAgent {
    /// What a naive agent on `position` does when it may tag
    /// `taggable_positions`; it needs nothing more of its input.
    pub fn naive_act(&self, position: Point2D, taggable_positions: &Vec<Point2D>) -> (action:
        AgentAction)
        ensures
            naive_may_answer(position, taggable_positions@, action),
    {
        // With a target in reach, tag one of them at random half of the time
        let tag_choice = if taggable_positions.len() > 0 && random_ratio(1, 2) {
            Some(random_below(taggable_positions.len()))
        } else {
            None
        };
        // Otherwise move in a random direction half of the time
        let move_choice = if tag_choice.is_none() && random_ratio(1, 2) {
            Some(self.decide_direction())
        } else {
            None
        };
        let action = naive_action(position, taggable_positions, tag_choice, move_choice);
        proof {
            lemma_naive_decision_allowed(
                position,
                taggable_positions@,
                match tag_choice {
                    Some(i) => Some(i as nat),
                    None => None,
                },
                move_choice,
            );
        }
        action
    }

    fn decide_direction(&self) -> Direction {
        direction_from_index(random_below(4))
    }
}

/// The direction numbered `i`: up, down, left, right for 0 to 3.
fn direction_from_index(i: usize) -> (d: Direction)
    requires
        i < 4,
    ensures
        i == 0 ==> d == Direction::Up,
        i == 1 ==> d == Direction::Down,
        i == 2 ==> d == Direction::Left,
        i == 3 ==> d == Direction::Right,
{
    match i {
        0 => Direction::Up,
        1 => Direction::Down,
        2 => Direction::Left,
        _ => Direction::Right,
    }
}

impl Point2D {
    /// One cell in `direction`, stopping at the ends of the range of `usize`.
    fn move_in_direction(&self, direction: Direction) -> (r: Self)
        ensures
            is_one_step_from(*self, r),
            r == stepped(*self, direction),
            direction == Direction::Up ==> r == (Point2D {
                x: self.x,
                y: if self.y > 0 { (self.y - 1) as usize } else { 0 },
            }),
            direction == Direction::Down ==> r == (Point2D {
                x: self.x,
                y: if self.y < usize::MAX { (self.y + 1) as usize } else { usize::MAX },
            }),
            direction == Direction::Left ==> r == (Point2D {
                x: if self.x > 0 { (self.x - 1) as usize } else { 0 },
                y: self.y,
            }),
            direction == Direction::Right ==> r == (Point2D {
                x: if self.x < usize::MAX { (self.x + 1) as usize } else { usize::MAX },
                y: self.y,
            }),
    {
        match direction {
            Direction::Up => Self { x: self.x, y: self.y.saturating_sub(1) },
            Direction::Down => Self { x: self.x, y: self.y.saturating_add(1) },
            Direction::Left => Self { x: self.x.saturating_sub(1), y: self.y },
            Direction::Right => Self { x: self.x.saturating_add(1), y: self.y },
        }
    }
}

} // verus!

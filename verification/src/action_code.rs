//! The numeric codes by which an action crosses into a foreign runtime: a
//! kind, followed by the target cell for a move or a tag.
use vstd::prelude::*;

use crate::simulation::{AgentAction, Point2D};

verus! {

pub const ACTION_STAY: u8 = 0;

pub const ACTION_MOVE: u8 = 1;

pub const ACTION_TAG: u8 = 2;

/// The action that a kind and a cell stand for: a stay needs no cell, a move
/// and a tag need one; any other kind stands for nothing.
pub open spec fn decoded(kind: u8, point: Option<Point2D>) -> Option<AgentAction> {
    if kind == ACTION_STAY {
        Some(AgentAction::Stay)
    } else if kind == ACTION_MOVE {
        match point {
            Some(p) => Some(AgentAction::Move(p)),
            None => None,
        }
    } else if kind == ACTION_TAG {
        match point {
            Some(p) => Some(AgentAction::Tag(p)),
            None => None,
        }
    } else {
        None
    }
}

/// The kind of an action and the cell it carries.
pub open spec fn encoded(action: AgentAction) -> (u8, Option<Point2D>) {
    match action {
        AgentAction::Stay => (ACTION_STAY, None),
        AgentAction::Move(p) => (ACTION_MOVE, Some(p)),
        AgentAction::Tag(p) => (ACTION_TAG, Some(p)),
    }
}

/// Reads an action from its kind and the cell that came with it.
pub fn decode_action(kind: u8, point: Option<Point2D>) -> (r: Option<AgentAction>)
    ensures
        r == decoded(kind, point),
{
    if kind == ACTION_STAY {
        Some(AgentAction::Stay)
    } else if kind == ACTION_MOVE {
        match point {
            Some(p) => Some(AgentAction::Move(p)),
            None => None,
        }
    } else if kind == ACTION_TAG {
        match point {
            Some(p) => Some(AgentAction::Tag(p)),
            None => None,
        }
    } else {
        None
    }
}

/// Writes an action as its kind and the cell it carries.
pub fn encode_action(action: AgentAction) -> (r: (u8, Option<Point2D>))
    ensures
        r == encoded(action),
{
    match action {
        AgentAction::Stay => (ACTION_STAY, None),
        AgentAction::Move(p) => (ACTION_MOVE, Some(p)),
        AgentAction::Tag(p) => (ACTION_TAG, Some(p)),
    }
}

/// Reading back a written action gives the action.
pub proof fn lemma_decode_encode(action: AgentAction)
    ensures
        decoded(encoded(action).0, encoded(action).1) == Some(action),
{
}

/// A kind that was read as an action, written again, gives the same kind;
/// for a move or a tag, the same cell too.
pub proof fn lemma_encode_decode(kind: u8, point: Option<Point2D>)
    requires
        decoded(kind, point) is Some,
    ensures
        encoded(decoded(kind, point).unwrap()).0 == kind,
        kind != ACTION_STAY ==> encoded(decoded(kind, point).unwrap()).1 == point,
{
}

} // verus!

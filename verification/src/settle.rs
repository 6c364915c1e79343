//! How a particle settles after its velocity step: which states gravity speeds up, and which
//! short moves a particle of each state tries, in order, until one succeeds.

use vstd::prelude::*;
use crate::element::StateOfMatter;

verus! {

/// A short move relative to the settling direction `(s, v)`, where `v` is the step along
/// gravity (against it for a gas) and `s` the sideways step that a random bias picks.
#[derive(Debug, Clone, Copy, PartialEq, Eq, Structural)]
pub enum SettleMove {
    /// `(0, v)`: straight along the settling direction.
    Fall,
    /// `(s, v)`: along it and to the biased side.
    FallAhead,
    /// `(-s, v)`: along it and to the other side.
    FallBehind,
    /// `(s, 0)`: sideways, to the biased side.
    Ahead,
    /// `(-s, 0)`: sideways, to the other side.
    Behind,
}

/// Gravity speeds up every particle but a solid one.
pub open spec fn spec_feels_gravity(kind: StateOfMatter) -> bool {
    kind != StateOfMatter::Solid
}

/// The moves a particle of state `kind` tries when it settles, in order; `falls` says
/// whether the settling direction has a part along gravity. Powder falls straight or
/// diagonally; a liquid also spreads sideways; a gas rises diagonally first, then straight,
/// then spreads; solids and energy do not settle, nor do powder and liquid when there is
/// nowhere to fall.
pub open spec fn settle_plan(kind: StateOfMatter, falls: bool) -> Seq<SettleMove> {
    match kind {
        StateOfMatter::Powder => if falls {
            seq![SettleMove::Fall, SettleMove::FallAhead, SettleMove::FallBehind]
        } else {
            Seq::empty()
        },
        StateOfMatter::Liquid => if falls {
            seq![
                SettleMove::Fall,
                SettleMove::FallAhead,
                SettleMove::FallBehind,
                SettleMove::Ahead,
                SettleMove::Behind,
            ]
        } else {
            Seq::empty()
        },
        StateOfMatter::Gas => seq![
            SettleMove::FallAhead,
            SettleMove::Fall,
            SettleMove::FallBehind,
            SettleMove::Ahead,
            SettleMove::Behind,
        ],
        StateOfMatter::Solid | StateOfMatter::Energy => Seq::empty(),
    }
}

/// Whether gravity speeds up a particle of state `kind`.
pub fn feels_gravity(kind: StateOfMatter) -> (b: bool)
    ensures
        b == spec_feels_gravity(kind),
{
    match kind {
        StateOfMatter::Solid => false,
        _ => true,
    }
}

/// The moves a particle of state `kind` tries when it settles, to be tried in order until
/// one succeeds.
pub fn settle_moves(kind: StateOfMatter, falls: bool) -> (moves: Vec<SettleMove>)
    ensures
        moves@ == settle_plan(kind, falls),
{
    let mut moves: Vec<SettleMove> = Vec::new();
    match kind {
        StateOfMatter::Powder => {
            if falls {
                moves.push(SettleMove::Fall);
                moves.push(SettleMove::FallAhead);
                moves.push(SettleMove::FallBehind);
            }
        },
        StateOfMatter::Liquid => {
            if falls {
                moves.push(SettleMove::Fall);
                moves.push(SettleMove::FallAhead);
                moves.push(SettleMove::FallBehind);
                moves.push(SettleMove::Ahead);
                moves.push(SettleMove::Behind);
            }
        },
        StateOfMatter::Gas => {
            moves.push(SettleMove::FallAhead);
            moves.push(SettleMove::Fall);
            moves.push(SettleMove::FallBehind);
            moves.push(SettleMove::Ahead);
            moves.push(SettleMove::Behind);
        },
        StateOfMatter::Solid | StateOfMatter::Energy => {},
    }
    assert(moves@ =~= settle_plan(kind, falls));
    moves
}

} // verus!

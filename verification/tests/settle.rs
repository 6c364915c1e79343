use dogeis_powder::element::{Element, StateOfMatter};
use dogeis_powder::settle::{feels_gravity, settle_moves, SettleMove};

#[test]
fn settle_gravity_spares_solids() {
    assert!(feels_gravity(StateOfMatter::Powder));
    assert!(feels_gravity(StateOfMatter::Liquid));
    assert!(feels_gravity(StateOfMatter::Gas));
    assert!(feels_gravity(StateOfMatter::Energy));
    assert!(!feels_gravity(StateOfMatter::Solid));
    assert!(!feels_gravity(Element::Wood.kind()));
    assert!(feels_gravity(Element::Sand.kind()));
}

#[test]
fn settle_powder_falls_straight_then_diagonally() {
    assert_eq!(
        settle_moves(StateOfMatter::Powder, true),
        vec![SettleMove::Fall, SettleMove::FallAhead, SettleMove::FallBehind]
    );
    assert_eq!(settle_moves(StateOfMatter::Powder, false), vec![]);
}

#[test]
fn settle_liquid_also_spreads() {
    assert_eq!(
        settle_moves(StateOfMatter::Liquid, true),
        vec![SettleMove::Fall, SettleMove::FallAhead, SettleMove::FallBehind, SettleMove::Ahead, SettleMove::Behind]
    );
    assert_eq!(settle_moves(StateOfMatter::Liquid, false), vec![]);
}

#[test]
fn settle_gas_rises_diagonally_first() {
    let expected = vec![SettleMove::FallAhead, SettleMove::Fall, SettleMove::FallBehind, SettleMove::Ahead, SettleMove::Behind];
    assert_eq!(settle_moves(StateOfMatter::Gas, true), expected);
    assert_eq!(settle_moves(StateOfMatter::Gas, false), expected);
}

#[test]
fn settle_solids_and_energy_stay() {
    assert_eq!(settle_moves(StateOfMatter::Solid, true), vec![]);
    assert_eq!(settle_moves(StateOfMatter::Energy, true), vec![]);
}

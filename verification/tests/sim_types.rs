use street_network::network::{IntersectionID, LaneID, TurnID};
use street_network::sim::{CarID, On, PedestrianID, Tick};

#[test]
fn tick_starts_at_zero_and_increments() {
    let mut t = Tick::zero();
    assert_eq!(t.value(), 0);
    t.increment();
    t.increment();
    assert_eq!(t.value(), 2);
}

#[test]
fn tick_spans_subtract() {
    let mut a = Tick::zero();
    a.increment();
    a.increment();
    a.increment();
    let mut b = Tick::zero();
    b.increment();
    assert_eq!(a.minus(&b).value(), 2);
    assert_eq!(a.minus(&a).value(), 0);
}

#[test]
fn on_projects_to_lane_or_turn() {
    let lane = On::Lane(LaneID(3));
    assert_eq!(lane.as_lane(), LaneID(3));
    assert_eq!(lane.maybe_turn(), None);

    let tid = TurnID { parent: IntersectionID(1), src: LaneID(2), dst: LaneID(4) };
    let turn = On::Turn(tid);
    assert_eq!(turn.as_turn(), tid);
    assert_eq!(turn.maybe_turn(), Some(tid));
}

#[test]
fn agent_identifiers_compare_by_value() {
    assert_eq!(CarID(7), CarID(7));
    assert!(CarID(7) != CarID(8));
    assert_eq!(PedestrianID(1), PedestrianID(1));
    assert!(PedestrianID(1) != PedestrianID(2));
}

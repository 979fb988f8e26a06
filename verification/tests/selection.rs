use ta_reborn::selection::{order, sort_ids};
use ta_reborn::{Command, Fx, FxVec2, UnitId};

fn target() -> FxVec2 {
    FxVec2::new(Fx::from_int(10), Fx::from_int(20))
}

#[test]
fn nothing_selected_gives_no_order() {
    assert_eq!(order(vec![], true, None), None);
    assert_eq!(order(vec![], false, Some(target())), None);
}

#[test]
fn stop_lists_the_units_by_id() {
    assert_eq!(
        order(vec![UnitId(5), UnitId(2), UnitId(9)], true, Some(target())),
        Some(Command::Stop { units: vec![UnitId(2), UnitId(5), UnitId(9)] })
    );
}

#[test]
fn click_moves_the_units_to_the_target() {
    assert_eq!(
        order(vec![UnitId(3), UnitId(1)], false, Some(target())),
        Some(Command::Move { units: vec![UnitId(1), UnitId(3)], target: target() })
    );
    assert_eq!(order(vec![UnitId(3)], false, None), None);
}

#[test]
fn sorting_keeps_every_id() {
    assert_eq!(
        sort_ids(&vec![UnitId(4), UnitId(4), UnitId(0), UnitId(7), UnitId(1)]),
        vec![UnitId(0), UnitId(1), UnitId(4), UnitId(4), UnitId(7)]
    );
}

#[test]
fn only_own_units_are_selectable() {
    let sim = ta_reborn::Sim::new(4, 2);
    let mine = ta_reborn::selection::selectable(sim.units(), 1);
    assert!(!mine.is_empty());
    for id in &mine {
        assert_eq!(sim.unit(*id).unwrap().owner, 1);
    }
    let all_of_player: Vec<UnitId> =
        sim.units().iter().filter(|u| u.owner == 1).map(|u| u.id).collect();
    assert_eq!(mine, all_of_player);
}

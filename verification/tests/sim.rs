use ta_reborn::{Command, Fx, FxVec2, PlayerId, Sim, UnitId, TICK_RATE};

fn own_units(sim: &Sim, player: PlayerId) -> Vec<UnitId> {
    sim.units()
        .iter()
        .filter(|u| u.owner == player)
        .map(|u| u.id)
        .collect()
}

fn point(x: i32, z: i32) -> FxVec2 {
    FxVec2::new(Fx::from_int(x), Fx::from_int(z))
}

#[test]
fn move_reaches_target_and_stops() {
    let mut sim = Sim::new(1, 2);
    let id = own_units(&sim, 0)[0];
    let target = point(100, 120);
    sim.apply(
        0,
        &Command::Move {
            units: vec![id],
            target,
        },
    );
    for _ in 0..TICK_RATE * 60 {
        sim.step();
    }
    let unit = sim.unit(id).unwrap();
    assert_eq!(unit.pos, target);
    assert_eq!(unit.target, None);
}

#[test]
fn group_move_spreads_units_around_target() {
    let mut sim = Sim::new(1, 2);
    let ids = own_units(&sim, 1);
    let target = point(128, 128);
    sim.apply(
        1,
        &Command::Move {
            units: ids.clone(),
            target,
        },
    );
    let dests: Vec<FxVec2> = ids
        .iter()
        .map(|&id| sim.unit(id).unwrap().target.unwrap())
        .collect();
    for (i, a) in dests.iter().enumerate() {
        assert!(
            dests[i + 1..].iter().all(|b| b != a),
            "two units share a slot"
        );
    }
    let sum = dests
        .iter()
        .fold(FxVec2::default(), |acc, &d| acc + (d - target));
    assert_eq!(
        sum,
        FxVec2::default(),
        "formation is not centered on the target"
    );
}

#[test]
fn players_cannot_command_enemy_units() {
    let mut sim = Sim::new(1, 2);
    let enemy = own_units(&sim, 0);
    sim.apply(
        1,
        &Command::Move {
            units: enemy.clone(),
            target: point(10, 10),
        },
    );
    assert!(
        enemy
            .iter()
            .all(|&id| sim.unit(id).unwrap().target.is_none())
    );
}

#[test]
fn stop_cancels_move() {
    let mut sim = Sim::new(1, 1);
    let units = own_units(&sim, 0);
    sim.apply(
        0,
        &Command::Move {
            units: units.clone(),
            target: point(10, 10),
        },
    );
    sim.apply(
        0,
        &Command::Stop {
            units: units.clone(),
        },
    );
    assert!(
        units
            .iter()
            .all(|&id| sim.unit(id).unwrap().target.is_none())
    );
}

#[test]
fn same_inputs_give_same_state() {
    let run = |target: FxVec2| {
        let mut sim = Sim::new(42, 2);
        let units = own_units(&sim, 0);
        sim.apply(0, &Command::Move { units, target });
        for _ in 0..100 {
            sim.step();
        }
        sim.checksum()
    };
    assert_eq!(run(point(50, 60)), run(point(50, 60)));
    assert_ne!(run(point(50, 60)), run(point(50, 61)));
}

fn distance_sq(a: FxVec2, b: FxVec2) -> i128 {
    let dx = (a.x.raw() - b.x.raw()) as i128;
    let dz = (a.z.raw() - b.z.raw()) as i128;
    dx * dx + dz * dz
}

#[test]
fn new_match_places_armies_west_and_east() {
    let sim = Sim::new(9, 2);
    assert_eq!(sim.tick(), 0);
    assert_eq!(sim.terrain().size(), 128);
    let units = sim.units();
    assert_eq!(units.len(), 12);
    for (k, unit) in units.iter().enumerate() {
        assert_eq!(unit.id, UnitId(k as u32));
        assert_eq!(unit.owner as usize, k / 6);
        assert_eq!(unit.target, None);
    }
    // First unit of player 0: 51.2 m - 4 m east, 128 m - 2 m north.
    assert_eq!(units[0].pos.x.raw(), 219_902_325_504 - 4 * (1 << 32));
    assert_eq!(units[0].pos.z, Fx::from_int(126));
    // Last unit of player 1: around 204.8 m, in the far corner of its formation.
    assert_eq!(units[11].pos.x.raw(), 879_609_302_016 + 4 * (1 << 32));
    assert_eq!(units[11].pos.z, Fx::from_int(130));
    assert_eq!(Sim::new(9, 1).units().len(), 6);
}

#[test]
fn unknown_unit_is_none() {
    let sim = Sim::new(1, 1);
    assert!(sim.unit(UnitId(6)).is_none());
    assert_eq!(sim.unit(UnitId(5)).unwrap().id, UnitId(5));
}

#[test]
fn step_advances_the_tick() {
    let mut sim = Sim::new(1, 1);
    let before = sim.checksum();
    sim.step();
    assert_eq!(sim.tick(), 1);
    // Nothing moved, but the tick is part of the state.
    assert_ne!(sim.checksum(), before);
}

#[test]
fn moving_unit_gets_closer_every_tick_then_arrives() {
    let mut sim = Sim::new(3, 1);
    let id = own_units(&sim, 0)[2];
    let target = point(60, 100);
    sim.apply(0, &Command::Move { units: vec![id], target });
    let mut last = distance_sq(sim.unit(id).unwrap().pos, target);
    let mut ticks = 0;
    while sim.unit(id).unwrap().target.is_some() {
        sim.step();
        ticks += 1;
        let now = distance_sq(sim.unit(id).unwrap().pos, target);
        assert!(now < last);
        last = now;
    }
    assert_eq!(sim.unit(id).unwrap().pos, target);
    // About 27 m at 0.2 m per tick.
    assert!(ticks > 100 && ticks < 200);
}

#[test]
fn close_unit_arrives_in_one_tick() {
    let mut sim = Sim::new(3, 1);
    let id = own_units(&sim, 0)[0];
    let pos = sim.unit(id).unwrap().pos;
    let target = FxVec2::new(pos.x + Fx::ratio(1, 10), pos.z);
    sim.apply(0, &Command::Move { units: vec![id], target });
    sim.step();
    assert_eq!(sim.unit(id).unwrap().pos, target);
    assert_eq!(sim.unit(id).unwrap().target, None);
}

#[test]
fn stop_only_reaches_listed_units() {
    let mut sim = Sim::new(1, 1);
    let units = own_units(&sim, 0);
    sim.apply(0, &Command::Move { units: units.clone(), target: point(30, 30) });
    sim.apply(0, &Command::Stop { units: vec![units[1], UnitId(77)] });
    for (k, &id) in units.iter().enumerate() {
        assert_eq!(sim.unit(id).unwrap().target.is_none(), k == 1);
    }
}

#[test]
fn listed_twice_takes_the_last_slot() {
    let mut sim = Sim::new(1, 1);
    let id = own_units(&sim, 0)[0];
    sim.apply(0, &Command::Move { units: vec![id, id], target: point(100, 100) });
    // Two slots, one row: 2 m west and 2 m east of the target; the later one wins.
    assert_eq!(sim.unit(id).unwrap().target, Some(point(102, 100)));
}

#[test]
fn destinations_are_held_on_the_map() {
    let mut sim = Sim::new(1, 1);
    let units = own_units(&sim, 0);
    sim.apply(0, &Command::Move { units: units.clone(), target: point(-50, 300) });
    for id in units {
        assert_eq!(sim.unit(id).unwrap().target, Some(point(0, 256)));
    }
}

#[test]
fn accepts_rejects_orders_that_overflow() {
    let sim = Sim::new(1, 1);
    let units = own_units(&sim, 0);
    let far = FxVec2::new(Fx::from_raw(i64::MAX), Fx::zero());
    assert!(sim.accepts(0, &Command::Move { units: vec![units[0]], target: far }));
    assert!(!sim.accepts(0, &Command::Move { units: vec![units[0], units[1]], target: far }));
    // Units of another player are ignored, so the order moves nothing and fits.
    assert!(sim.accepts(1, &Command::Move { units: vec![units[0], units[1]], target: far }));
    assert!(sim.accepts(0, &Command::Stop { units }));
}

#[test]
fn formations_of_various_sizes_have_distinct_slots() {
    for n in 1..=10usize {
        let mut sim = Sim::new(5, 2);
        let mut ids = own_units(&sim, 0);
        ids.extend(own_units(&sim, 1));
        // Player 1 orders its own units only.
        let listed: Vec<UnitId> = own_units(&sim, 1).into_iter().cycle().take(n.min(6)).collect();
        sim.apply(1, &Command::Move { units: listed.clone(), target: point(128, 128) });
        let dests: Vec<FxVec2> = listed.iter().map(|&id| sim.unit(id).unwrap().target.unwrap()).collect();
        for i in 0..dests.len() {
            for j in i + 1..dests.len() {
                assert_ne!(dests[i], dests[j]);
            }
        }
        for id in own_units(&sim, 0) {
            assert!(sim.unit(id).unwrap().target.is_none());
        }
    }
}

#[test]
fn full_formation_of_four_is_a_centred_square() {
    let mut sim = Sim::new(5, 1);
    let ids: Vec<UnitId> = own_units(&sim, 0).into_iter().take(4).collect();
    let target = point(100, 50);
    sim.apply(0, &Command::Move { units: ids.clone(), target });
    let dests: Vec<FxVec2> = ids.iter().map(|&id| sim.unit(id).unwrap().target.unwrap()).collect();
    assert_eq!(dests, vec![point(98, 48), point(102, 48), point(98, 52), point(102, 52)]);
}

#[test]
fn partial_formation_of_five() {
    let mut sim = Sim::new(5, 1);
    let ids: Vec<UnitId> = own_units(&sim, 0).into_iter().take(5).collect();
    sim.apply(0, &Command::Move { units: ids.clone(), target: point(100, 50) });
    let dests: Vec<FxVec2> = ids.iter().map(|&id| sim.unit(id).unwrap().target.unwrap()).collect();
    // Three columns, two rows.
    assert_eq!(
        dests,
        vec![point(96, 48), point(100, 48), point(104, 48), point(96, 52), point(100, 52)]
    );
}

#[test]
fn checksum_covers_the_map() {
    assert_ne!(Sim::new(1, 1).checksum(), Sim::new(2, 1).checksum());
    assert_eq!(Sim::new(1, 1).checksum(), Sim::new(1, 1).checksum());
}

#[test]
fn moving_unit_never_overshoots_and_keeps_its_identity() {
    let mut sim = Sim::new(5, 2);
    let roster: Vec<_> = sim.units().iter().map(|u| (u.id, u.owner)).collect();
    let id = own_units(&sim, 1)[0];
    let target = point(30, 40);
    sim.apply(1, &Command::Move { units: vec![id], target });
    let between = |a: i64, b: i64, v: i64| a.min(b) <= v && v <= a.max(b);
    for _ in 0..2000 {
        let before = sim.unit(id).unwrap().pos;
        sim.step();
        let after = sim.unit(id).unwrap().pos;
        assert!(between(before.x.raw(), target.x.raw(), after.x.raw()));
        assert!(between(before.z.raw(), target.z.raw(), after.z.raw()));
    }
    assert_eq!(sim.unit(id).unwrap().pos, target);
    let now: Vec<_> = sim.units().iter().map(|u| (u.id, u.owner)).collect();
    assert_eq!(now, roster);
}

#[test]
fn move_arrives_within_distance_over_speed_plus_two_ticks() {
    let mut sim = Sim::new(8, 1);
    let id = own_units(&sim, 0)[4];
    let target = point(200, 37);
    sim.apply(0, &Command::Move { units: vec![id], target });
    let start = sim.unit(id).unwrap().pos;
    let d = (target - start).length();
    let ticks = d.raw() / Fx::ratio(1, 5).raw() + 2;
    for _ in 0..ticks {
        sim.step();
    }
    assert_eq!(sim.unit(id).unwrap().pos, target);
    assert!(sim.unit(id).unwrap().target.is_none());
    sim.step();
    assert_eq!(sim.unit(id).unwrap().pos, target);
}

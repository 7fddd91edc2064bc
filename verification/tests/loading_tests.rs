use pure_ecs_data::data::Data;
use pure_ecs_data::loading::{entities_needed, plan_load, plan_load_in_order, ActionEffect, LoadAction};
use pure_ecs_data::mapping::{refresh_inlet_values, PatchMap};
use pure_ecs_data::patch::{Input, Patch};

fn base() -> Patch {
    let mut patch = Patch::default();
    let bang = patch.create_node::<1, 1>("bang".to_string(), "Bang".to_string(), vec![], vec![0]).id();
    let print = patch.create_node::<1, 0>("print".to_string(), "Print".to_string(), vec![Data::Nothing], vec![0]).id();
    patch.connect(bang.outlet(0), print.inlet(0));
    patch
}

fn names(actions: &[LoadAction]) -> Vec<String> {
    actions
        .iter()
        .map(|a| match a {
            LoadAction::Spawn(n) => format!("spawn {n}"),
            LoadAction::Respawn(n) => format!("respawn {n}"),
            LoadAction::SetInput(n, i) => format!("input {n} {}", i.is_some()),
            LoadAction::AddInlets(n, a, b) => format!("add inlets {n} {a}..{b}"),
            LoadAction::RemoveInlets(n, a, b) => format!("remove inlets {n} {a}..{b}"),
            LoadAction::AddOutlets(n, a, b) => format!("add outlets {n} {a}..{b}"),
            LoadAction::RemoveOutlets(n, a, b) => format!("remove outlets {n} {a}..{b}"),
            LoadAction::Despawn(n) => format!("despawn {n}"),
        })
        .collect()
}

#[test]
fn first_load_spawns_everything() {
    let live = base();
    let plan = plan_load(&Patch::default(), &live);
    let mut acts = names(&plan.actions);
    acts.sort();
    assert_eq!(acts, vec!["spawn bang", "spawn print"]);
    assert_eq!(plan.update_inlets.len(), 2);
    assert_eq!(plan.update_outlets.len(), 2);
    assert_eq!(plan.update_signals.len(), 2);
}

#[test]
fn reload_over_copy_does_nothing() {
    let live = base();
    let loaded = live.clone();
    let plan = plan_load(&loaded, &live);
    assert!(plan.actions.is_empty());
    assert!(plan.update_inlets.is_empty());
    assert!(plan.update_outlets.is_empty());
    assert!(plan.update_signals.is_empty());
}

#[test]
fn removed_node_is_despawned() {
    let loaded = base();
    let mut live = Patch::default();
    live.create_node::<1, 1>("bang".to_string(), "Bang".to_string(), vec![], vec![0]);
    let plan = plan_load(&loaded, &live);
    let acts = names(&plan.actions);
    assert!(acts.contains(&"despawn print".to_string()));
    assert!(!acts.contains(&"despawn bang".to_string()));
    // bang lost its connection: its outlets are refreshed.
    assert_eq!(plan.update_outlets, vec!["bang".to_string()]);
}

#[test]
fn changed_component_is_respawned() {
    let loaded = base();
    let mut live = base();
    live.create_node::<1, 0>("print".to_string(), "Print".to_string(), vec![Data::from_text("named")], vec![0]);
    let plan = plan_load_in_order(&loaded, &live, &vec!["bang".to_string(), "print".to_string()], &vec!["print".to_string(), "bang".to_string()]);
    assert_eq!(names(&plan.actions), vec!["respawn print"]);
    assert_eq!(plan.update_inlets, vec!["print".to_string()]);
    assert_eq!(plan.update_signals, vec!["print".to_string()]);
}

#[test]
fn changed_wiring_and_input() {
    let loaded = base();
    let mut live = Patch::default();
    let bang = live
        .create_node::<1, 2>("bang".to_string(), "Bang".to_string(), vec![], vec![0])
        .with_input(Input { keys: vec!["Space".to_string()], once: true })
        .id();
    let print = live.create_node::<2, 0>("print".to_string(), "Print".to_string(), vec![Data::Nothing], vec![0]).id();
    live.connect(bang.outlet(0), print.inlet(0));
    let plan = plan_load_in_order(&loaded, &live, &vec!["bang".to_string(), "print".to_string()], &vec!["bang".to_string(), "print".to_string()]);
    assert_eq!(
        names(&plan.actions),
        vec!["input bang true", "add outlets bang 1..2", "add inlets print 1..2"]
    );
    assert_eq!(plan.update_outlets, vec!["bang".to_string()]);
    assert_eq!(plan.update_inlets, vec!["print".to_string()]);
    assert!(plan.update_signals.is_empty());
}

#[test]
fn inlet_refresh_assigns_bound_values() {
    let mut current = vec![Data::from_int(4), Data::Nothing, Data::from_int(6)];
    refresh_inlet_values(&mut current, &vec![Data::Bang, Data::Bang]);
    assert!(matches!(current[0], Data::Num(_)));
    assert!(matches!(current[1], Data::Bang));
    refresh_inlet_values(&mut current, &vec![Data::from_text("s")]);
    assert_eq!(current[0].to_text(&|b: u32| format!("{}", f32::from_bits(b))), "s");
}

#[test]
fn patch_map_records_and_forgets() {
    let mut map = PatchMap::default();
    map.record_spawn("n".to_string(), 1, vec![2, 3], vec![4]);
    map.add_inlets(&"n".to_string(), vec![5]);
    map.add_outlets(&"n".to_string(), vec![6, 7]);
    assert_eq!(map.entry(&"n".to_string()).unwrap().inlets, vec![2, 3, 5]);
    let removed = map.remove_inlets(&"n".to_string(), 2);
    assert_eq!(removed, vec![5, 3]);
    let removed = map.remove_outlets(&"n".to_string(), 1);
    assert_eq!(removed, vec![7]);
    assert_eq!(map.entry(&"n".to_string()).unwrap().outlets, vec![4, 6]);
    let gone = map.forget(&"n".to_string());
    assert_eq!(gone, vec![1, 2, 4, 6]);
    assert!(map.entry(&"n".to_string()).is_none());
}

#[test]
fn patch_map_resolves_links() {
    let mut map = PatchMap::default();
    map.record_spawn("a".to_string(), 10, vec![11, 12], vec![13]);
    map.record_spawn("b".to_string(), 20, vec![21], vec![]);
    let links = vec![vec![("a".to_string(), 1), ("b".to_string(), 0)], vec![]];
    assert_eq!(map.resolve_outlets(&links), vec![vec![12, 21], vec![]]);
    let (undo, make) = map.rewire_signals(&"a".to_string(), &vec![vec![("b".to_string(), 1)], vec![("b".to_string(), 0)]]);
    assert!(undo.is_empty());
    assert_eq!(make, vec![(20, 0, 1), (20, 1, 0)]);
    let (undo, make) = map.rewire_signals(&"a".to_string(), &vec![]);
    assert_eq!(undo, vec![(20, 0, 1), (20, 1, 0)]);
    assert!(make.is_empty());
    assert!(map.entry(&"a".to_string()).unwrap().signals.is_empty());
}

#[test]
fn removing_what_was_added_restores_the_node() {
    let mut map = PatchMap::default();
    map.record_spawn("n".to_string(), 1, vec![2], vec![3]);
    map.add_inlets(&"n".to_string(), vec![4, 5]);
    map.add_outlets(&"n".to_string(), vec![6]);
    assert_eq!(map.remove_inlets(&"n".to_string(), 2), vec![5, 4]);
    assert_eq!(map.remove_outlets(&"n".to_string(), 1), vec![6]);
    let node = map.entry(&"n".to_string()).unwrap();
    assert_eq!(node.entity, 1);
    assert_eq!(node.inlets, vec![2]);
    assert_eq!(node.outlets, vec![3]);
    assert_eq!(map.forget(&"n".to_string()), vec![1, 2, 3]);
    assert!(map.entry(&"n".to_string()).is_none());
}

fn carry_out(plan_actions: Vec<LoadAction>, live: &Patch, map: &mut PatchMap, next_id: &mut u64) {
    let mut fresh = |k: usize| -> Vec<u64> {
        let ids: Vec<u64> = (0..k as u64).map(|i| *next_id + i).collect();
        *next_id += k as u64;
        ids
    };
    for action in plan_actions {
        match action {
            LoadAction::Spawn(n) | LoadAction::Respawn(n) => {
                if map.entry(&n).is_some() {
                    map.forget(&n);
                }
                let e = live.entry(&n).unwrap();
                let entity = fresh(1)[0];
                let ins = fresh(e.ingoing.0.len());
                let outs = fresh(e.outgoing.0.len());
                map.record_spawn(n, entity, ins, outs);
            }
            LoadAction::SetInput(_, _) => {}
            LoadAction::AddInlets(n, f, t) => map.add_inlets(&n, fresh(t - f)),
            LoadAction::RemoveInlets(n, f, t) => {
                map.remove_inlets(&n, t - f);
            }
            LoadAction::AddOutlets(n, f, t) => map.add_outlets(&n, fresh(t - f)),
            LoadAction::RemoveOutlets(n, f, t) => {
                map.remove_outlets(&n, t - f);
            }
            LoadAction::Despawn(n) => {
                map.forget(&n);
            }
        }
    }
}

fn assert_in_line(map: &PatchMap, patch: &Patch, names: &[&str], gone: &[&str]) {
    for n in names {
        let e = patch.entry(&n.to_string()).unwrap();
        let m = map.entry(&n.to_string()).unwrap();
        assert_eq!(m.inlets.len(), e.ingoing.0.len());
        assert_eq!(m.outlets.len(), e.outgoing.0.len());
    }
    for n in gone {
        assert!(map.entry(&n.to_string()).is_none());
    }
}

#[test]
fn carrying_out_loads_keeps_the_map_in_line() {
    let mut map = PatchMap::default();
    let mut next_id: u64 = 1;
    let first = base();
    carry_out(plan_load(&Patch::default(), &first).actions, &first, &mut map, &mut next_id);
    assert_in_line(&map, &first, &["bang", "print"], &[]);

    let mut second = Patch::default();
    second.create_node::<1, 3>("bang".to_string(), "Bang".to_string(), vec![], vec![0]);
    second.create_node::<3, 0>("sum".to_string(), "Sum".to_string(), vec![], vec![2, 1, 0]);
    carry_out(plan_load(&first, &second).actions, &second, &mut map, &mut next_id);
    assert_in_line(&map, &second, &["bang", "sum"], &["print"]);

    let third = base();
    carry_out(plan_load(&second, &third).actions, &third, &mut map, &mut next_id);
    assert_in_line(&map, &third, &["bang", "print"], &["sum"]);
}

fn carry(loaded: &Patch, live: &Patch, map: &mut PatchMap, next_id: &mut u64) -> Vec<ActionEffect> {
    let plan = plan_load(loaded, live);
    let needed = entities_needed(&plan, live).unwrap();
    let fresh: Vec<u64> = (0..needed as u64).map(|i| *next_id + i).collect();
    *next_id += needed as u64;
    match map.carry_out(&plan, live, &fresh) {
        Ok(effects) => effects,
        Err(i) => panic!("stopped at {i}"),
    }
}

#[test]
fn carry_out_places_fresh_entities_and_keeps_the_map_in_line() {
    let mut map = PatchMap::default();
    let mut next_id: u64 = 100;
    let first = base();
    let effects = carry(&Patch::default(), &first, &mut map, &mut next_id);
    assert_eq!(effects.len(), 2);
    assert_eq!(next_id, 105);
    assert_in_line(&map, &first, &["bang", "print"], &[]);
    let bang = map.entry(&"bang".to_string()).unwrap();
    assert_eq!(bang.inlets.len(), 1);
    assert_eq!(bang.outlets.len(), 1);

    let mut second = Patch::default();
    second.create_node::<1, 3>("bang".to_string(), "Bang".to_string(), vec![], vec![0]);
    second.create_node::<3, 0>("sum".to_string(), "Sum".to_string(), vec![], vec![2, 1, 0]);
    let effects = carry(&first, &second, &mut map, &mut next_id);
    assert_in_line(&map, &second, &["bang", "sum"], &["print"]);
    assert!(effects.iter().any(|e| e.outlets.len() == 2));
    assert!(effects.iter().any(|e| e.dropped.len() == 2));

    let effects = carry(&second, &second.clone(), &mut map, &mut next_id);
    assert!(effects.is_empty());
}

#[test]
fn carry_out_stops_when_fresh_entities_run_short() {
    let mut map = PatchMap::default();
    let live = base();
    let plan = plan_load(&Patch::default(), &live);
    assert_eq!(entities_needed(&plan, &live), Some(5));
    assert!(matches!(map.carry_out(&plan, &live, &vec![1, 2]), Err(i) if i < 2));
}

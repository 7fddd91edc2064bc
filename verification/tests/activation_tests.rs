use pure_ecs_data::activation::{
    deliver, gather_inputs, inlet_type_for, propagate, queued_activations, stable_order,
    within_recursion_limit, InletInfo, InletType, RECURSION_LIMIT,
};
use pure_ecs_data::data::{Data, Num};

fn int_of(d: &Data) -> Option<i32> {
    match d {
        Data::Num(Num::Int(i)) => Some(*i),
        _ => None,
    }
}

#[test]
fn stable_order_sorts_by_key_keeping_ties() {
    assert_eq!(stable_order(&vec![3, 1, 2]), vec![1, 2, 0]);
    assert_eq!(stable_order(&vec![1, 0, 1, 0]), vec![1, 3, 0, 2]);
    assert_eq!(stable_order(&vec![0, 1, 2]), vec![0, 1, 2]);
    assert_eq!(stable_order(&vec![3, 2, 1]), vec![2, 1, 0]);
    assert!(stable_order(&vec![]).is_empty());
}

#[test]
fn first_inlet_is_hot() {
    assert_eq!(inlet_type_for(0), InletType::Hot);
    assert_eq!(inlet_type_for(1), InletType::Cold);
    assert_eq!(inlet_type_for(7), InletType::Cold);
    assert_eq!(InletType::default(), InletType::Cold);
}

#[test]
fn recursion_limit() {
    assert!(within_recursion_limit(0));
    assert!(within_recursion_limit(RECURSION_LIMIT - 1));
    assert!(!within_recursion_limit(RECURSION_LIMIT));
}

#[test]
fn gather_prefers_handed_values() {
    let datas = vec![Data::from_int(1), Data::from_int(2)];
    let r = gather_inputs(3, &Some(vec![Data::from_int(9)]), &vec![0, 1], &datas);
    assert_eq!(r.len(), 3);
    assert_eq!(int_of(&r[0]), Some(9));
    assert!(matches!(r[1], Data::Nothing));
    let r = gather_inputs(2, &None, &vec![1, 0], &datas);
    assert_eq!(int_of(&r[0]), Some(2));
    assert_eq!(int_of(&r[1]), Some(1));
}

/// Two nodes: node 10 with inlets 0 (hot) and 1 (cold), node 20 with inlet 2 (hot).
fn world() -> (Vec<InletInfo>, Vec<Data>) {
    let info = vec![
        InletInfo { node: 10, kind: InletType::Hot, siblings: vec![0, 1] },
        InletInfo { node: 10, kind: InletType::Cold, siblings: vec![0, 1] },
        InletInfo { node: 20, kind: InletType::Hot, siblings: vec![2] },
    ];
    let datas = vec![Data::Nothing, Data::from_int(5), Data::from_int(7)];
    (info, datas)
}

#[test]
fn deliver_writes_by_assignment_and_reports_hot_inlets() {
    let (info, mut datas) = world();
    // Outlet 0 feeds the cold inlet 1 and the hot inlet 2; outlet 1 feeds hot inlet 0.
    let conns = vec![vec![1, 2], vec![0]];
    let outputs = vec![Data::from_int(3), Data::Bang];
    let hot = deliver(&outputs, &conns, &vec![0, 1], &info, &mut datas);
    assert_eq!(int_of(&datas[1]), Some(3));
    assert_eq!(int_of(&datas[2]), Some(3));
    assert!(matches!(datas[0], Data::Bang));
    assert_eq!(hot, vec![2, 0]);
}

#[test]
fn deliver_follows_outlet_keys() {
    let (info, mut datas) = world();
    let conns = vec![vec![2], vec![1]];
    let outputs = vec![Data::from_int(1), Data::from_int(2)];
    // Keys 2 and 1: outlet 1 fires first and carries output 0.
    let hot = deliver(&outputs, &conns, &vec![2, 1], &info, &mut datas);
    assert_eq!(int_of(&datas[1]), Some(1));
    assert_eq!(int_of(&datas[2]), Some(2));
    assert_eq!(hot, vec![2]);
}

#[test]
fn deliver_leaves_other_inlets_and_bang_keeps_value() {
    let (info, mut datas) = world();
    let conns = vec![vec![1]];
    let outputs = vec![Data::Bang];
    let hot = deliver(&outputs, &conns, &vec![0], &info, &mut datas);
    assert_eq!(int_of(&datas[1]), Some(5));
    assert_eq!(int_of(&datas[2]), Some(7));
    assert!(matches!(datas[0], Data::Nothing));
    assert!(hot.is_empty());
}

#[test]
fn queued_activations_carry_current_values() {
    let (info, datas) = world();
    let acts = queued_activations(&vec![2, 0], &info, &datas, 4);
    assert_eq!(acts.len(), 2);
    assert_eq!(acts[0].node, 20);
    assert_eq!(acts[0].recursion, 5);
    assert_eq!(int_of(&acts[0].inputs[0]), Some(7));
    assert_eq!(acts[1].node, 10);
    assert_eq!(acts[1].inputs.len(), 2);
    assert_eq!(int_of(&acts[1].inputs[1]), Some(5));
}

#[test]
fn propagate_delivers_then_queues() {
    let (info, mut datas) = world();
    let conns = vec![vec![1, 0]];
    let acts = propagate(&vec![Data::from_int(8)], &conns, &vec![0], &info, &mut datas, 0);
    assert_eq!(acts.len(), 1);
    assert_eq!(acts[0].node, 10);
    assert_eq!(int_of(&acts[0].inputs[0]), Some(8));
    assert_eq!(int_of(&acts[0].inputs[1]), Some(8));
    assert_eq!(acts[0].recursion, 1);
}

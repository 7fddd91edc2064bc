use pure_ecs_data::data::{Data, Num};
use pure_ecs_data::nodes::default_argument_order;
use pure_ecs_data::patch::{Input, NodeRef, Patch};

fn int_of(d: &Data) -> Option<i32> {
    match d {
        Data::Num(Num::Int(i)) => Some(*i),
        _ => None,
    }
}

fn keys(names: &[&str]) -> Vec<String> {
    names.iter().map(|s| s.to_string()).collect()
}

#[test]
fn create_node_records_empty_wiring() {
    let mut patch = Patch::default();
    let id = patch
        .create_node::<2, 1>("add".to_string(), "Sum".to_string(), vec![], vec![0, 1])
        .id();
    let entry = patch.entry(&"add".to_string()).unwrap();
    assert_eq!(entry.node.component_id, "Sum");
    assert_eq!(entry.ingoing.0.len(), 2);
    assert!(entry.ingoing.0.iter().all(|d| matches!(d, Data::Nothing)));
    assert_eq!(entry.outgoing.0.len(), 1);
    assert!(entry.outgoing.0[0].is_empty());
    assert!(entry.node.input.is_none());
    assert!(entry.signals.0.is_empty());
    let _ = id;
    assert!(patch.entry(&"other".to_string()).is_none());
}

#[test]
fn connect_appends_link() {
    let mut patch = Patch::default();
    let a = patch.create_node::<1, 1>("a".to_string(), "Bang".to_string(), vec![], vec![0]).id();
    let b = patch.create_node::<2, 1>("b".to_string(), "F".to_string(), vec![], vec![0, 1]).id();
    patch.connect(a.outlet(0), b.inlet(1));
    patch.connect(a.outlet(0), b.inlet(0));
    let entry = patch.entry(&"a".to_string()).unwrap();
    assert_eq!(entry.outgoing.0[0], vec![("b".to_string(), 1), ("b".to_string(), 0)]);
    let other = patch.entry(&"b".to_string()).unwrap();
    assert!(other.outgoing.0[0].is_empty());
}

#[test]
fn bind_data_follows_argument_order() {
    let mut patch = Patch::default();
    let mut cmds = patch.create_node::<3, 1>("n".to_string(), "Sum".to_string(), vec![], vec![2, 0, 1]);
    cmds.with_data(vec![Data::from_int(10), Data::from_int(20)]);
    let entry = patch.entry(&"n".to_string()).unwrap();
    assert_eq!(int_of(&entry.ingoing.0[2]), Some(10));
    assert_eq!(int_of(&entry.ingoing.0[0]), Some(20));
    assert!(matches!(entry.ingoing.0[1], Data::Nothing));
}

#[test]
fn bind_data_inlet_writes_one_inlet() {
    let mut patch = Patch::default();
    let n: NodeRef<2, 1> = patch.create_node::<2, 1>("f".to_string(), "F".to_string(), vec![], vec![0, 1]).id();
    patch.bind_data_inlet(n.inlet(1), Data::from_int(60));
    let entry = patch.entry(&"f".to_string()).unwrap();
    assert_eq!(int_of(&entry.ingoing.0[1]), Some(60));
    assert!(matches!(entry.ingoing.0[0], Data::Nothing));
}

#[test]
fn builder_sets_input_and_internal_data() {
    let mut patch = Patch::default();
    patch
        .create_node::<1, 1>("bang".to_string(), "Bang".to_string(), vec![], vec![0])
        .with_input(Input { keys: keys(&["Space"]), once: true })
        .containing(vec![Data::from_text("x")]);
    let entry = patch.entry(&"bang".to_string()).unwrap();
    let input = entry.node.input.as_ref().unwrap();
    assert_eq!(input.keys, keys(&["Space"]));
    assert!(input.once);
    assert_eq!(entry.node.internal_data.len(), 1);
    patch
        .create_node::<1, 1>("quiet".to_string(), "Bang".to_string(), vec![], vec![0])
        .with_input_maybe(None);
    assert!(patch.entry(&"quiet".to_string()).unwrap().node.input.is_none());
}

#[test]
fn create_node_replaces_same_name() {
    let mut patch = Patch::default();
    patch.create_node::<1, 1>("x".to_string(), "Bang".to_string(), vec![], vec![0]);
    patch.create_node::<2, 0>("x".to_string(), "Print".to_string(), vec![], vec![0, 1]);
    let entry = patch.entry(&"x".to_string()).unwrap();
    assert_eq!(entry.node.component_id, "Print");
    assert_eq!(entry.ingoing.0.len(), 2);
    assert_eq!(patch.node_names().len(), 1);
}

#[test]
fn clone_keeps_all_but_argument_order() {
    let mut patch = Patch::default();
    patch.create_node::<2, 1>("s".to_string(), "Sum".to_string(), vec![Data::from_int(1)], vec![0, 1]);
    patch.create_node::<1, 0>("p".to_string(), "Print".to_string(), vec![], vec![0]);
    let copy = patch.clone();
    let mut names = copy.node_names();
    names.sort();
    assert_eq!(names, keys(&["p", "s"]));
    let e = copy.entry(&"s".to_string()).unwrap();
    assert!(e.node.arg_order.is_empty());
    assert_eq!(e.node.component_id, "Sum");
    assert_eq!(int_of(&e.node.internal_data[0]), Some(1));
    assert_eq!(e.ingoing.0.len(), 2);
}

#[test]
fn input_fires_when_held() {
    let held_input = Input { keys: keys(&["ControlLeft", "KeyR"]), once: false };
    assert!(held_input.fires(&keys(&["KeyR", "ControlLeft"]), &vec![]));
    assert!(!held_input.fires(&keys(&["KeyR"]), &vec![]));
    let once_input = Input { keys: keys(&["ControlLeft", "KeyR"]), once: true };
    assert!(once_input.fires(&keys(&["ControlLeft", "KeyR"]), &keys(&["KeyR"])));
    assert!(!once_input.fires(&keys(&["ControlLeft", "KeyR"]), &vec![]));
    assert!(!once_input.fires(&keys(&["KeyR"]), &keys(&["KeyR"])));
    assert!(!Input::default().fires(&keys(&["Space"]), &keys(&["Space"])));
}

#[test]
fn input_equality_by_keys_and_mode() {
    let a = Input { keys: keys(&["Space"]), once: true };
    let b = Input { keys: keys(&["Space"]), once: true };
    let c = Input { keys: keys(&["Space"]), once: false };
    let d = Input { keys: keys(&["Enter"]), once: true };
    assert!(a.same_binding(&b));
    assert!(!a.same_binding(&c));
    assert!(!a.same_binding(&d));
    assert!(a.duplicate().same_binding(&a));
}

#[test]
fn sum_arguments_go_right_to_left() {
    let mut patch = Patch::default();
    let order = default_argument_order(2);
    assert_eq!(order, vec![1, 0]);
    let sum = patch.create_node::<2, 1>("sum".to_string(), "Sum".to_string(), vec![], order).id();
    patch.bind_data(sum, vec![Data::from_int(2)]);
    let entry = patch.entry(&"sum".to_string()).unwrap();
    assert!(matches!(entry.ingoing.0[0], Data::Nothing));
    assert_eq!(int_of(&entry.ingoing.0[1]), Some(2));
    assert_eq!(default_argument_order(3), vec![2, 1, 0]);
    assert!(default_argument_order(0).is_empty());
}

#[test]
fn signal_connections_are_recorded() {
    let mut patch = Patch::default();
    let clip = patch.create_node::<1, 0>("clip".to_string(), "ClipS".to_string(), vec![], vec![0]).id();
    let dac = patch.create_node::<2, 0>("dac".to_string(), "DacS".to_string(), vec![], vec![1, 0]).id();
    patch.connect_signal(&clip, 0, &dac, 0);
    patch.connect_signal(&clip, 0, &dac, 1);
    patch.connect_signal(&clip, 2, &dac, 1);
    let entry = patch.entry(&"clip".to_string()).unwrap();
    assert_eq!(entry.signals.0.len(), 3);
    assert_eq!(entry.signals.0[0], vec![("dac".to_string(), 0), ("dac".to_string(), 1)]);
    assert!(entry.signals.0[1].is_empty());
    assert_eq!(entry.signals.0[2], vec![("dac".to_string(), 1)]);
    assert!(patch.entry(&"dac".to_string()).unwrap().signals.0.is_empty());
}

#[test]
fn checks_before_building() {
    let mut patch = Patch::default();
    let n = patch.create_node::<2, 1>("n".to_string(), "Sum".to_string(), vec![], vec![1, 0]).id();
    assert!(patch.has_node(&n));
    assert!(patch.has_outlet(&n.outlet(0)));
    assert!(patch.has_inlet(&n.inlet(1)));
    assert!(patch.can_bind(&n, 2));
    let mut other = Patch::default();
    let m = other.create_node::<2, 1>("m".to_string(), "Sum".to_string(), vec![], vec![5, 0]).id();
    assert!(!patch.has_node(&m));
    assert!(!patch.has_outlet(&m.outlet(0)));
    assert!(!other.can_bind(&m, 1));
    assert!(other.can_bind(&m, 0));
    assert!(!patch.can_bind(&n, 3));
}

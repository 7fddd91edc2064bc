use pure_ecs_data::data::{Data, Num};
use pure_ecs_data::nodes::{identity_order, Bang, Message, Msg, Number, Print, Sum, Trigger, F};

fn as_f32(n: Num) -> f32 {
    match n {
        Num::Int(i) => i as f32,
        Num::Float(b) => f32::from_bits(b),
    }
}

fn fadd(a: Num, b: Num) -> u32 {
    (as_f32(a) + as_f32(b)).to_bits()
}

fn ftext(b: u32) -> String {
    format!("{}", f32::from_bits(b))
}

fn text(d: &Data) -> String {
    d.to_text(&ftext)
}

#[test]
fn bang_outputs_bang() {
    let mut b = Bang;
    let out = b.process(vec![Data::from_int(3)]);
    assert_eq!(out.len(), 1);
    assert!(matches!(out[0], Data::Bang));
}

#[test]
fn sum_example_from_docs() {
    // a = Number { 5 }; sum = Sum<2> [2]; a -> sum: prints 7.
    let mut sum = Sum::<2>;
    let out = sum.process(vec![Data::from_int(5), Data::from_int(2)], &fadd, &ftext);
    assert_eq!(text(&out[0]), "7");
}

#[test]
fn sum_of_nothing_is_nothing() {
    let mut sum = Sum::<3>;
    let out = sum.process(vec![Data::Nothing, Data::Nothing, Data::Nothing], &fadd, &ftext);
    assert!(matches!(out[0], Data::Nothing));
}

#[test]
fn sum_skips_bangs_and_joins_strings() {
    let mut sum = Sum::<3>;
    let out = sum.process(vec![Data::Bang, Data::from_text("v"), Data::from_int(4)], &fadd, &ftext);
    assert_eq!(text(&out[0]), "v4");
}

#[test]
fn sum_of_one_float() {
    let mut sum = Sum::<2>;
    let out = sum.process(vec![Data::from_int(1), Data::from_num(Num::Float(0.5f32.to_bits()))], &fadd, &ftext);
    assert_eq!(text(&out[0]), "1.5");
}

#[test]
fn f_passes_first_when_second_empty() {
    let mut f = F(Some(Num::Int(9)));
    let out = f.process(vec![Data::from_int(3), Data::Nothing]);
    assert!(matches!(out[0], Data::Num(Num::Int(3))));
    assert_eq!(f.0, Some(Num::Int(9)));
}

#[test]
fn f_stores_second() {
    let mut f = F::default();
    let out = f.process(vec![Data::Bang, Data::from_int(60)]);
    assert!(matches!(out[0], Data::Num(Num::Int(60))));
    assert_eq!(f.0, Some(Num::Int(60)));
    // A bang on the second inlet outputs the stored number.
    let out = f.process(vec![Data::Bang, Data::Bang]);
    assert!(matches!(out[0], Data::Num(Num::Int(60))));
}

#[test]
fn f_empty_store_outputs_zero() {
    let mut f = F::default();
    let out = f.process(vec![Data::Bang, Data::Nothing]);
    assert!(matches!(out[0], Data::Num(Num::Int(0))));
}

#[test]
fn counter_example_from_docs() {
    // bang -> f; f -> add; add -> f[1], print: counts 1, 2, 3 on each press.
    let mut f = F::default();
    let mut add = Sum::<2>;
    let mut f_second = Data::Nothing;
    let mut printed = vec![];
    for _ in 0..3 {
        let out = f.process(vec![Data::Bang, f_second.clone()]);
        let sum = add.process(vec![out[0].clone(), Data::from_int(1)], &fadd, &ftext);
        f_second.assign(sum[0].clone());
        printed.push(text(&sum[0]));
    }
    assert_eq!(printed, vec!["1", "2", "3"]);
}

#[test]
fn number_stores_numbers_only() {
    let mut n = Number::default();
    let out = n.process(vec![Data::Bang]);
    assert!(matches!(out[0], Data::Num(Num::Int(0))));
    let out = n.process(vec![Data::from_int(62)]);
    assert!(matches!(out[0], Data::Num(Num::Int(62))));
    let out = n.process(vec![Data::from_text("no")]);
    assert!(matches!(out[0], Data::Num(Num::Int(62))));
}

#[test]
fn number_spawn_and_internal_data() {
    let n = Number::from(5);
    let spawned = n.with_spawn_data(&vec![Data::from_int(8)]);
    assert_eq!(spawned.0, Num::Int(8));
    let spawned = n.with_spawn_data(&vec![Data::Bang]);
    assert_eq!(spawned.0, Num::Int(5));
    let spawned = n.with_spawn_data(&vec![]);
    assert_eq!(spawned.0, Num::Int(5));
    let d = n.internal_data();
    assert!(matches!(d[0], Data::Num(Num::Int(5))));
    assert_eq!(Number::from(Data::from_text("x")).0, Num::Int(0));
}

#[test]
fn trigger_outputs_stored_values_and_fires_right_to_left() {
    let mut t = Trigger::<3>::from_values(vec![Data::Bang, Data::from_int(1), Data::from_text("lol")]);
    let out = t.process(vec![Data::Nothing]);
    assert_eq!(out.len(), 3);
    assert!(matches!(out[0], Data::Bang));
    assert_eq!(text(&out[2]), "lol");
    assert_eq!(Trigger::<3>::outlet_order(), vec![3, 2, 1]);
}

#[test]
fn trigger_default_and_spawn() {
    let t = Trigger::<2>::default();
    assert!(t.0.iter().all(|d| matches!(d, Data::Bang)));
    let s = t.with_spawn_data(&vec![Data::from_int(4)]);
    assert!(matches!(s.0[0], Data::Num(Num::Int(4))));
    assert!(matches!(s.0[1], Data::Bang));
    assert_eq!(s.internal_data().len(), 2);
    let one = Trigger::<1>::single(Data::from_int(2));
    assert!(matches!(one.0[0], Data::Num(Num::Int(2))));
}

#[test]
fn default_outlet_order_is_by_position() {
    assert_eq!(identity_order(4), vec![0, 1, 2, 3]);
    assert!(identity_order(0).is_empty());
}

#[test]
fn message_and_msg_output_stored_value() {
    let mut m = Message::from(Data::from_text("hello"));
    let out = m.process(vec![Data::Bang]);
    assert_eq!(text(&out[0]), "hello");
    let spawned = m.with_spawn_data(&vec![Data::from_int(1)]);
    assert!(matches!(spawned.0, Data::Num(Num::Int(1))));
    assert_eq!(text(&m.internal_data()[0]), "hello");
    let mut g = Msg::default();
    let out = g.process(vec![Data::Bang]);
    assert!(matches!(out[0], Data::Nothing));
    let spawned = g.with_spawn_data(&vec![Data::from_text("q")]);
    assert_eq!(text(&spawned.0), "q");
}

#[test]
fn print_lines() {
    let unnamed = Print::default();
    assert_eq!(unnamed.line(&Data::from_text("Hello world!"), &ftext), "Hello world!");
    let named = Print::from_data(Data::from_text("midi"));
    assert_eq!(named.line(&Data::from_int(60), &ftext), "midi: 60");
    assert_eq!(named.line(&Data::Bang, &ftext), "midi: Bang!");
    assert_eq!(named.line(&Data::Nothing, &ftext), "midi: Nothing.");
}

#[test]
fn print_spawn_names() {
    let p = Print::default();
    let spawned = p.with_spawn_data(&p.internal_data());
    assert_eq!(spawned.line(&Data::from_text("Hello world!"), &ftext), "print: Hello world!");
    let spawned = p.with_spawn_data(&vec![Data::from_text("Freq: ")]);
    assert_eq!(spawned.line(&Data::from_int(440), &ftext), "Freq: : 440");
    let named = Print::from(Data::from_text("test"));
    assert_eq!(text(&named.internal_data()[0]), "test");
    assert!(matches!(Print::from(Data::Bang).internal_data()[0], Data::Nothing));
}

#[test]
fn sum_range_check() {
    let sum = Sum::<3>;
    assert!(sum.stays_in_range(&vec![Data::from_int(1), Data::from_int(2), Data::from_int(3)], &fadd, &ftext));
    assert!(!sum.stays_in_range(&vec![Data::from_int(i32::MAX), Data::Bang, Data::from_int(1)], &fadd, &ftext));
    assert!(sum.stays_in_range(&vec![Data::from_int(i32::MAX), Data::from_text("s"), Data::from_int(1)], &fadd, &ftext));
}

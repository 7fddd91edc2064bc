use pure_ecs_data::data::{Data, Num};

fn as_f32(n: Num) -> f32 {
    match n {
        Num::Int(i) => i as f32,
        Num::Float(b) => f32::from_bits(b),
    }
}

fn fadd(a: Num, b: Num) -> u32 {
    (as_f32(a) + as_f32(b)).to_bits()
}

fn ftext(b: u32) -> String {
    format!("{}", f32::from_bits(b))
}

fn float(x: f32) -> Num {
    Num::Float(x.to_bits())
}

fn text(d: &Data) -> String {
    d.to_text(&ftext)
}

#[test]
fn assign_bang_fills_only_empty_inlet() {
    let mut d = Data::Nothing;
    d.assign(Data::Bang);
    assert!(matches!(d, Data::Bang));

    let mut d = Data::from_int(4);
    d.assign(Data::Bang);
    assert!(matches!(d, Data::Num(Num::Int(4))));
}

#[test]
fn assign_nothing_keeps_value() {
    let mut d = Data::from_text("kept");
    d.assign(Data::Nothing);
    assert_eq!(text(&d), "kept");
}

#[test]
fn assign_value_replaces() {
    let mut d = Data::from_int(1);
    d.assign(Data::from_text("new"));
    assert_eq!(text(&d), "new");
    d.assign(Data::from_int(9));
    assert!(matches!(d, Data::Num(Num::Int(9))));
}

#[test]
fn assign_twice_same_as_once() {
    let mut once = Data::Nothing;
    once.assign(Data::Bang);
    let mut twice = Data::Nothing;
    twice.assign(Data::Bang);
    twice.assign(Data::Bang);
    assert!(once.equals(&twice));
}

#[test]
fn display_of_each_kind() {
    assert_eq!(text(&Data::Nothing), "Nothing.");
    assert_eq!(text(&Data::Bang), "Bang!");
    assert_eq!(text(&Data::from_text("hi")), "hi");
    assert_eq!(text(&Data::from_int(42)), "42");
    assert_eq!(text(&Data::from_num(float(1.5))), "1.5");
}

#[test]
fn integer_text_matches_decimal() {
    for i in [0, 7, 10, 99, 100, -1, -45, 1_000_000, i32::MAX, i32::MIN] {
        assert_eq!(Num::Int(i).to_text(&ftext), i.to_string());
    }
}

#[test]
fn string_of_values() {
    assert_eq!(Data::Nothing.string(&ftext), "");
    assert_eq!(Data::Bang.string(&ftext), "");
    assert_eq!(Data::from_int(-3).string(&ftext), "-3");
}

#[test]
fn add_nothing_and_bang_are_identities() {
    let five = Data::from_int(5);
    assert!(Data::Nothing.add(five.clone(), &fadd, &ftext).equals(&five));
    assert!(five.clone().add(Data::Nothing, &fadd, &ftext).equals(&five));
    assert!(Data::Bang.add(five.clone(), &fadd, &ftext).equals(&five));
    assert!(five.clone().add(Data::Bang, &fadd, &ftext).equals(&five));
    assert!(matches!(Data::Bang.add(Data::Nothing, &fadd, &ftext), Data::Bang));
    assert!(matches!(Data::Nothing.add(Data::Bang, &fadd, &ftext), Data::Bang));
    let s = Data::from_text("ab");
    assert_eq!(text(&Data::Bang.add(s.clone(), &fadd, &ftext)), "ab");
    assert_eq!(text(&s.add(Data::Bang, &fadd, &ftext)), "ab");
}

#[test]
fn add_strings_and_numbers() {
    let r = Data::from_text("ab").add(Data::from_text("cd"), &fadd, &ftext);
    assert_eq!(text(&r), "abcd");
    let r = Data::from_text("n=").add(Data::from_int(12), &fadd, &ftext);
    assert_eq!(text(&r), "n=12");
    // A number on the left of a string is written after it.
    let r = Data::from_int(12).add(Data::from_text("n="), &fadd, &ftext);
    assert_eq!(text(&r), "n=12");
    let r = Data::from_text("x").add(Data::from_num(float(0.5)), &fadd, &ftext);
    assert_eq!(text(&r), "x0.5");
}

#[test]
fn add_integers_and_floats() {
    let r = Data::from_int(2).add(Data::from_int(3), &fadd, &ftext);
    assert!(matches!(r, Data::Num(Num::Int(5))));
    let r = Data::from_int(2).add(Data::from_num(float(0.5)), &fadd, &ftext);
    match r {
        Data::Num(Num::Float(b)) => assert_eq!(f32::from_bits(b), 2.5),
        _ => panic!("expected a float"),
    }
    let r = Data::from_num(float(1.25)).add(Data::from_num(float(1.25)), &fadd, &ftext);
    match r {
        Data::Num(Num::Float(b)) => assert_eq!(f32::from_bits(b), 2.5),
        _ => panic!("expected a float"),
    }
}

#[test]
fn integer_addition_commutes_and_regroups() {
    let a = Data::from_int(7).add(Data::from_int(-9), &fadd, &ftext);
    let b = Data::from_int(-9).add(Data::from_int(7), &fadd, &ftext);
    assert!(a.equals(&b));
    let left = Data::from_int(1).add(Data::from_int(2), &fadd, &ftext).add(Data::from_int(3), &fadd, &ftext);
    let right = Data::from_int(1).add(Data::from_int(2).add(Data::from_int(3), &fadd, &ftext), &fadd, &ftext);
    assert!(left.equals(&right));
}

#[test]
fn add_assign_accumulates() {
    let mut d = Data::Nothing;
    d.add_assign(Data::from_int(4), &fadd, &ftext);
    d.add_assign(Data::from_int(6), &fadd, &ftext);
    assert!(matches!(d, Data::Num(Num::Int(10))));
    let mut n = Num::Int(1);
    n.add_assign(Num::Int(2), &fadd);
    assert_eq!(n, Num::Int(3));
}

#[test]
fn conversions() {
    let d: Data = Num::Int(3).into();
    assert!(matches!(d, Data::Num(Num::Int(3))));
    let d: Data = 8.into();
    assert!(matches!(d, Data::Num(Num::Int(8))));
    let d: Data = "word".into();
    assert_eq!(text(&d), "word");
    let n: Num = Data::from_text("x").into();
    assert_eq!(n, Num::Int(0));
    let n: Num = Data::from_int(5).into();
    assert_eq!(n, Num::Int(5));
    assert_eq!(Data::Bang.to_num(), Num::Int(0));
    assert_eq!(Num::default(), Num::Int(0));
    assert!(matches!(Data::default(), Data::Nothing));
}

#[test]
fn equality_of_values() {
    assert!(Data::from_text("a").equals(&Data::from_text("a")));
    assert!(!Data::from_text("a").equals(&Data::from_text("b")));
    assert!(!Data::from_int(1).equals(&Data::from_num(float(1.0))));
    assert!(!Data::Nothing.equals(&Data::Bang));
}

#[test]
fn addition_commutes_unless_both_are_strings() {
    let samples = vec![
        Data::Nothing,
        Data::Bang,
        Data::from_int(1),
        Data::from_int(-7),
        Data::from_num(float(0.5)),
        Data::from_text("a"),
    ];
    for a in &samples {
        for b in &samples {
            if matches!(a, Data::String(_)) && matches!(b, Data::String(_)) {
                continue;
            }
            let ab = a.clone().add(b.clone(), &fadd, &ftext);
            let ba = b.clone().add(a.clone(), &fadd, &ftext);
            assert_eq!(text(&ab), text(&ba));
        }
    }
    let one_a = Data::from_int(1).add(Data::from_text("a"), &fadd, &ftext);
    assert_eq!(text(&one_a), "a1");
    let a_one = Data::from_text("a").add(Data::from_int(1), &fadd, &ftext);
    assert_eq!(text(&a_one), "a1");
}

#[test]
fn overflow_of_integer_addition_is_detected() {
    assert!(Data::from_int(i32::MAX).add_overflows(&Data::from_int(1)));
    assert!(Data::from_int(i32::MIN).add_overflows(&Data::from_int(-1)));
    assert!(!Data::from_int(i32::MAX).add_overflows(&Data::from_int(0)));
    assert!(!Data::from_num(float(1.0)).add_overflows(&Data::from_int(i32::MAX)));
}

#[test]
fn float_sum_comes_from_the_callers_addition() {
    let sum = Data::from_num(float(1.5)).add(Data::from_num(float(2.25)), &fadd, &ftext);
    assert!(matches!(sum, Data::Num(Num::Float(b)) if b == 3.75f32.to_bits()));
    assert_eq!(text(&sum), "3.75");
}

#[test]
fn from_str_gives_a_string() {
    let d = Data::from("hello");
    assert!(matches!(&d, Data::String(s) if s == "hello"));
}

use vstd::prelude::*;

verus! {

/// A number carried between nodes: an integer or a 32-bit float.
///
/// A float is held by its IEEE-754 bit pattern; the arithmetic and the text of a
/// float are supplied by the caller of the functions that need them.
#[derive(Clone, Copy, Debug, PartialEq, Eq, Structural)]
pub enum Num {
    Int(i32),
    Float(u32),
}

/// A value carried from an outlet to an inlet.
#[derive(Debug)]
pub enum Data {
    Nothing,
    String(String),
    Num(Num),
    Bang,
}

/// The mathematical value of a [`Data`]: its string held as a sequence of characters.
pub enum DataView {
    Nothing,
    String(Seq<char>),
    Num(Num),
    Bang,
}

impl View for Data {
    type V = DataView;

    open spec fn view(&self) -> DataView {
        match self {
            Data::Nothing => DataView::Nothing,
            Data::String(s) => DataView::String(s@),
            Data::Num(n) => DataView::Num(*n),
            Data::Bang => DataView::Bang,
        }
    }
}

/// The view of a list of values.
pub open spec fn values(v: Seq<Data>) -> Seq<DataView> {
    v.map_values(|d: Data| d@)
}

/// What an inlet holds after `incoming` is written over `current`: a bang only
/// fills an empty inlet, nothing and a bang never erase a value, and any other
/// value replaces what was there.
pub open spec fn assign_spec(current: DataView, incoming: DataView) -> DataView {
    if current is Nothing && incoming is Bang {
        DataView::Bang
    } else if !(incoming is Nothing) && !(incoming is Bang) {
        incoming
    } else {
        current
    }
}

impl Data {
    pub fn assign(&mut self, other: Data)
        ensures
            final(self)@ == assign_spec(old(self)@, other@),
    {
        if matches!(self, Data::Nothing) && matches!(other, Data::Bang) {
            *self = Data::Bang;
        } else if !matches!(other, Data::Nothing | Data::Bang) {
            *self = other;
        }
    }
}


/// The decimal digit `d` (between 0 and 9) as a character.
pub open spec fn digit_char(d: nat) -> char {
    (48 + d) as char
}

/// The decimal text of a natural number, without leading zeros.
pub open spec fn nat_text(n: nat) -> Seq<char>
    decreases n,
{
    if n < 10 {
        seq![digit_char(n)]
    } else {
        nat_text(n / 10).push(digit_char(n % 10))
    }
}

/// The decimal text of an integer, with a leading `-` when it is negative.
pub open spec fn int_text(n: int) -> Seq<char> {
    if n < 0 {
        seq!['-'] + nat_text((-n) as nat)
    } else {
        nat_text(n as nat)
    }
}

/// A float operation supplied by the caller can be called on every input and
/// gives at most one answer for each input.
pub open spec fn float_sum_ok<A: Fn(Num, Num) -> u32>(fadd: A) -> bool {
    &&& forall|a: Num, b: Num| call_requires(fadd, (a, b))
    &&& forall|a: Num, b: Num, r1: u32, r2: u32|
        call_ensures(fadd, (a, b), r1) && call_ensures(fadd, (a, b), r2) ==> r1 == r2
}

/// The text of floats supplied by the caller can be asked of every float and
/// gives at most one answer for each float.
pub open spec fn float_text_ok<T: Fn(u32) -> String>(ftext: T) -> bool {
    &&& forall|b: u32| call_requires(ftext, (b,))
    &&& forall|b: u32, r1: String, r2: String|
        call_ensures(ftext, (b,), r1) && call_ensures(ftext, (b,), r2) ==> r1@ == r2@
}

/// The bits of the float sum of `a` and `b`, as the caller's float addition gives it.
pub open spec fn float_sum<A: Fn(Num, Num) -> u32>(fadd: A, a: Num, b: Num) -> u32 {
    choose|r: u32| call_ensures(fadd, (a, b), r)
}

/// The text of the float with bits `b`, as the caller's float formatting gives it.
pub open spec fn float_text<T: Fn(u32) -> String>(ftext: T, b: u32) -> Seq<char> {
    (choose|r: String| call_ensures(ftext, (b,), r))@
}

/// The caller's float addition, called on `a` and `b`, gave `float_sum(fadd, a, b)`.
pub open spec fn float_sum_given<A: Fn(Num, Num) -> u32>(fadd: A, a: Num, b: Num) -> bool {
    call_ensures(fadd, (a, b), float_sum(fadd, a, b))
}

/// The caller's float text, asked of the float with bits `b`, gave a string
/// whose text is `float_text(ftext, b)`.
pub open spec fn float_text_given<T: Fn(u32) -> String>(ftext: T, b: u32) -> bool {
    exists|r: String| call_ensures(ftext, (b,), r) && #[trigger] r@ == float_text(ftext, b)
}

/// The text of a number: decimal for an integer, the caller's text for a float.
pub open spec fn num_text<T: Fn(u32) -> String>(n: Num, ftext: T) -> Seq<char> {
    match n {
        Num::Int(i) => int_text(i as int),
        Num::Float(b) => float_text(ftext, b),
    }
}

/// Whether adding `a` and `b` leaves the range of `i32` (both are integers).
pub open spec fn num_add_overflows(a: Num, b: Num) -> bool {
    match (a, b) {
        (Num::Int(x), Num::Int(y)) => !(i32::MIN <= x + y <= i32::MAX),
        _ => false,
    }
}

/// The sum of two numbers: integer when both are integers, else a float.
pub open spec fn num_add_spec<A: Fn(Num, Num) -> u32>(a: Num, b: Num, fadd: A) -> Num {
    match (a, b) {
        (Num::Int(x), Num::Int(y)) => Num::Int((x + y) as i32),
        _ => Num::Float(float_sum(fadd, a, b)),
    }
}

/// The text that a value adds to a string it is joined to: the string itself,
/// the text of a number, and nothing for an empty value or a bang.
pub open spec fn data_text<T: Fn(u32) -> String>(d: DataView, ftext: T) -> Seq<char> {
    match d {
        DataView::String(s) => s,
        DataView::Num(n) => num_text(n, ftext),
        _ => Seq::empty(),
    }
}

/// How a value is shown when printed.
pub open spec fn data_display<T: Fn(u32) -> String>(d: DataView, ftext: T) -> Seq<char> {
    match d {
        DataView::Nothing => "Nothing."@,
        DataView::String(s) => s,
        DataView::Num(n) => num_text(n, ftext),
        DataView::Bang => "Bang!"@,
    }
}

/// Whether adding two values adds two integers whose sum leaves `i32`.
pub open spec fn data_add_overflows(a: DataView, b: DataView) -> bool {
    match (a, b) {
        (DataView::Num(x), DataView::Num(y)) => num_add_overflows(x, y),
        _ => false,
    }
}

/// The sum of two values. An empty value and a bang leave the other side as it
/// is; a string takes on the text of the other side (a string on the right takes
/// the left side's text at its end); two numbers add.
pub open spec fn data_add_spec<A: Fn(Num, Num) -> u32, T: Fn(u32) -> String>(
    a: DataView,
    b: DataView,
    fadd: A,
    ftext: T,
) -> DataView {
    match (a, b) {
        (DataView::Nothing, d) => d,
        (d, DataView::Nothing) => d,
        (DataView::String(s), x) => DataView::String(s + data_text(x, ftext)),
        (x, DataView::String(s)) => DataView::String(s + data_text(x, ftext)),
        (DataView::Bang, d) => d,
        (d, DataView::Bang) => d,
        (DataView::Num(x), DataView::Num(y)) => DataView::Num(num_add_spec(x, y, fadd)),
    }
}

/// Appends one character to a string.
#[verifier::external_body]
fn push_char(s: &mut String, c: char)
    ensures
        final(s)@ == old(s)@.push(c),
{
    s.push(c);
}

/// The character of the decimal digit `d`.
fn digit(d: u32) -> (c: char)
    requires
        d < 10,
    ensures
        c == digit_char(d as nat),
{
    let b: u8 = 48u8 + (d as u8);
    b as char
}

/// Appends the decimal digits of `n` to `s`.
fn push_nat_text(s: &mut String, n: u64)
    ensures
        final(s)@ == old(s)@ + nat_text(n as nat),
    decreases n,
{
    if n >= 10 {
        push_nat_text(s, n / 10);
    }
    push_char(s, digit((n % 10) as u32));
    proof {
        assert(old(s)@ + nat_text(n as nat) =~= old(s)@ + (if n >= 10 { nat_text((n / 10) as nat) } else { Seq::empty() }).push(digit_char((n % 10) as nat)));
    }
}

impl Num {
    /// The decimal text of an integer, or the caller's text of a float.
    pub fn to_text<T: Fn(u32) -> String>(&self, ftext: &T) -> (r: String)
        requires
            float_text_ok(*ftext),
        ensures
            r@ == num_text(*self, *ftext),
            *self matches Num::Float(b) ==> float_text_given(*ftext, b),
    {
        match self {
            Num::Int(i) => {
                let mut s = String::new();
                let v: i64 = *i as i64;
                if v < 0 {
                    push_char(&mut s, '-');
                    push_nat_text(&mut s, (-v) as u64);
                } else {
                    push_nat_text(&mut s, v as u64);
                }
                s
            },
            Num::Float(b) => {
                let r = ftext(*b);
                proof {
                    let c = choose|c: String| call_ensures(*ftext, (*b,), c);
                    assert(call_ensures(*ftext, (*b,), r));
                    assert(r@ == float_text(*ftext, *b));
                }
                r
            },
        }
    }

    /// The sum of two numbers; a float sum comes from `fadd`.
    pub fn add<A: Fn(Num, Num) -> u32>(self, rhs: Num, fadd: &A) -> (r: Num)
        requires
            float_sum_ok(*fadd),
            !num_add_overflows(self, rhs),
        ensures
            r == num_add_spec(self, rhs, *fadd),
            !(self is Int && rhs is Int) ==> float_sum_given(*fadd, self, rhs),
    {
        match (self, rhs) {
            (Num::Int(a), Num::Int(b)) => Num::Int(a + b),
            _ => {
                let r = fadd(self, rhs);
                proof {
                    assert(call_ensures(*fadd, (self, rhs), r));
                }
                Num::Float(r)
            },
        }
    }
}


impl Clone for Data {
    fn clone(&self) -> (r: Data)
        ensures
            r == *self,
    {
        match self {
            Data::Nothing => Data::Nothing,
            Data::String(s) => Data::String(s.clone()),
            Data::Num(n) => Data::Num(*n),
            Data::Bang => Data::Bang,
        }
    }
}

impl Default for Num {
    /// The integer zero.
    fn default() -> (r: Num)
        ensures
            r == Num::Int(0),
    {
        Num::Int(0)
    }
}

impl Default for Data {
    /// An empty value.
    fn default() -> (r: Data)
        ensures
            r@ == DataView::Nothing,
    {
        Data::Nothing
    }
}

impl Data {
    /// A string value with the characters of `s`.
    pub fn from_text(s: &str) -> (r: Data)
        ensures
            r@ == DataView::String(s@),
    {
        Data::String(String::from_str(s))
    }

    /// An integer value.
    pub fn from_int(i: i32) -> (r: Data)
        ensures
            r@ == DataView::Num(Num::Int(i)),
    {
        Data::Num(Num::Int(i))
    }

    /// A number value.
    pub fn from_num(n: Num) -> (r: Data)
        ensures
            r@ == DataView::Num(n),
    {
        Data::Num(n)
    }

    /// The number a value holds, or the integer zero when it holds none.
    pub fn to_num(&self) -> (r: Num)
        ensures
            r == (match self@ {
                DataView::Num(n) => n,
                _ => Num::Int(0),
            }),
    {
        match self {
            Data::Num(n) => *n,
            _ => Num::Int(0),
        }
    }

    /// Whether two values are the same.
    pub fn equals(&self, other: &Data) -> (r: bool)
        ensures
            r == (self@ == other@),
    {
        match (self, other) {
            (Data::Nothing, Data::Nothing) => true,
            (Data::String(a), Data::String(b)) => *a == *b,
            (Data::Num(a), Data::Num(b)) => *a == *b,
            (Data::Bang, Data::Bang) => true,
            _ => false,
        }
    }

    /// The text this value adds to a string it is joined to.
    pub fn string<T: Fn(u32) -> String>(&self, ftext: &T) -> (r: String)
        requires
            float_text_ok(*ftext),
        ensures
            r@ == data_text(self@, *ftext),
            self@ matches DataView::Num(Num::Float(b)) ==> float_text_given(*ftext, b),
    {
        match self {
            Data::String(s) => s.clone(),
            Data::Num(n) => n.to_text(ftext),
            _ => String::new(),
        }
    }

    /// How this value is shown when printed.
    pub fn to_text<T: Fn(u32) -> String>(&self, ftext: &T) -> (r: String)
        requires
            float_text_ok(*ftext),
        ensures
            r@ == data_display(self@, *ftext),
            self@ matches DataView::Num(Num::Float(b)) ==> float_text_given(*ftext, b),
    {
        match self {
            Data::Nothing => String::from_str("Nothing."),
            Data::String(s) => s.clone(),
            Data::Num(n) => n.to_text(ftext),
            Data::Bang => String::from_str("Bang!"),
        }
    }

    /// The sum of two values (see [`data_add_spec`]).
    pub fn add<A: Fn(Num, Num) -> u32, T: Fn(u32) -> String>(self, other: Data, fadd: &A, ftext: &T) -> (r: Data)
        requires
            float_sum_ok(*fadd),
            float_text_ok(*ftext),
            !data_add_overflows(self@, other@),
        ensures
            r@ == data_add_spec(self@, other@, *fadd, *ftext),
            (match (self@, other@) {
                (DataView::Num(x), DataView::Num(y)) => !(x is Int && y is Int) ==> float_sum_given(*fadd, x, y),
                _ => true,
            }),
            (match (self@, other@) {
                (DataView::String(_), DataView::Num(Num::Float(b))) => float_text_given(*ftext, b),
                (DataView::Num(Num::Float(b)), DataView::String(_)) => float_text_given(*ftext, b),
                _ => true,
            }),
    {
        match (self, other) {
            (Data::Nothing, d) => d,
            (d, Data::Nothing) => d,
            (Data::String(s), x) => {
                let mut string = s;
                let t = x.string(ftext);
                string.append(t.as_str());
                Data::String(string)
            },
            (x, Data::String(s)) => {
                let mut string = s;
                let t = x.string(ftext);
                string.append(t.as_str());
                Data::String(string)
            },
            (Data::Bang, d) => d,
            (d, Data::Bang) => d,
            (Data::Num(a), Data::Num(b)) => Data::Num(a.add(b, fadd)),
        }
    }

    /// Whether adding `other` to this value adds two integers whose sum leaves `i32`.
    pub fn add_overflows(&self, other: &Data) -> (r: bool)
        ensures
            r == data_add_overflows(self@, other@),
    {
        match (self, other) {
            (Data::Num(Num::Int(x)), Data::Num(Num::Int(y))) => {
                let s: i64 = (*x as i64) + (*y as i64);
                s < (i32::MIN as i64) || s > (i32::MAX as i64)
            },
            _ => false,
        }
    }

    /// Replaces this value by its sum with `rhs`.
    pub fn add_assign<A: Fn(Num, Num) -> u32, T: Fn(u32) -> String>(&mut self, rhs: Data, fadd: &A, ftext: &T)
        requires
            float_sum_ok(*fadd),
            float_text_ok(*ftext),
            !data_add_overflows(old(self)@, rhs@),
        ensures
            final(self)@ == data_add_spec(old(self)@, rhs@, *fadd, *ftext),
    {
        *self = self.clone().add(rhs, fadd, ftext);
    }
}

impl Num {
    /// Replaces this number by its sum with `rhs`.
    pub fn add_assign<A: Fn(Num, Num) -> u32>(&mut self, rhs: Num, fadd: &A)
        requires
            float_sum_ok(*fadd),
            !num_add_overflows(*old(self), rhs),
        ensures
            *final(self) == num_add_spec(*old(self), rhs, *fadd),
    {
        *self = self.add(rhs, fadd);
    }
}


impl From<Num> for Data {
    fn from(value: Num) -> (r: Data) {
        Data::Num(value)
    }
}

impl vstd::std_specs::convert::FromSpecImpl<Num> for Data {
    open spec fn obeys_from_spec() -> bool {
        true
    }

    open spec fn from_spec(v: Num) -> Data {
        Data::Num(v)
    }
}

impl From<i32> for Data {
    fn from(value: i32) -> (r: Data) {
        Data::Num(Num::Int(value))
    }
}

impl vstd::std_specs::convert::FromSpecImpl<i32> for Data {
    open spec fn obeys_from_spec() -> bool {
        true
    }

    open spec fn from_spec(v: i32) -> Data {
        Data::Num(Num::Int(v))
    }
}

impl From<Data> for Num {
    fn from(value: Data) -> (r: Num) {
        match value {
            Data::Num(n) => n,
            _ => Num::Int(0),
        }
    }
}

impl vstd::std_specs::convert::FromSpecImpl<Data> for Num {
    open spec fn obeys_from_spec() -> bool {
        true
    }

    open spec fn from_spec(v: Data) -> Num {
        match v {
            Data::Num(n) => n,
            _ => Num::Int(0),
        }
    }
}

/// A string value.
impl From<&str> for Data {
    fn from(value: &str) -> (r: Data)
        ensures
            r@ == DataView::String(value@),
    {
        Data::from_text(value)
    }
}

impl vstd::std_specs::convert::FromSpecImpl<&str> for Data {
    /// A `String` cannot be built in a specification, so `from_spec` states
    /// nothing; the `ensures` of `from` states the result over the value's view.
    open spec fn obeys_from_spec() -> bool {
        false
    }

    open spec fn from_spec(v: &str) -> Data {
        Data::Nothing
    }
}


/// Writing the same value twice into an inlet leaves it as writing it once.
pub proof fn law_assign_idempotent(current: DataView, incoming: DataView)
    ensures
        assign_spec(assign_spec(current, incoming), incoming) == assign_spec(current, incoming),
{
}

/// A bang or an empty value never erases a value an inlet holds, and any
/// other value always replaces it.
pub proof fn law_assign_keeps_values(current: DataView, incoming: DataView)
    ensures
        (incoming is Nothing || incoming is Bang) && !(current is Nothing) ==> assign_spec(current, incoming) == current,
        !(incoming is Nothing) && !(incoming is Bang) ==> assign_spec(current, incoming) == incoming,
        current is Nothing && incoming is Bang ==> assign_spec(current, incoming) == DataView::Bang,
{
}

/// An empty value changes nothing when added, on either side; nor does a bang,
/// added to anything but an empty value (a bang and an empty value give a bang).
pub proof fn law_add_identities<A: Fn(Num, Num) -> u32, T: Fn(u32) -> String>(d: DataView, fadd: A, ftext: T)
    ensures
        data_add_spec(DataView::Nothing, d, fadd, ftext) == d,
        data_add_spec(d, DataView::Nothing, fadd, ftext) == d,
        !(d is Nothing) ==> data_add_spec(DataView::Bang, d, fadd, ftext) == d,
        !(d is Nothing) ==> data_add_spec(d, DataView::Bang, fadd, ftext) == d,
{
    match d {
        DataView::String(s) => {
            assert(data_text(DataView::Bang, ftext) == Seq::<char>::empty());
            assert(s + data_text(DataView::Bang, ftext) =~= s);
        },
        _ => {},
    }
}

/// Adding two strings joins them; adding a number to a string, on either
/// side, puts the number's text after the string.
pub proof fn law_add_strings<A: Fn(Num, Num) -> u32, T: Fn(u32) -> String>(a: Seq<char>, b: Seq<char>, n: Num, fadd: A, ftext: T)
    ensures
        data_add_spec(DataView::String(a), DataView::String(b), fadd, ftext) == DataView::String(a + b),
        data_add_spec(DataView::String(a), DataView::Num(n), fadd, ftext) == DataView::String(a + num_text(n, ftext)),
        data_add_spec(DataView::Num(n), DataView::String(a), fadd, ftext) == DataView::String(a + num_text(n, ftext)),
{
}

/// Integers add as integers, in either order, and regroup freely (within `i32`).
pub proof fn law_add_integers<A: Fn(Num, Num) -> u32, T: Fn(u32) -> String>(x: i32, y: i32, z: i32, fadd: A, ftext: T)
    requires
        i32::MIN <= x + y <= i32::MAX,
        i32::MIN <= y + z <= i32::MAX,
        i32::MIN <= x + y + z <= i32::MAX,
    ensures
        data_add_spec(DataView::Num(Num::Int(x)), DataView::Num(Num::Int(y)), fadd, ftext) == DataView::Num(Num::Int((x + y) as i32)),
        data_add_spec(DataView::Num(Num::Int(x)), DataView::Num(Num::Int(y)), fadd, ftext)
            == data_add_spec(DataView::Num(Num::Int(y)), DataView::Num(Num::Int(x)), fadd, ftext),
        data_add_spec(
            data_add_spec(DataView::Num(Num::Int(x)), DataView::Num(Num::Int(y)), fadd, ftext),
            DataView::Num(Num::Int(z)),
            fadd,
            ftext,
        ) == data_add_spec(
            DataView::Num(Num::Int(x)),
            data_add_spec(DataView::Num(Num::Int(y)), DataView::Num(Num::Int(z)), fadd, ftext),
            fadd,
            ftext,
        ),
{
}


/// Addition is the same in both orders unless both sides are strings: a
/// string joined with anything else takes the other's text at its end either
/// way, and two numbers add the same way round, where the caller's float
/// addition does.
pub proof fn law_add_commutes<A: Fn(Num, Num) -> u32, T: Fn(u32) -> String>(
    a: DataView,
    b: DataView,
    fadd: A,
    ftext: T,
)
    requires
        !(a is String && b is String),
        (match (a, b) {
            (DataView::Num(x), DataView::Num(y)) => float_sum(fadd, x, y) == float_sum(fadd, y, x),
            _ => true,
        }),
    ensures
        data_add_spec(a, b, fadd, ftext) == data_add_spec(b, a, fadd, ftext),
{
}

} // verus!

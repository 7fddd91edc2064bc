use vstd::prelude::*;
use crate::patch::copy_data;
use crate::data::{
    Data, DataView, Num, data_add_overflows, data_add_spec, data_display, float_sum_ok,
    float_text_ok, values,
};

verus! {

/// The order in which a node's outlets fire when it does not say otherwise:
/// by position.
pub fn identity_order(n: usize) -> (r: Vec<usize>)
    ensures
        r@ == Seq::new(n as nat, |i: int| i as usize),
{
    let mut r: Vec<usize> = Vec::new();
    let mut i: usize = 0;
    while i < n
        invariant
            0 <= i <= n,
            r@ == Seq::new(i as nat, |j: int| j as usize),
        decreases n - i,
    {
        r.push(i);
        i = i + 1;
        proof {
            assert(r@ =~= Seq::new(i as nat, |j: int| j as usize));
        }
    }
    r
}

/// The inlet each argument bound in a patch goes to when a node does not say
/// otherwise: from right to left, the first argument on the last inlet.
pub fn default_argument_order(n: usize) -> (r: Vec<usize>)
    ensures
        r@ == Seq::new(n as nat, |i: int| (n - 1 - i) as usize),
{
    let mut r: Vec<usize> = Vec::new();
    let mut i: usize = 0;
    while i < n
        invariant
            0 <= i <= n,
            r@ == Seq::new(i as nat, |j: int| (n - 1 - j) as usize),
        decreases n - i,
    {
        r.push(n - 1 - i);
        i = i + 1;
        proof {
            assert(r@ =~= Seq::new(i as nat, |j: int| (n - 1 - j) as usize));
        }
    }
    r
}

/// Outputs a bang whatever it receives.
#[derive(Clone, Copy, Debug, Default, PartialEq, Eq)]
pub struct Bang;

impl Bang {
    pub fn process(&mut self, inputs: Vec<Data>) -> (r: Vec<Data>)
        requires
            inputs.len() == 1,
        ensures
            values(r@) == seq![DataView::Bang],
    {
        let r = vec![Data::Bang];
        proof {
            assert(values(r@) =~= seq![DataView::Bang]);
        }
        r
    }
}

/// Outputs and stores the number from its second inlet; with the second inlet
/// empty, passes on the number of its first inlet.
#[derive(Clone, Copy, Debug, Default)]
pub struct F(pub Option<Num>);

/// What an [`F`] outputs and keeps: with nothing on the second inlet and a
/// number on the first, that number, the store unchanged; otherwise a number on
/// the second inlet is stored, and the store (zero when empty) is output.
pub open spec fn f_process(stored: Option<Num>, first: DataView, second: DataView) -> (Num, Option<Num>) {
    if second is Nothing && first is Num {
        (first->Num_0, stored)
    } else {
        let kept = match second {
            DataView::Num(n) => Some(n),
            _ => stored,
        };
        (
            match kept {
                Some(n) => n,
                None => Num::Int(0),
            },
            kept,
        )
    }
}

impl F {
    pub fn process(&mut self, inputs: Vec<Data>) -> (r: Vec<Data>)
        requires
            inputs.len() == 2,
        ensures
            values(r@) == seq![DataView::Num(f_process(old(self).0, inputs@[0]@, inputs@[1]@).0)],
            final(self).0 == f_process(old(self).0, inputs@[0]@, inputs@[1]@).1,
    {
        if matches!(inputs[1], Data::Nothing) {
            if let Data::Num(n) = &inputs[0] {
                let r = vec![Data::Num(*n)];
                proof {
                    assert(values(r@) =~= seq![DataView::Num(f_process(old(self).0, inputs@[0]@, inputs@[1]@).0)]);
                }
                return r;
            }
        }
        if let Data::Num(n) = &inputs[1] {
            self.0 = Some(*n);
        }
        let out = match self.0 {
            Some(n) => n,
            None => Num::Int(0),
        };
        let r = vec![Data::Num(out)];
        proof {
            assert(values(r@) =~= seq![DataView::Num(f_process(old(self).0, inputs@[0]@, inputs@[1]@).0)]);
        }
        r
    }
}


/// The sum of a list of values, added from the left starting from nothing.
pub open spec fn sum_spec<A: Fn(Num, Num) -> u32, T: Fn(u32) -> String>(
    s: Seq<DataView>,
    fadd: A,
    ftext: T,
) -> DataView
    decreases s.len(),
{
    if s.len() == 0 {
        DataView::Nothing
    } else {
        data_add_spec(sum_spec(s.drop_last(), fadd, ftext), s.last(), fadd, ftext)
    }
}

/// No step of the sum adds two integers whose sum leaves `i32`.
pub open spec fn sum_stays_in_range<A: Fn(Num, Num) -> u32, T: Fn(u32) -> String>(
    s: Seq<DataView>,
    fadd: A,
    ftext: T,
) -> bool {
    forall|k: int| 0 <= k < s.len() ==> !data_add_overflows(#[trigger] sum_spec(s.take(k), fadd, ftext), s[k])
}

/// Outputs the sum of the values on its `N` inlets.
#[derive(Clone, Copy, Debug, Default, PartialEq, Eq)]
pub struct Sum<const N: usize>;

impl<const N: usize> Sum<N> {
    /// Whether summing `inputs` keeps every integer step within `i32`.
    pub fn stays_in_range<A: Fn(Num, Num) -> u32, T: Fn(u32) -> String>(
        &self,
        inputs: &Vec<Data>,
        fadd: &A,
        ftext: &T,
    ) -> (r: bool)
        requires
            float_sum_ok(*fadd),
            float_text_ok(*ftext),
        ensures
            r == sum_stays_in_range(values(inputs@), *fadd, *ftext),
    {
        let ghost vs = values(inputs@);
        let mut res = Data::Nothing;
        let mut i: usize = 0;
        while i < inputs.len()
            invariant
                0 <= i <= inputs.len(),
                vs == values(inputs@),
                float_sum_ok(*fadd),
                float_text_ok(*ftext),
                res@ == sum_spec(vs.take(i as int), *fadd, *ftext),
                forall|k: int| 0 <= k < i ==> !data_add_overflows(#[trigger] sum_spec(vs.take(k), *fadd, *ftext), vs[k]),
            decreases inputs.len() - i,
        {
            proof {
                assert(vs.take(i + 1).drop_last() =~= vs.take(i as int));
            }
            if res.add_overflows(&inputs[i]) {
                proof {
                    assert(data_add_overflows(sum_spec(vs.take(i as int), *fadd, *ftext), vs[i as int]));
                }
                return false;
            }
            res.add_assign(inputs[i].clone(), fadd, ftext);
            i = i + 1;
        }
        true
    }

    pub fn process<A: Fn(Num, Num) -> u32, T: Fn(u32) -> String>(
        &mut self,
        inputs: Vec<Data>,
        fadd: &A,
        ftext: &T,
    ) -> (r: Vec<Data>)
        requires
            inputs.len() == N,
            float_sum_ok(*fadd),
            float_text_ok(*ftext),
            sum_stays_in_range(values(inputs@), *fadd, *ftext),
        ensures
            values(r@) == seq![sum_spec(values(inputs@), *fadd, *ftext)],
    {
        let ghost vs = values(inputs@);
        let mut res = Data::Nothing;
        let mut i: usize = 0;
        while i < inputs.len()
            invariant
                0 <= i <= inputs.len(),
                vs == values(inputs@),
                float_sum_ok(*fadd),
                float_text_ok(*ftext),
                sum_stays_in_range(vs, *fadd, *ftext),
                res@ == sum_spec(vs.take(i as int), *fadd, *ftext),
            decreases inputs.len() - i,
        {
            proof {
                assert(vs.take(i + 1).drop_last() =~= vs.take(i as int));
                assert(!data_add_overflows(sum_spec(vs.take(i as int), *fadd, *ftext), vs[i as int]));
            }
            res.add_assign(inputs[i].clone(), fadd, ftext);
            i = i + 1;
        }
        proof {
            assert(vs.take(inputs.len() as int) =~= vs);
        }
        let r = vec![res];
        proof {
            assert(values(r@) =~= seq![sum_spec(vs, *fadd, *ftext)]);
        }
        r
    }
}

/// Holds a number and outputs it; a number received replaces it.
#[derive(Clone, Copy, Debug, PartialEq, Eq)]
pub struct Number(pub Num);

impl Default for Number {
    /// Holds the integer zero.
    fn default() -> (r: Number)
        ensures
            r == Number(Num::Int(0)),
    {
        Number(Num::Int(0))
    }
}

impl From<Data> for Number {
    fn from(value: Data) -> (r: Number) {
        Number(value.to_num())
    }
}

impl vstd::std_specs::convert::FromSpecImpl<Data> for Number {
    open spec fn obeys_from_spec() -> bool {
        true
    }

    open spec fn from_spec(v: Data) -> Number {
        Number(
            match v {
                Data::Num(n) => n,
                _ => Num::Int(0),
            },
        )
    }
}

impl From<i32> for Number {
    fn from(value: i32) -> (r: Number) {
        Number(Num::Int(value))
    }
}

impl vstd::std_specs::convert::FromSpecImpl<i32> for Number {
    open spec fn obeys_from_spec() -> bool {
        true
    }

    open spec fn from_spec(v: i32) -> Number {
        Number(Num::Int(v))
    }
}

impl Number {
    pub fn process(&mut self, inputs: Vec<Data>) -> (r: Vec<Data>)
        requires
            inputs.len() == 1,
        ensures
            final(self).0 == (match inputs@[0]@ {
                DataView::Num(n) => n,
                _ => old(self).0,
            }),
            values(r@) == seq![DataView::Num(final(self).0)],
    {
        if let Data::Num(n) = &inputs[0] {
            self.0 = *n;
        }
        let r = vec![Data::Num(self.0)];
        proof {
            assert(values(r@) =~= seq![DataView::Num(self.0)]);
        }
        r
    }

    /// The node spawned from this one with the patch's internal data: the
    /// first value when it is a number, otherwise this node's number.
    pub fn with_spawn_data(&self, data: &Vec<Data>) -> (r: Number)
        ensures
            r.0 == (if data.len() > 0 && data@[0]@ is Num { data@[0]@->Num_0 } else { self.0 }),
    {
        if data.len() > 0 {
            if let Data::Num(n) = &data[0] {
                return Number(*n);
            }
        }
        *self
    }

    /// The data this node is recorded with in a patch: its number.
    pub fn internal_data(&self) -> (r: Vec<Data>)
        ensures
            values(r@) == seq![DataView::Num(self.0)],
    {
        let r = vec![Data::Num(self.0)];
        proof {
            assert(values(r@) =~= seq![DataView::Num(self.0)]);
        }
        r
    }
}



/// Outputs its `N` stored values when it receives anything, the rightmost
/// outlet first.
#[derive(Debug)]
pub struct Trigger<const N: usize>(pub Vec<Data>);

impl<const N: usize> Clone for Trigger<N> {
    fn clone(&self) -> (r: Self)
        ensures
            values(r.0@) == values(self.0@),
    {
        Trigger(copy_data(&self.0))
    }
}

impl<const N: usize> Trigger<N> {
    /// A trigger storing `v`.
    pub fn from_values(v: Vec<Data>) -> (r: Self)
        requires
            v.len() == N,
        ensures
            values(r.0@) == values(v@),
    {
        Trigger(v)
    }

    /// A trigger storing `N` bangs.
    pub fn banging() -> (r: Self)
        ensures
            values(r.0@) == Seq::new(N as nat, |i: int| DataView::Bang),
    {
        let mut v: Vec<Data> = Vec::new();
        let mut i: usize = 0;
        while i < N
            invariant
                0 <= i <= N,
                v@.len() == i,
                forall|j: int| 0 <= j < i ==> v@[j]@ == DataView::Bang,
            decreases N - i,
        {
            v.push(Data::Bang);
            i = i + 1;
        }
        proof {
            assert(values(v@) =~= Seq::new(N as nat, |i: int| DataView::Bang));
        }
        Trigger(v)
    }

    pub fn process(&mut self, inputs: Vec<Data>) -> (r: Vec<Data>)
        requires
            inputs.len() == 1,
            old(self).0.len() == N,
        ensures
            values(r@) == values(old(self).0@),
            values(final(self).0@) == values(old(self).0@),
    {
        copy_data(&self.0)
    }

    /// The keys that rank the outlets: outlet `i` has key `N - i`, so the
    /// last outlet fires first.
    pub fn outlet_order() -> (r: Vec<usize>)
        ensures
            r@ == Seq::new(N as nat, |i: int| (N - i) as usize),
    {
        let mut r: Vec<usize> = Vec::new();
        let mut i: usize = 0;
        while i < N
            invariant
                0 <= i <= N,
                r@ == Seq::new(i as nat, |j: int| (N - j) as usize),
            decreases N - i,
        {
            r.push(N - i);
            i = i + 1;
            proof {
                assert(r@ =~= Seq::new(i as nat, |j: int| (N - j) as usize));
            }
        }
        r
    }

    /// The node spawned from this one with the patch's internal data: the
    /// first values replaced by those of `data`.
    pub fn with_spawn_data(&self, data: &Vec<Data>) -> (r: Self)
        requires
            self.0.len() == N,
            data.len() <= N,
        ensures
            r.0.len() == N,
            forall|i: int| 0 <= i < N ==> (#[trigger] r.0@[i])@ == (if i < data.len() { data@[i]@ } else { self.0@[i]@ }),
    {
        let mut v = copy_data(&self.0);
        proof {
            assert(values(v@).len() == v@.len());
            assert(values(self.0@).len() == self.0@.len());
            assert forall|j: int| 0 <= j < N implies (#[trigger] v@[j])@ == self.0@[j]@ by {
                assert(values(v@)[j] == v@[j]@);
                assert(values(self.0@)[j] == self.0@[j]@);
            }
        }
        let mut i: usize = 0;
        while i < data.len()
            invariant
                0 <= i <= data.len(),
                data.len() <= N,
                v.len() == N,
                self.0.len() == N,
                forall|j: int| 0 <= j < N ==> (#[trigger] v@[j])@ == (if j < i { data@[j]@ } else { self.0@[j]@ }),
            decreases data.len() - i,
        {
            v.set(i, data[i].clone());
            i = i + 1;
        }
        Trigger(v)
    }

    /// The data this node is recorded with in a patch: its stored values.
    pub fn internal_data(&self) -> (r: Vec<Data>)
        ensures
            values(r@) == values(self.0@),
    {
        copy_data(&self.0)
    }
}

impl Trigger<1> {
    /// A trigger storing one value.
    pub fn single(value: Data) -> (r: Self)
        ensures
            values(r.0@) == seq![value@],
    {
        let r = Trigger(vec![value]);
        proof {
            assert(values(r.0@) =~= seq![value@]);
        }
        r
    }
}

impl<const N: usize> Default for Trigger<N> {
    /// `N` bangs.
    fn default() -> (r: Self)
        ensures
            values(r.0@) == Seq::new(N as nat, |i: int| DataView::Bang),
    {
        Self::banging()
    }
}

/// Outputs its stored value whatever it receives.
#[derive(Debug)]
pub struct Message(pub Data);

impl Clone for Message {
    fn clone(&self) -> (r: Self)
        ensures
            r.0 == self.0,
    {
        Message(self.0.clone())
    }
}

/// Outputs its stored value whatever it receives.
#[derive(Debug)]
pub struct Msg(pub Data);

impl Clone for Msg {
    fn clone(&self) -> (r: Self)
        ensures
            r.0 == self.0,
    {
        Msg(self.0.clone())
    }
}

impl Default for Message {
    /// Stores nothing.
    fn default() -> (r: Message)
        ensures
            r.0@ == DataView::Nothing,
    {
        Message(Data::Nothing)
    }
}

impl Default for Msg {
    /// Stores nothing.
    fn default() -> (r: Msg)
        ensures
            r.0@ == DataView::Nothing,
    {
        Msg(Data::Nothing)
    }
}

impl From<Data> for Message {
    fn from(value: Data) -> (r: Message) {
        Message(value)
    }
}

impl vstd::std_specs::convert::FromSpecImpl<Data> for Message {
    open spec fn obeys_from_spec() -> bool {
        true
    }

    open spec fn from_spec(v: Data) -> Message {
        Message(v)
    }
}

impl From<Data> for Msg {
    fn from(value: Data) -> (r: Msg) {
        Msg(value)
    }
}

impl vstd::std_specs::convert::FromSpecImpl<Data> for Msg {
    open spec fn obeys_from_spec() -> bool {
        true
    }

    open spec fn from_spec(v: Data) -> Msg {
        Msg(v)
    }
}

impl Message {
    pub fn process(&mut self, inputs: Vec<Data>) -> (r: Vec<Data>)
        requires
            inputs.len() == 1,
        ensures
            values(r@) == seq![old(self).0@],
            final(self).0@ == old(self).0@,
    {
        let r = vec![self.0.clone()];
        proof {
            assert(values(r@) =~= seq![self.0@]);
        }
        r
    }

    /// The node spawned with the patch's internal data: it stores the first value.
    pub fn with_spawn_data(&self, data: &Vec<Data>) -> (r: Message)
        requires
            data.len() > 0,
        ensures
            r.0@ == data@[0]@,
    {
        Message(data[0].clone())
    }

    /// The data this node is recorded with in a patch: its stored value.
    pub fn internal_data(&self) -> (r: Vec<Data>)
        ensures
            values(r@) == seq![self.0@],
    {
        let r = vec![self.0.clone()];
        proof {
            assert(values(r@) =~= seq![self.0@]);
        }
        r
    }
}

impl Msg {
    pub fn process(&mut self, inputs: Vec<Data>) -> (r: Vec<Data>)
        requires
            inputs.len() == 1,
        ensures
            values(r@) == seq![old(self).0@],
            final(self).0@ == old(self).0@,
    {
        let r = vec![self.0.clone()];
        proof {
            assert(values(r@) =~= seq![self.0@]);
        }
        r
    }

    /// The node spawned with the patch's internal data: it stores the first value.
    pub fn with_spawn_data(&self, data: &Vec<Data>) -> (r: Msg)
        requires
            data.len() > 0,
        ensures
            r.0@ == data@[0]@,
    {
        Msg(data[0].clone())
    }

    /// The data this node is recorded with in a patch: its stored value.
    pub fn internal_data(&self) -> (r: Vec<Data>)
        ensures
            values(r@) == seq![self.0@],
    {
        let r = vec![self.0.clone()];
        proof {
            assert(values(r@) =~= seq![self.0@]);
        }
        r
    }
}

/// Divides the number on its first inlet by the number on its second.
#[derive(Clone, Copy, Debug, Default, PartialEq, Eq)]
pub struct Div;

/// Turns a MIDI note number into a frequency in hertz.
#[derive(Clone, Copy, Debug, Default, PartialEq, Eq)]
pub struct MtoF;

/// Prints what it receives, after its name when it has one.
#[derive(Debug)]
pub struct Print {
    print_name: Option<String>,
}

impl Clone for Print {
    fn clone(&self) -> (r: Self)
        ensures
            r@ == self@,
    {
        match &self.print_name {
            Some(s) => Print { print_name: Some(s.clone()) },
            None => Print { print_name: None },
        }
    }
}

impl Default for Print {
    /// An unnamed print node.
    fn default() -> (r: Self)
        ensures
            r@ == None::<Seq<char>>,
    {
        Print { print_name: None }
    }
}

impl View for Print {
    type V = Option<Seq<char>>;

    closed spec fn view(&self) -> Option<Seq<char>> {
        match self.print_name {
            Some(s) => Some(s@),
            None => None,
        }
    }
}

/// The line a print node with name `name` prints for `input`.
pub open spec fn print_line<T: Fn(u32) -> String>(name: Option<Seq<char>>, input: DataView, ftext: T) -> Seq<char> {
    match name {
        Some(n) => n + ": "@ + data_display(input, ftext),
        None => data_display(input, ftext),
    }
}

impl Print {
    /// A print node named after a string value; unnamed otherwise.
    pub fn from_data(value: Data) -> (r: Print)
        ensures
            r@ == (match value@ {
                DataView::String(s) => Some(s),
                _ => None,
            }),
    {
        match value {
            Data::String(s) => Print { print_name: Some(s) },
            _ => Print { print_name: None },
        }
    }

    /// The line printed for `input` (without its line break).
    pub fn line<T: Fn(u32) -> String>(&self, input: &Data, ftext: &T) -> (r: String)
        requires
            float_text_ok(*ftext),
        ensures
            r@ == print_line(self@, input@, *ftext),
    {
        let text = input.to_text(ftext);
        match &self.print_name {
            Some(name) => {
                let mut r = name.clone();
                r.append(": ");
                r.append(text.as_str());
                proof {
                    reveal_strlit(": ");
                }
                r
            },
            None => text,
        }
    }

    /// The node spawned with the patch's internal data: named after the first
    /// value when it is a string, otherwise named `print`.
    pub fn with_spawn_data(&self, data: &Vec<Data>) -> (r: Print)
        ensures
            r@ == (if data.len() > 0 && data@[0]@ is String { Some(data@[0]@->String_0) } else { Some("print"@) }),
    {
        if data.len() > 0 {
            if let Data::String(s) = &data[0] {
                return Print { print_name: Some(s.clone()) };
            }
        }
        Print { print_name: Some(String::from_str("print")) }
    }

    /// The data this node is recorded with in a patch: its name, or nothing.
    pub fn internal_data(&self) -> (r: Vec<Data>)
        ensures
            values(r@) == seq![
                match self@ {
                    Some(n) => DataView::String(n),
                    None => DataView::Nothing,
                },
            ],
    {
        let d = match &self.print_name {
            Some(val) => Data::String(val.clone()),
            None => Data::Nothing,
        };
        let r = vec![d];
        proof {
            assert(values(r@) =~= seq![
                match self@ {
                    Some(n) => DataView::String(n),
                    None => DataView::Nothing,
                },
            ]);
        }
        r
    }
}

impl From<Data> for Print {
    fn from(value: Data) -> (r: Print) {
        match value {
            Data::String(s) => Print { print_name: Some(s) },
            _ => Print { print_name: None },
        }
    }
}

impl vstd::std_specs::convert::FromSpecImpl<Data> for Print {
    open spec fn obeys_from_spec() -> bool {
        true
    }

    closed spec fn from_spec(v: Data) -> Print {
        match v {
            Data::String(s) => Print { print_name: Some(s) },
            _ => Print { print_name: None },
        }
    }
}


/// Whether a value is not empty.
pub open spec fn not_empty() -> spec_fn(DataView) -> bool {
    |d: DataView| !(d is Nothing)
}

/// Empty inputs add nothing to a sum, and every other input is still added:
/// the sum of all inputs is the sum of the non-empty ones. So the sum of
/// `[x, Nothing, y]` is that of `[x, y]`.
pub proof fn law_sum_skips_empty_inputs<A: Fn(Num, Num) -> u32, T: Fn(u32) -> String>(
    s: Seq<DataView>,
    fadd: A,
    ftext: T,
)
    ensures
        sum_spec(s, fadd, ftext) == sum_spec(s.filter(not_empty()), fadd, ftext),
    decreases s.len(),
{
    reveal(Seq::filter);
    if s.len() > 0 {
        law_sum_skips_empty_inputs(s.drop_last(), fadd, ftext);
        let f = s.drop_last().filter(not_empty());
        if !(s.last() is Nothing) {
            assert(s.filter(not_empty()) == f.push(s.last()));
            assert(f.push(s.last()).drop_last() =~= f);
        }
    }
}

/// The sum of two inputs with an empty one between them is their sum.
pub proof fn law_sum_across_an_empty_inlet<A: Fn(Num, Num) -> u32, T: Fn(u32) -> String>(
    x: DataView,
    y: DataView,
    fadd: A,
    ftext: T,
)
    ensures
        sum_spec(seq![x, DataView::Nothing, y], fadd, ftext) == data_add_spec(data_add_spec(DataView::Nothing, x, fadd, ftext), y, fadd, ftext),
{
    let s = seq![x, DataView::Nothing, y];
    assert(s.drop_last() =~= seq![x, DataView::Nothing]);
    assert(s.drop_last().drop_last() =~= seq![x]);
    assert(seq![x].drop_last() =~= Seq::<DataView>::empty());
    let a = sum_spec(seq![x], fadd, ftext);
    assert(a == data_add_spec(sum_spec(Seq::<DataView>::empty(), fadd, ftext), x, fadd, ftext));
    assert(sum_spec(seq![x, DataView::Nothing], fadd, ftext) == data_add_spec(a, DataView::Nothing, fadd, ftext));
}

/// A number on its second inlet is what an F outputs and stores, whatever its
/// first inlet and its store hold.
pub proof fn law_f_takes_second_number(stored: Option<Num>, first: DataView, n: Num)
    ensures
        f_process(stored, first, DataView::Num(n)) == (n, Some(n)),
{
}

/// With its second inlet empty, an F passes on a number from its first inlet
/// and keeps its store.
pub proof fn law_f_passes_first_number(stored: Option<Num>, n: Num)
    ensures
        f_process(stored, DataView::Num(n), DataView::Nothing) == (n, stored),
{
}

/// Otherwise an F outputs what it stores (zero when it stores nothing) and
/// keeps it.
pub proof fn law_f_outputs_store(stored: Option<Num>, first: DataView, second: DataView)
    requires
        !(second is Num),
        !(second is Nothing && first is Num),
    ensures
        f_process(stored, first, second) == (
            match stored {
                Some(m) => m,
                None => Num::Int(0),
            },
            stored,
        ),
{
}
} // verus!

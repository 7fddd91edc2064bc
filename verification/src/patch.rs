use vstd::prelude::*;
use bevy::platform::collections::HashMap;
use crate::data::{Data, DataView, values};

verus! {

#[verifier::external_type_specification]
#[verifier::external_body]
#[verifier::reject_recursive_types(K)]
#[verifier::reject_recursive_types(V)]
#[verifier::reject_recursive_types(S)]
pub struct ExHashMap<K, V, S>(HashMap<K, V, S>);

#[verifier::external_type_specification]
#[verifier::external_body]
pub struct ExFixedHasher(bevy::platform::hash::FixedHasher);

/// The keys that activate a node each frame: with `once` unset, while all of
/// them are held; with `once` set, on the frame when the last one is pressed
/// while the others are held.
pub struct Input {
    pub keys: Vec<String>,
    pub once: bool,
}

pub struct InputView {
    pub keys: Seq<Seq<char>>,
    pub once: bool,
}

impl View for Input {
    type V = InputView;

    open spec fn view(&self) -> InputView {
        InputView { keys: self.keys@.map_values(|k: String| k@), once: self.once }
    }
}

/// Whether a binding fires, given the keys held and the keys pressed this frame.
/// A binding with no keys never fires.
pub open spec fn input_fires(i: InputView, held: Set<Seq<char>>, pressed: Set<Seq<char>>) -> bool {
    if i.keys.len() == 0 {
        false
    } else if !i.once {
        forall|j: int| 0 <= j < i.keys.len() ==> held.contains(#[trigger] i.keys[j])
    } else {
        &&& forall|j: int| 0 <= j < i.keys.len() - 1 ==> held.contains(#[trigger] i.keys[j])
        &&& pressed.contains(i.keys.last())
    }
}

/// The names in a list of strings, as a set.
pub open spec fn name_set(v: Seq<String>) -> Set<Seq<char>> {
    v.map_values(|k: String| k@).to_set()
}

/// Whether `name` is among `names`.
fn contains_name(names: &Vec<String>, name: &String) -> (r: bool)
    ensures
        r == name_set(names@).contains(name@),
{
    let ghost views = names@.map_values(|k: String| k@);
    let mut i: usize = 0;
    while i < names.len()
        invariant
            0 <= i <= names.len(),
            views == names@.map_values(|k: String| k@),
            forall|j: int| 0 <= j < i ==> views[j] != name@,
        decreases names.len() - i,
    {
        if names[i] == *name {
            proof {
                assert(views[i as int] == name@);
                assert(views.contains(name@));
            }
            return true;
        }
        i = i + 1;
    }
    proof {
        assert(!views.contains(name@));
    }
    false
}

/// Whether two lists of strings hold the same strings in the same order.
fn names_equal(a: &Vec<String>, b: &Vec<String>) -> (r: bool)
    ensures
        r == (a@.map_values(|k: String| k@) == b@.map_values(|k: String| k@)),
{
    let ghost va = a@.map_values(|k: String| k@);
    let ghost vb = b@.map_values(|k: String| k@);
    if a.len() != b.len() {
        proof {
            assert(va.len() != vb.len());
        }
        return false;
    }
    let mut i: usize = 0;
    while i < a.len()
        invariant
            0 <= i <= a.len(),
            a.len() == b.len(),
            va == a@.map_values(|k: String| k@),
            vb == b@.map_values(|k: String| k@),
            forall|j: int| 0 <= j < i ==> va[j] == vb[j],
        decreases a.len() - i,
    {
        if a[i] != b[i] {
            proof {
                assert(va[i as int] != vb[i as int]);
            }
            return false;
        }
        i = i + 1;
    }
    proof {
        assert(va =~= vb);
    }
    true
}

impl Default for Input {
    /// A binding that never fires.
    fn default() -> (r: Input)
        ensures
            r@.keys.len() == 0,
            !r@.once,
    {
        Input { keys: Vec::new(), once: false }
    }
}

impl Input {
    /// Whether this binding fires, given the keys held and the keys pressed this frame.
    pub fn fires(&self, held: &Vec<String>, pressed: &Vec<String>) -> (r: bool)
        ensures
            r == input_fires(self@, name_set(held@), name_set(pressed@)),
    {
        let n = self.keys.len();
        if n == 0 {
            return false;
        }
        let ghost keys = self@.keys;
        let last: usize = if self.once { n - 1 } else { n };
        let mut i: usize = 0;
        while i < last
            invariant
                0 <= i <= last <= n,
                n == self.keys.len(),
                keys == self@.keys,
                last == (if self.once { n - 1 } else { n as int }),
                forall|j: int| 0 <= j < i ==> name_set(held@).contains(#[trigger] keys[j]),
            decreases last - i,
        {
            if !contains_name(held, &self.keys[i]) {
                proof {
                    assert(keys[i as int] == self.keys@[i as int]@);
                }
                return false;
            }
            i = i + 1;
        }
        if self.once {
            let r = contains_name(pressed, &self.keys[n - 1]);
            proof {
                assert(keys.last() == self.keys@[n - 1]@);
            }
            r
        } else {
            true
        }
    }

    /// Whether two bindings have the same keys and the same mode.
    pub fn same_binding(&self, other: &Input) -> (r: bool)
        ensures
            r == (self@ == other@),
    {
        let k = names_equal(&self.keys, &other.keys);
        k && self.once == other.once
    }

    /// A copy of this binding.
    pub fn duplicate(&self) -> (r: Input)
        ensures
            r@ == self@,
    {
        Input { keys: self.keys.clone(), once: self.once }
    }
}


/// The view of one outlet's connections: the target node's name and inlet index.
pub open spec fn links_view(v: Seq<(String, usize)>) -> Seq<(Seq<char>, usize)> {
    v.map_values(|p: (String, usize)| (p.0@, p.1))
}

/// The view of every outlet's connections.
pub open spec fn outgoing_view(v: Seq<Vec<(String, usize)>>) -> Seq<Seq<(Seq<char>, usize)>> {
    v.map_values(|l: Vec<(String, usize)>| links_view(l@))
}

/// What a patch records of a node besides its wiring.
pub struct PatchNode {
    pub component_id: String,
    pub input: Option<Input>,
    pub internal_data: Vec<Data>,
    pub arg_order: Vec<usize>,
}

pub struct PatchNodeView {
    pub component_id: Seq<char>,
    pub input: Option<InputView>,
    pub internal_data: Seq<DataView>,
    pub arg_order: Seq<usize>,
}

pub open spec fn input_view(i: Option<Input>) -> Option<InputView> {
    match i {
        Some(x) => Some(x@),
        None => None,
    }
}

impl View for PatchNode {
    type V = PatchNodeView;

    open spec fn view(&self) -> PatchNodeView {
        PatchNodeView {
            component_id: self.component_id@,
            input: input_view(self.input),
            internal_data: values(self.internal_data@),
            arg_order: self.arg_order@,
        }
    }
}

/// The values bound to a node's inlets.
pub struct Ingoing(pub Vec<Data>);

/// For each outlet of a node, the inlets it feeds.
pub struct Outgoing(pub Vec<Vec<(String, usize)>>);

/// A node of a patch, with the values bound to its inlets, the inlets its
/// control outlets feed and the inlets its signal outlets feed.
pub struct PatchEntry {
    pub node: PatchNode,
    pub ingoing: Ingoing,
    pub outgoing: Outgoing,
    pub signals: Outgoing,
}

pub struct PatchEntryView {
    pub node: PatchNodeView,
    pub ingoing: Seq<DataView>,
    pub outgoing: Seq<Seq<(Seq<char>, usize)>>,
    pub signals: Seq<Seq<(Seq<char>, usize)>>,
}

impl View for PatchEntry {
    type V = PatchEntryView;

    open spec fn view(&self) -> PatchEntryView {
        PatchEntryView {
            node: self.node@,
            ingoing: values(self.ingoing.0@),
            outgoing: outgoing_view(self.outgoing.0@),
            signals: outgoing_view(self.signals.0@),
        }
    }
}

/// What a map of patch entries holds, by node name.
pub uninterp spec fn node_table(m: HashMap<String, PatchEntry>) -> Map<Seq<char>, PatchEntryView>;

/// `HashMap::new`: an empty map.
#[verifier::external_body]
fn table_new() -> (table: HashMap<String, PatchEntry>)
    ensures
        node_table(table).dom() == Set::<Seq<char>>::empty(),
{
    HashMap::new()
}

/// `HashMap::get`: the entry under `key`, if there is one.
#[verifier::external_body]
fn table_get<'a>(table: &'a HashMap<String, PatchEntry>, key: &String) -> (entry: Option<&'a PatchEntry>)
    ensures
        entry is Some <==> node_table(*table).dom().contains(key@),
        entry matches Some(e) ==> e@ == node_table(*table)[key@],
{
    table.get(key)
}

/// `HashMap::insert`: puts `value` under `key`, handing back what was there.
#[verifier::external_body]
fn table_insert(table: &mut HashMap<String, PatchEntry>, key: String, value: PatchEntry) -> (previous: Option<PatchEntry>)
    ensures
        node_table(*final(table)) == node_table(*old(table)).insert(key@, value@),
        previous is Some <==> node_table(*old(table)).dom().contains(key@),
        previous matches Some(e) ==> e@ == node_table(*old(table))[key@],
{
    table.insert(key, value)
}

/// `HashMap::remove`: takes the entry under `key` out, if there is one.
#[verifier::external_body]
fn table_remove(table: &mut HashMap<String, PatchEntry>, key: &String) -> (removed: Option<PatchEntry>)
    ensures
        node_table(*final(table)) == node_table(*old(table)).remove(key@),
        removed is Some <==> node_table(*old(table)).dom().contains(key@),
        removed matches Some(e) ==> e@ == node_table(*old(table))[key@],
{
    table.remove(key)
}

/// `HashMap::keys`: every key once, in an order that the map does not promise.
#[verifier::external_body]
fn table_keys(table: &HashMap<String, PatchEntry>) -> (keys: Vec<String>)
    ensures
        forall|i: int| 0 <= i < keys.len() ==> node_table(*table).dom().contains(#[trigger] keys@[i]@),
        forall|k: Seq<char>| node_table(*table).dom().contains(k) ==> exists|i: int| 0 <= i < keys.len() && #[trigger] keys@[i]@ == k,
        forall|i: int, j: int| 0 <= i < j < keys.len() ==> keys@[i]@ != keys@[j]@,
{
    table.keys().cloned().collect()
}


/// A copy of a list of values.
pub fn copy_data(v: &Vec<Data>) -> (r: Vec<Data>)
    ensures
        values(r@) == values(v@),
{
    let mut r: Vec<Data> = Vec::new();
    let mut i: usize = 0;
    while i < v.len()
        invariant
            0 <= i <= v.len(),
            r@.len() == i,
            forall|j: int| 0 <= j < i ==> r@[j]@ == v@[j]@,
        decreases v.len() - i,
    {
        r.push(v[i].clone());
        i = i + 1;
    }
    proof {
        assert(values(r@) =~= values(v@));
    }
    r
}

/// Whether two lists of values are the same.
pub fn data_equal(a: &Vec<Data>, b: &Vec<Data>) -> (r: bool)
    ensures
        r == (values(a@) == values(b@)),
{
    if a.len() != b.len() {
        proof {
            assert(values(a@).len() != values(b@).len());
        }
        return false;
    }
    let mut i: usize = 0;
    while i < a.len()
        invariant
            0 <= i <= a.len(),
            a.len() == b.len(),
            forall|j: int| 0 <= j < i ==> a@[j]@ == b@[j]@,
        decreases a.len() - i,
    {
        if !a[i].equals(&b[i]) {
            proof {
                assert(values(a@)[i as int] != values(b@)[i as int]);
            }
            return false;
        }
        i = i + 1;
    }
    proof {
        assert(values(a@) =~= values(b@));
    }
    true
}

/// A copy of one outlet's connections.
fn copy_links(v: &Vec<(String, usize)>) -> (r: Vec<(String, usize)>)
    ensures
        links_view(r@) == links_view(v@),
{
    let mut r: Vec<(String, usize)> = Vec::new();
    let mut i: usize = 0;
    while i < v.len()
        invariant
            0 <= i <= v.len(),
            r@.len() == i,
            forall|j: int| 0 <= j < i ==> r@[j].0@ == v@[j].0@ && r@[j].1 == v@[j].1,
        decreases v.len() - i,
    {
        let name = v[i].0.clone();
        r.push((name, v[i].1));
        i = i + 1;
    }
    proof {
        assert(links_view(r@) =~= links_view(v@));
    }
    r
}

/// A copy of every outlet's connections.
pub fn copy_outgoing(v: &Vec<Vec<(String, usize)>>) -> (r: Vec<Vec<(String, usize)>>)
    ensures
        outgoing_view(r@) == outgoing_view(v@),
{
    let mut r: Vec<Vec<(String, usize)>> = Vec::new();
    let mut i: usize = 0;
    while i < v.len()
        invariant
            0 <= i <= v.len(),
            r@.len() == i,
            forall|j: int| 0 <= j < i ==> links_view(r@[j]@) == links_view(v@[j]@),
        decreases v.len() - i,
    {
        r.push(copy_links(&v[i]));
        i = i + 1;
    }
    proof {
        assert(outgoing_view(r@) =~= outgoing_view(v@));
    }
    r
}

/// Whether two outlets feed the same inlets in the same order.
fn links_equal(a: &Vec<(String, usize)>, b: &Vec<(String, usize)>) -> (r: bool)
    ensures
        r == (links_view(a@) == links_view(b@)),
{
    if a.len() != b.len() {
        proof {
            assert(links_view(a@).len() != links_view(b@).len());
        }
        return false;
    }
    let mut i: usize = 0;
    while i < a.len()
        invariant
            0 <= i <= a.len(),
            a.len() == b.len(),
            forall|j: int| 0 <= j < i ==> a@[j].0@ == b@[j].0@ && a@[j].1 == b@[j].1,
        decreases a.len() - i,
    {
        if a[i].0 != b[i].0 || a[i].1 != b[i].1 {
            proof {
                assert(links_view(a@)[i as int] != links_view(b@)[i as int]);
            }
            return false;
        }
        i = i + 1;
    }
    proof {
        assert(links_view(a@) =~= links_view(b@));
    }
    true
}

/// Whether two nodes' outlets feed the same inlets.
pub fn outgoing_equal(a: &Vec<Vec<(String, usize)>>, b: &Vec<Vec<(String, usize)>>) -> (r: bool)
    ensures
        r == (outgoing_view(a@) == outgoing_view(b@)),
{
    if a.len() != b.len() {
        proof {
            assert(outgoing_view(a@).len() != outgoing_view(b@).len());
        }
        return false;
    }
    let mut i: usize = 0;
    while i < a.len()
        invariant
            0 <= i <= a.len(),
            a.len() == b.len(),
            forall|j: int| 0 <= j < i ==> links_view(a@[j]@) == links_view(b@[j]@),
        decreases a.len() - i,
    {
        if !links_equal(&a[i], &b[i]) {
            proof {
                assert(outgoing_view(a@)[i as int] != outgoing_view(b@)[i as int]);
            }
            return false;
        }
        i = i + 1;
    }
    proof {
        assert(outgoing_view(a@) =~= outgoing_view(b@));
    }
    true
}

/// A copy of an optional binding.
pub fn copy_input(i: &Option<Input>) -> (r: Option<Input>)
    ensures
        input_view(r) == input_view(*i),
{
    match i {
        Some(x) => Some(x.duplicate()),
        None => None,
    }
}

/// Whether two optional bindings are the same.
pub fn inputs_equal(a: &Option<Input>, b: &Option<Input>) -> (r: bool)
    ensures
        r == (input_view(*a) == input_view(*b)),
{
    match (a, b) {
        (Some(x), Some(y)) => x.same_binding(y),
        (None, None) => true,
        _ => false,
    }
}

impl Clone for PatchNode {
    /// A copy that keeps the component, the binding and the internal data, and
    /// drops the argument order.
    fn clone(&self) -> (r: PatchNode)
        ensures
            r@ == (PatchNodeView { arg_order: Seq::empty(), ..self@ }),
    {
        PatchNode {
            component_id: self.component_id.clone(),
            input: copy_input(&self.input),
            internal_data: copy_data(&self.internal_data),
            arg_order: Vec::new(),
        }
    }
}

impl Clone for Ingoing {
    fn clone(&self) -> (r: Ingoing)
        ensures
            values(r.0@) == values(self.0@),
    {
        Ingoing(copy_data(&self.0))
    }
}

impl Clone for Outgoing {
    fn clone(&self) -> (r: Outgoing)
        ensures
            outgoing_view(r.0@) == outgoing_view(self.0@),
    {
        Outgoing(copy_outgoing(&self.0))
    }
}

impl Clone for PatchEntry {
    /// A copy of the node record (see [`PatchNode::clone`]) and of its wiring.
    fn clone(&self) -> (r: PatchEntry)
        ensures
            r@ == entry_copy(self@),
    {
        PatchEntry {
            node: self.node.clone(),
            ingoing: self.ingoing.clone(),
            outgoing: self.outgoing.clone(),
            signals: self.signals.clone(),
        }
    }
}

/// What a copy of an entry holds: everything but the argument order.
pub open spec fn entry_copy(e: PatchEntryView) -> PatchEntryView {
    PatchEntryView { node: PatchNodeView { arg_order: Seq::empty(), ..e.node }, ..e }
}


/// A description of nodes, the values bound to their inlets and the
/// connections between them, keyed by node name.
pub struct Patch {
    pub(crate) nodes: HashMap<String, PatchEntry>,
}

impl View for Patch {
    type V = Map<Seq<char>, PatchEntryView>;

    closed spec fn view(&self) -> Map<Seq<char>, PatchEntryView> {
        node_table(self.nodes)
    }
}

/// The record of a node just added: no binding, every inlet empty, every
/// outlet unconnected and no signal connection.
pub open spec fn fresh_entry(
    component_id: Seq<char>,
    internal_data: Seq<DataView>,
    arg_order: Seq<usize>,
    inlets: nat,
    outlets: nat,
) -> PatchEntryView {
    PatchEntryView {
        node: PatchNodeView { component_id, input: None, internal_data, arg_order },
        ingoing: Seq::new(inlets, |i: int| DataView::Nothing),
        outgoing: Seq::new(outlets, |i: int| Seq::<(Seq<char>, usize)>::empty()),
        signals: Seq::empty(),
    }
}

/// The inlet values after `data[i]` is bound, in turn, to inlet `order[i]`.
pub open spec fn bind_values(ingoing: Seq<DataView>, order: Seq<usize>, data: Seq<DataView>) -> Seq<DataView>
    decreases data.len(),
{
    if data.len() == 0 {
        ingoing
    } else {
        bind_values(ingoing, order, data.drop_last()).update(
            order[data.len() - 1] as int,
            data.last(),
        )
    }
}

/// A node of a patch, by name, with its number of inlets and outlets.
pub struct NodeRef<const IN: usize, const OUT: usize>(pub(crate) String);

impl<const IN: usize, const OUT: usize> View for NodeRef<IN, OUT> {
    type V = Seq<char>;

    closed spec fn view(&self) -> Seq<char> {
        self.0@
    }
}

impl<const IN: usize, const OUT: usize> Clone for NodeRef<IN, OUT> {
    fn clone(&self) -> (r: Self)
        ensures
            r@ == self@,
    {
        NodeRef(self.0.clone())
    }
}

/// The inlet of a node with the given index.
pub struct Inlet<const IN: usize, const OUT: usize> {
    pub(crate) node: NodeRef<IN, OUT>,
    pub(crate) index: usize,
}

/// The control outlet of a node with the given index.
pub struct Outlet<const IN: usize, const OUT: usize> {
    pub(crate) node: NodeRef<IN, OUT>,
    pub(crate) index: usize,
}

impl<const IN: usize, const OUT: usize> Inlet<IN, OUT> {
    pub closed spec fn node_name(&self) -> Seq<char> {
        self.node@
    }

    pub closed spec fn position(&self) -> usize {
        self.index
    }
}

impl<const IN: usize, const OUT: usize> Outlet<IN, OUT> {
    pub closed spec fn node_name(&self) -> Seq<char> {
        self.node@
    }

    pub closed spec fn position(&self) -> usize {
        self.index
    }
}

impl<const IN: usize, const OUT: usize> Clone for Inlet<IN, OUT> {
    fn clone(&self) -> (r: Self)
        ensures
            r.node_name() == self.node_name(),
            r.position() == self.position(),
    {
        Inlet { node: self.node.clone(), index: self.index }
    }
}

impl<const IN: usize, const OUT: usize> Clone for Outlet<IN, OUT> {
    fn clone(&self) -> (r: Self)
        ensures
            r.node_name() == self.node_name(),
            r.position() == self.position(),
    {
        Outlet { node: self.node.clone(), index: self.index }
    }
}

impl<const IN: usize, const OUT: usize> NodeRef<IN, OUT> {
    /// The node's inlet `i`.
    pub fn inlet(&self, i: usize) -> (r: Inlet<IN, OUT>)
        requires
            i < IN,
        ensures
            r.node_name() == self@,
            r.position() == i,
    {
        Inlet { node: self.clone(), index: i }
    }

    /// The node's control outlet `o`.
    pub fn outlet(&self, o: usize) -> (r: Outlet<IN, OUT>)
        requires
            o < OUT,
        ensures
            r.node_name() == self@,
            r.position() == o,
    {
        Outlet { node: self.clone(), index: o }
    }
}

impl Default for Patch {
    /// A patch without nodes.
    fn default() -> (r: Patch)
        ensures
            r@.dom() == Set::<Seq<char>>::empty(),
    {
        Patch { nodes: table_new() }
    }
}

impl Clone for Patch {
    /// A copy of every entry (see [`PatchEntry::clone`]).
    fn clone(&self) -> (r: Patch)
        ensures
            r@ == self@.map_values(|e: PatchEntryView| entry_copy(e)),
    {
        let keys = table_keys(&self.nodes);
        let mut nodes = table_new();
        let mut i: usize = 0;
        while i < keys.len()
            invariant
                0 <= i <= keys.len(),
                forall|j: int| 0 <= j < keys.len() ==> node_table(self.nodes).dom().contains(#[trigger] keys@[j]@),
                forall|k: Seq<char>| node_table(self.nodes).dom().contains(k) ==> exists|j: int| 0 <= j < keys.len() && #[trigger] keys@[j]@ == k,
                forall|a: int, b: int| 0 <= a < b < keys.len() ==> keys@[a]@ != keys@[b]@,
                forall|k: Seq<char>| #[trigger] node_table(nodes).dom().contains(k) <==> exists|j: int| 0 <= j < i && keys@[j]@ == k,
                forall|k: Seq<char>| #[trigger] node_table(nodes).dom().contains(k) ==> node_table(nodes)[k] == entry_copy(node_table(self.nodes)[k]),
            decreases keys.len() - i,
        {
            let e = table_get(&self.nodes, &keys[i]);
            proof {
                assert(node_table(self.nodes).dom().contains(keys@[i as int]@));
            }
            let copy = e.unwrap().clone();
            let _ = table_insert(&mut nodes, keys[i].clone(), copy);
            proof {
                assert forall|k: Seq<char>| #[trigger] node_table(nodes).dom().contains(k) <==> exists|j: int| 0 <= j < i + 1 && keys@[j]@ == k by {
                    if node_table(nodes).dom().contains(k) && k != keys@[i as int]@ {
                        let j = choose|j: int| 0 <= j < i && keys@[j]@ == k;
                        assert(0 <= j < i + 1 && keys@[j]@ == k);
                    }
                    if exists|j: int| 0 <= j < i + 1 && keys@[j]@ == k {
                        let j = choose|j: int| 0 <= j < i + 1 && keys@[j]@ == k;
                        if j < i {
                            assert(exists|j2: int| 0 <= j2 < i && keys@[j2]@ == k);
                        }
                    }
                }
            }
            i = i + 1;
        }
        let r = Patch { nodes };
        proof {
            assert forall|k: Seq<char>| #[trigger] node_table(nodes).dom().contains(k) <==> node_table(self.nodes).dom().contains(k) by {
                if node_table(self.nodes).dom().contains(k) {
                    let j = choose|j: int| 0 <= j < keys.len() && #[trigger] keys@[j]@ == k;
                    assert(exists|j2: int| 0 <= j2 < i && keys@[j2]@ == k);
                }
            }
            assert(node_table(nodes) =~= node_table(self.nodes).map_values(|e: PatchEntryView| entry_copy(e)));
        }
        r
    }
}


/// A list of `n` empty values.
fn empty_values(n: usize) -> (r: Vec<Data>)
    ensures
        values(r@) == Seq::new(n as nat, |i: int| DataView::Nothing),
{
    let mut r: Vec<Data> = Vec::new();
    let mut i: usize = 0;
    while i < n
        invariant
            0 <= i <= n,
            r@.len() == i,
            forall|j: int| 0 <= j < i ==> r@[j]@ == DataView::Nothing,
        decreases n - i,
    {
        r.push(Data::Nothing);
        i = i + 1;
    }
    proof {
        assert(values(r@) =~= Seq::new(n as nat, |i: int| DataView::Nothing));
    }
    r
}

/// A list of `n` unconnected outlets.
fn empty_links(n: usize) -> (r: Vec<Vec<(String, usize)>>)
    ensures
        outgoing_view(r@) == Seq::new(n as nat, |i: int| Seq::<(Seq<char>, usize)>::empty()),
{
    let mut r: Vec<Vec<(String, usize)>> = Vec::new();
    let mut i: usize = 0;
    while i < n
        invariant
            0 <= i <= n,
            r@.len() == i,
            forall|j: int| 0 <= j < i ==> r@[j]@.len() == 0,
        decreases n - i,
    {
        r.push(Vec::new());
        i = i + 1;
    }
    proof {
        assert forall|j: int| 0 <= j < n implies #[trigger] outgoing_view(r@)[j] =~= Seq::<(Seq<char>, usize)>::empty() by {
            assert(links_view(r@[j]@).len() == 0);
        }
        assert(outgoing_view(r@) =~= Seq::new(n as nat, |i: int| Seq::<(Seq<char>, usize)>::empty()));
    }
    r
}

impl Patch {
    /// The record of the node called `name`, if the patch has one.
    pub fn entry(&self, name: &String) -> (r: Option<&PatchEntry>)
        ensures
            r is Some <==> self@.dom().contains(name@),
            r matches Some(e) ==> e@ == self@[name@],
    {
        table_get(&self.nodes, name)
    }

    /// Whether the patch has the node.
    pub fn has_node<const IN: usize, const OUT: usize>(&self, node: &NodeRef<IN, OUT>) -> (r: bool)
        ensures
            r == self@.dom().contains(node@),
    {
        table_get(&self.nodes, &node.0).is_some()
    }

    /// Whether the patch has the node of the outlet, and the node that outlet.
    pub fn has_outlet<const IN: usize, const OUT: usize>(&self, outlet: &Outlet<IN, OUT>) -> (r: bool)
        ensures
            r == (self@.dom().contains(outlet.node_name())
                && outlet.position() < self@[outlet.node_name()].outgoing.len()),
    {
        match table_get(&self.nodes, &outlet.node.0) {
            Some(e) => outlet.index < e.outgoing.0.len(),
            None => false,
        }
    }

    /// Whether the patch has the node of the inlet, and the node that inlet.
    pub fn has_inlet<const IN: usize, const OUT: usize>(&self, inlet: &Inlet<IN, OUT>) -> (r: bool)
        ensures
            r == (self@.dom().contains(inlet.node_name())
                && inlet.position() < self@[inlet.node_name()].ingoing.len()),
    {
        match table_get(&self.nodes, &inlet.node.0) {
            Some(e) => inlet.index < e.ingoing.0.len(),
            None => false,
        }
    }

    /// Whether `count` values can be bound to the node through its argument
    /// order: the patch has the node, its argument order covers `count`
    /// arguments, and each of them goes to one of its inlets.
    pub fn can_bind<const IN: usize, const OUT: usize>(&self, node: &NodeRef<IN, OUT>, count: usize) -> (r: bool)
        ensures
            r == (self@.dom().contains(node@)
                && count <= self@[node@].node.arg_order.len()
                && forall|i: int| 0 <= i < count ==> #[trigger] self@[node@].node.arg_order[i] < self@[node@].ingoing.len()),
    {
        match table_get(&self.nodes, &node.0) {
            None => false,
            Some(e) => {
                if count > e.node.arg_order.len() {
                    return false;
                }
                let mut i: usize = 0;
                while i < count
                    invariant
                        0 <= i <= count,
                        count <= e.node.arg_order.len(),
                        e@ == self@[node@],
                        forall|j: int| 0 <= j < i ==> #[trigger] e@.node.arg_order[j] < e@.ingoing.len(),
                    decreases count - i,
                {
                    if e.node.arg_order[i] >= e.ingoing.0.len() {
                        proof {
                            assert(e@.node.arg_order[i as int] == e.node.arg_order@[i as int]);
                            assert(e@.ingoing.len() == e.ingoing.0.len());
                            assert(!(e@.node.arg_order[i as int] < e@.ingoing.len()));
                        }
                        return false;
                    }
                    i = i + 1;
                }
                true
            },
        }
    }

    /// The names of the patch's nodes, each once, in no promised order.
    pub fn node_names(&self) -> (r: Vec<String>)
        ensures
            forall|i: int| 0 <= i < r.len() ==> self@.dom().contains(#[trigger] r@[i]@),
            forall|k: Seq<char>| self@.dom().contains(k) ==> exists|i: int| 0 <= i < r.len() && #[trigger] r@[i]@ == k,
            forall|i: int, j: int| 0 <= i < j < r.len() ==> r@[i]@ != r@[j]@,
    {
        table_keys(&self.nodes)
    }

    /// Adds a node called `name` (replacing any node of that name) with `IN`
    /// empty inlets and `OUT` unconnected outlets.
    pub fn create_node<const IN: usize, const OUT: usize>(
        &mut self,
        name: String,
        component_id: String,
        internal_data: Vec<Data>,
        arg_order: Vec<usize>,
    ) -> (r: NodeCommands<'_, IN, OUT>)
        ensures
            r.node_ref@ == name@,
            r.patch@ == old(self)@.insert(
                name@,
                fresh_entry(component_id@, values(internal_data@), arg_order@, IN as nat, OUT as nat),
            ),
            *final(self) == *final(r.patch),
    {
        let ghost internal = values(internal_data@);
        let ghost order = arg_order@;
        let ghost id = component_id@;
        let entry = PatchEntry {
            node: PatchNode { component_id, input: None, internal_data, arg_order },
            ingoing: Ingoing(empty_values(IN)),
            outgoing: Outgoing(empty_links(OUT)),
            signals: Outgoing(Vec::new()),
        };
        proof {
            assert(outgoing_view(entry.signals.0@) =~= Seq::<Seq<(Seq<char>, usize)>>::empty());
            assert(entry@ == fresh_entry(id, internal, order, IN as nat, OUT as nat));
        }
        let key = name.clone();
        let _ = table_insert(&mut self.nodes, key, entry);
        NodeCommands { node_ref: NodeRef(name), patch: self }
    }

    /// Connects a control outlet to an inlet: the inlet joins the end of the
    /// outlet's list of connections.
    pub fn connect<const IN1: usize, const OUT1: usize, const IN2: usize, const OUT2: usize>(
        &mut self,
        outlet: Outlet<IN2, OUT2>,
        inlet: Inlet<IN1, OUT1>,
    )
        requires
            old(self)@.dom().contains(outlet.node_name()),
            outlet.position() < old(self)@[outlet.node_name()].outgoing.len(),
        ensures
            final(self)@ == old(self)@.insert(
                outlet.node_name(),
                PatchEntryView {
                    outgoing: old(self)@[outlet.node_name()].outgoing.update(
                        outlet.position() as int,
                        old(self)@[outlet.node_name()].outgoing[outlet.position() as int].push(
                            (inlet.node_name(), inlet.position()),
                        ),
                    ),
                    ..old(self)@[outlet.node_name()]
                },
            ),
    {
        let mut entry = table_remove(&mut self.nodes, &outlet.node.0).unwrap();
        let ghost before = entry@;
        let o = outlet.index;
        let target = inlet.node.0;
        let mut links = copy_links(&entry.outgoing.0[o]);
        let ghost old_links = links@;
        links.push((target, inlet.index));
        entry.outgoing.0.set(o, links);
        proof {
            assert(links_view(links@) =~= links_view(old_links).push((inlet.node_name(), inlet.position())));
            assert(entry@.outgoing =~= before.outgoing.update(o as int, before.outgoing[o as int].push((inlet.node_name(), inlet.position()))));
        }
        let _ = table_insert(&mut self.nodes, outlet.node.0, entry);
        proof {
            assert(node_table(self.nodes) =~= old(self)@.insert(
                outlet.node_name(),
                PatchEntryView {
                    outgoing: old(self)@[outlet.node_name()].outgoing.update(
                        outlet.position() as int,
                        old(self)@[outlet.node_name()].outgoing[outlet.position() as int].push(
                            (inlet.node_name(), inlet.position()),
                        ),
                    ),
                    ..old(self)@[outlet.node_name()]
                },
            ));
        }
    }
}

/// The signal connections of a node's outlets, with an empty list added for
/// each signal outlet up to the first `n` that has none yet.
pub open spec fn padded_links(links: Seq<Seq<(Seq<char>, usize)>>, n: nat) -> Seq<Seq<(Seq<char>, usize)>> {
    if links.len() >= n {
        links
    } else {
        links + Seq::new((n - links.len()) as nat, |i: int| Seq::<(Seq<char>, usize)>::empty())
    }
}

impl Patch {
    /// Connects signal outlet `out` of `from` to signal inlet `input` of `to`
    /// (`from[out] => to[input]`): the inlet joins the end of that outlet's
    /// list of signal connections. Signal outlets are counted apart from the
    /// control ones, so the list of `from` grows to reach `out` if need be.
    pub fn connect_signal<const IN1: usize, const OUT1: usize, const IN2: usize, const OUT2: usize>(
        &mut self,
        from: &NodeRef<IN2, OUT2>,
        out: usize,
        to: &NodeRef<IN1, OUT1>,
        input: usize,
    )
        requires
            old(self)@.dom().contains(from@),
            out < usize::MAX,
        ensures
            final(self)@ == old(self)@.insert(
                from@,
                PatchEntryView {
                    signals: padded_links(old(self)@[from@].signals, (out + 1) as nat).update(
                        out as int,
                        padded_links(old(self)@[from@].signals, (out + 1) as nat)[out as int].push((to@, input)),
                    ),
                    ..old(self)@[from@]
                },
            ),
    {
        let mut entry = table_remove(&mut self.nodes, &from.0).unwrap();
        let ghost before = entry@;
        let ghost padded = padded_links(before.signals, (out + 1) as nat);
        while entry.signals.0.len() <= out
            invariant
                out < usize::MAX,
                entry@ == (PatchEntryView { signals: outgoing_view(entry.signals.0@), ..before }),
                outgoing_view(entry.signals.0@) == padded_links(before.signals, entry.signals.0.len() as nat),
                before.signals.len() <= entry.signals.0.len(),
                entry.signals.0.len() <= out + 1 || entry.signals.0.len() == before.signals.len(),
            decreases out + 1 - entry.signals.0.len(),
        {
            let ghost k = entry.signals.0.len();
            let ghost prior = outgoing_view(entry.signals.0@);
            entry.signals.0.push(Vec::new());
            proof {
                let now = outgoing_view(entry.signals.0@);
                let want = padded_links(before.signals, (k + 1) as nat);
                assert(prior == padded_links(before.signals, k as nat));
                assert forall|i: int| 0 <= i < k + 1 implies now[i] == want[i] by {
                    if i < k {
                        assert(now[i] == prior[i]);
                    } else {
                        assert(now[i] == links_view(Seq::<(String, usize)>::empty()));
                        assert(links_view(Seq::<(String, usize)>::empty()) =~= Seq::<(Seq<char>, usize)>::empty());
                    }
                }
                assert(now =~= want);
            }
        }
        proof {
            if before.signals.len() > out {
                assert(padded == before.signals);
            }
            assert(outgoing_view(entry.signals.0@) == padded);
        }
        let mut links = copy_links(&entry.signals.0[out]);
        let ghost old_links = links@;
        links.push((to.0.clone(), input));
        entry.signals.0.set(out, links);
        proof {
            assert(links_view(links@) =~= links_view(old_links).push((to@, input)));
            assert(entry@.signals =~= padded.update(out as int, padded[out as int].push((to@, input))));
        }
        let _ = table_insert(&mut self.nodes, from.0.clone(), entry);
        proof {
            assert(node_table(self.nodes) =~= old(self)@.insert(
                from@,
                PatchEntryView { signals: padded.update(out as int, padded[out as int].push((to@, input))), ..old(self)@[from@] },
            ));
        }
    }
}

/// The builder handed back by [`Patch::create_node`]: it refers to the node
/// just added and lets further settings be made on it.
pub struct NodeCommands<'a, const IN: usize, const OUT: usize> {
    pub node_ref: NodeRef<IN, OUT>,
    pub patch: &'a mut Patch,
}

impl<'a, const IN: usize, const OUT: usize> NodeCommands<'a, IN, OUT> {
    /// A reference to the node this builder works on.
    pub fn id(&self) -> (r: NodeRef<IN, OUT>)
        ensures
            r@ == self.node_ref@,
    {
        self.node_ref.clone()
    }
}


impl Patch {
    /// Sets the keys that activate the node.
    pub fn bind_input<const IN: usize, const OUT: usize>(&mut self, node: NodeRef<IN, OUT>, input: Input)
        requires
            old(self)@.dom().contains(node@),
        ensures
            final(self)@ == old(self)@.insert(
                node@,
                PatchEntryView {
                    node: PatchNodeView { input: Some(input@), ..old(self)@[node@].node },
                    ..old(self)@[node@]
                },
            ),
    {
        let ghost iv = input@;
        let mut entry = table_remove(&mut self.nodes, &node.0).unwrap();
        entry.node.input = Some(input);
        let _ = table_insert(&mut self.nodes, node.0, entry);
        proof {
            assert(node_table(self.nodes) =~= old(self)@.insert(
                node@,
                PatchEntryView {
                    node: PatchNodeView { input: Some(iv), ..old(self)@[node@].node },
                    ..old(self)@[node@]
                },
            ));
        }
    }

    /// Binds `data[i]` to the inlet that argument `i` of the node goes to, in
    /// turn for each `i`.
    pub fn bind_data<const IN: usize, const OUT: usize>(&mut self, node: NodeRef<IN, OUT>, data: Vec<Data>)
        requires
            data.len() <= IN,
            old(self)@.dom().contains(node@),
            data.len() <= old(self)@[node@].node.arg_order.len(),
            forall|i: int| 0 <= i < data.len() ==> #[trigger] old(self)@[node@].node.arg_order[i] < old(self)@[node@].ingoing.len(),
        ensures
            final(self)@ == old(self)@.insert(
                node@,
                PatchEntryView {
                    ingoing: bind_values(old(self)@[node@].ingoing, old(self)@[node@].node.arg_order, values(data@)),
                    ..old(self)@[node@]
                },
            ),
    {
        let mut entry = table_remove(&mut self.nodes, &node.0).unwrap();
        let ghost before = entry@;
        let ghost bound = values(data@);
        let mut i: usize = 0;
        while i < data.len()
            invariant
                0 <= i <= data.len(),
                bound == values(data@),
                entry@ == (PatchEntryView {
                    ingoing: bind_values(before.ingoing, before.node.arg_order, bound.take(i as int)),
                    ..before
                }),
                entry.node.arg_order@ == before.node.arg_order,
                data.len() <= before.node.arg_order.len(),
                forall|j: int| 0 <= j < data.len() ==> #[trigger] before.node.arg_order[j] < before.ingoing.len(),
            decreases data.len() - i,
        {
            let target = entry.node.arg_order[i];
            proof {
                assert(before.node.arg_order[i as int] < before.ingoing.len());
                assert(bound.take(i + 1).drop_last() =~= bound.take(i as int));
                assert(bind_values(before.ingoing, before.node.arg_order, bound.take(i as int)).len() == before.ingoing.len()) by {
                    lemma_bind_values_len(before.ingoing, before.node.arg_order, bound.take(i as int));
                }
            }
            entry.ingoing.0.set(target, data[i].clone());
            i = i + 1;
            proof {
                assert(values(entry.ingoing.0@) =~= bind_values(before.ingoing, before.node.arg_order, bound.take(i as int)));
            }
        }
        proof {
            assert(bound.take(data.len() as int) =~= bound);
        }
        let _ = table_insert(&mut self.nodes, node.0, entry);
        proof {
            assert(node_table(self.nodes) =~= old(self)@.insert(
                node@,
                PatchEntryView {
                    ingoing: bind_values(old(self)@[node@].ingoing, old(self)@[node@].node.arg_order, values(data@)),
                    ..old(self)@[node@]
                },
            ));
        }
    }

    /// Binds `data` to one inlet of a node.
    pub fn bind_data_inlet<const IN: usize, const OUT: usize>(&mut self, node: Inlet<IN, OUT>, data: Data)
        requires
            old(self)@.dom().contains(node.node_name()),
            node.position() < old(self)@[node.node_name()].ingoing.len(),
        ensures
            final(self)@ == old(self)@.insert(
                node.node_name(),
                PatchEntryView {
                    ingoing: old(self)@[node.node_name()].ingoing.update(node.position() as int, data@),
                    ..old(self)@[node.node_name()]
                },
            ),
    {
        let ghost dv = data@;
        let mut entry = table_remove(&mut self.nodes, &node.node.0).unwrap();
        let ghost before = entry@;
        entry.ingoing.0.set(node.index, data);
        proof {
            assert(values(entry.ingoing.0@) =~= before.ingoing.update(node.position() as int, dv));
        }
        let _ = table_insert(&mut self.nodes, node.node.0, entry);
        proof {
            assert(node_table(self.nodes) =~= old(self)@.insert(
                node.node_name(),
                PatchEntryView {
                    ingoing: old(self)@[node.node_name()].ingoing.update(node.position() as int, dv),
                    ..old(self)@[node.node_name()]
                },
            ));
        }
    }

    /// Sets the data the node is spawned with.
    pub fn bind_internal<const IN: usize, const OUT: usize>(&mut self, node: &NodeRef<IN, OUT>, internal: Vec<Data>)
        requires
            old(self)@.dom().contains(node@),
        ensures
            final(self)@ == old(self)@.insert(
                node@,
                PatchEntryView {
                    node: PatchNodeView { internal_data: values(internal@), ..old(self)@[node@].node },
                    ..old(self)@[node@]
                },
            ),
    {
        let ghost iv = values(internal@);
        let mut entry = table_remove(&mut self.nodes, &node.0).unwrap();
        entry.node.internal_data = internal;
        let key = node.0.clone();
        let _ = table_insert(&mut self.nodes, key, entry);
        proof {
            assert(node_table(self.nodes) =~= old(self)@.insert(
                node@,
                PatchEntryView {
                    node: PatchNodeView { internal_data: iv, ..old(self)@[node@].node },
                    ..old(self)@[node@]
                },
            ));
        }
    }
}

/// Binding values keeps the number of inlets.
pub proof fn lemma_bind_values_len(ingoing: Seq<DataView>, order: Seq<usize>, data: Seq<DataView>)
    requires
        data.len() <= order.len(),
        forall|i: int| 0 <= i < data.len() ==> #[trigger] order[i] < ingoing.len(),
    ensures
        bind_values(ingoing, order, data).len() == ingoing.len(),
    decreases data.len(),
{
    if data.len() > 0 {
        lemma_bind_values_len(ingoing, order, data.drop_last());
    }
}


impl<'a, const IN: usize, const OUT: usize> NodeCommands<'a, IN, OUT> {
    /// Sets the keys that activate the node (see [`Patch::bind_input`]).
    pub fn with_input(&mut self, input: Input) -> (r: &mut Self)
        requires
            old(self).patch@.dom().contains(old(self).node_ref@),
        ensures
            r.node_ref@ == old(self).node_ref@,
            r.patch@ == old(self).patch@.insert(
                old(self).node_ref@,
                PatchEntryView {
                    node: PatchNodeView { input: Some(input@), ..old(self).patch@[old(self).node_ref@].node },
                    ..old(self).patch@[old(self).node_ref@]
                },
            ),
            *final(self) == *final(r),
    {
        let node = self.node_ref.clone();
        self.patch.bind_input(node, input);
        self
    }

    /// Sets the keys that activate the node when there are any; otherwise
    /// leaves the node as it is.
    pub fn with_input_maybe(&mut self, input: Option<Input>) -> (r: &mut Self)
        requires
            old(self).patch@.dom().contains(old(self).node_ref@),
        ensures
            r.node_ref@ == old(self).node_ref@,
            r.patch@ == (match input {
                Some(i) => old(self).patch@.insert(
                    old(self).node_ref@,
                    PatchEntryView {
                        node: PatchNodeView { input: Some(i@), ..old(self).patch@[old(self).node_ref@].node },
                        ..old(self).patch@[old(self).node_ref@]
                    },
                ),
                None => old(self).patch@,
            }),
            *final(self) == *final(r),
    {
        match input {
            Some(i) => {
                let node = self.node_ref.clone();
                self.patch.bind_input(node, i);
                self
            },
            None => self,
        }
    }

    /// Binds values to the node's inlets in argument order (see [`Patch::bind_data`]).
    pub fn with_data(&mut self, data: Vec<Data>) -> (r: &mut Self)
        requires
            data.len() <= IN,
            old(self).patch@.dom().contains(old(self).node_ref@),
            data.len() <= old(self).patch@[old(self).node_ref@].node.arg_order.len(),
            forall|i: int| 0 <= i < data.len() ==> #[trigger] old(self).patch@[old(self).node_ref@].node.arg_order[i]
                < old(self).patch@[old(self).node_ref@].ingoing.len(),
        ensures
            r.node_ref@ == old(self).node_ref@,
            r.patch@ == old(self).patch@.insert(
                old(self).node_ref@,
                PatchEntryView {
                    ingoing: bind_values(
                        old(self).patch@[old(self).node_ref@].ingoing,
                        old(self).patch@[old(self).node_ref@].node.arg_order,
                        values(data@),
                    ),
                    ..old(self).patch@[old(self).node_ref@]
                },
            ),
            *final(self) == *final(r),
    {
        let node = self.node_ref.clone();
        self.patch.bind_data(node, data);
        self
    }

    /// Sets the data the node is spawned with (see [`Patch::bind_internal`]).
    pub fn containing(&mut self, data: Vec<Data>) -> (r: &mut Self)
        requires
            old(self).patch@.dom().contains(old(self).node_ref@),
        ensures
            r.node_ref@ == old(self).node_ref@,
            r.patch@ == old(self).patch@.insert(
                old(self).node_ref@,
                PatchEntryView {
                    node: PatchNodeView { internal_data: values(data@), ..old(self).patch@[old(self).node_ref@].node },
                    ..old(self).patch@[old(self).node_ref@]
                },
            ),
            *final(self) == *final(r),
    {
        self.patch.bind_internal(&self.node_ref, data);
        self
    }
}


/// A binding held down (`|`) fires exactly when it has keys and every one of
/// them, the last included, is held.
pub proof fn law_held_binding_needs_every_key(i: InputView, held: Set<Seq<char>>, pressed: Set<Seq<char>>)
    requires
        !i.once,
    ensures
        input_fires(i, held, pressed) <==> (i.keys.len() > 0 && forall|k: Seq<char>| #[trigger] i.keys.contains(k) ==> held.contains(k)),
{
    if i.keys.len() > 0 {
        if forall|k: Seq<char>| #[trigger] i.keys.contains(k) ==> held.contains(k) {
            assert forall|j: int| 0 <= j < i.keys.len() implies held.contains(#[trigger] i.keys[j]) by {
                assert(i.keys.contains(i.keys[j]));
            }
        }
        if input_fires(i, held, pressed) {
            assert forall|k: Seq<char>| #[trigger] i.keys.contains(k) implies held.contains(k) by {
                let j = choose|j: int| 0 <= j < i.keys.len() && i.keys[j] == k;
                assert(held.contains(i.keys[j]));
            }
        }
    }
}

/// A binding on a just pressed key (`#`) fires only when its last key was
/// just pressed and every key before it is held; one with no key never fires.
pub proof fn law_pressed_binding_needs_last_key(i: InputView, held: Set<Seq<char>>, pressed: Set<Seq<char>>)
    requires
        i.once,
        input_fires(i, held, pressed),
    ensures
        i.keys.len() > 0,
        pressed.contains(i.keys[i.keys.len() - 1]),
        forall|j: int| 0 <= j < i.keys.len() - 1 ==> held.contains(#[trigger] i.keys[j]),
{
}
} // verus!

use vstd::prelude::*;
use bevy::platform::collections::HashMap;
use crate::data::{Data, assign_spec};
use crate::patch::{links_view, outgoing_view};

verus! {

/// The running entities that stand for a node of the loaded patch: the node,
/// its inlets and outlets in order, and the signal connections made from it
/// (target node, outlet, target inlet). Entities are named by their bits.
pub struct MappedNode {
    pub entity: u64,
    pub inlets: Vec<u64>,
    pub outlets: Vec<u64>,
    pub signals: Vec<(u64, usize, usize)>,
}

pub struct MappedNodeView {
    pub entity: u64,
    pub inlets: Seq<u64>,
    pub outlets: Seq<u64>,
    pub signals: Seq<(u64, usize, usize)>,
}

impl View for MappedNode {
    type V = MappedNodeView;

    open spec fn view(&self) -> MappedNodeView {
        MappedNodeView { entity: self.entity, inlets: self.inlets@, outlets: self.outlets@, signals: self.signals@ }
    }
}

/// What a map of mapped nodes holds, by node name.
pub uninterp spec fn mapped_table(m: HashMap<String, MappedNode>) -> Map<Seq<char>, MappedNodeView>;

/// `HashMap::new`: an empty map.
#[verifier::external_body]
fn mapped_new() -> (table: HashMap<String, MappedNode>)
    ensures
        mapped_table(table).dom() == Set::<Seq<char>>::empty(),
{
    HashMap::new()
}

/// `HashMap::get`: the entry under `key`, if there is one.
#[verifier::external_body]
fn mapped_get<'a>(table: &'a HashMap<String, MappedNode>, key: &String) -> (entry: Option<&'a MappedNode>)
    ensures
        entry is Some <==> mapped_table(*table).dom().contains(key@),
        entry matches Some(e) ==> e@ == mapped_table(*table)[key@],
{
    table.get(key)
}

/// `HashMap::insert`: puts `value` under `key`, handing back what was there.
#[verifier::external_body]
fn mapped_insert(table: &mut HashMap<String, MappedNode>, key: String, value: MappedNode) -> (previous: Option<MappedNode>)
    ensures
        mapped_table(*final(table)) == mapped_table(*old(table)).insert(key@, value@),
        previous is Some <==> mapped_table(*old(table)).dom().contains(key@),
        previous matches Some(e) ==> e@ == mapped_table(*old(table))[key@],
{
    table.insert(key, value)
}

/// `HashMap::remove`: takes the entry under `key` out, if there is one.
#[verifier::external_body]
fn mapped_remove(table: &mut HashMap<String, MappedNode>, key: &String) -> (removed: Option<MappedNode>)
    ensures
        mapped_table(*final(table)) == mapped_table(*old(table)).remove(key@),
        removed is Some <==> mapped_table(*old(table)).dom().contains(key@),
        removed matches Some(e) ==> e@ == mapped_table(*old(table))[key@],
{
    table.remove(key)
}

/// The running entities of every node of the loaded patch, by node name.
pub struct PatchMap {
    pub(crate) nodes: HashMap<String, MappedNode>,
}

impl View for PatchMap {
    type V = Map<Seq<char>, MappedNodeView>;

    closed spec fn view(&self) -> Map<Seq<char>, MappedNodeView> {
        mapped_table(self.nodes)
    }
}

impl Default for PatchMap {
    /// No node mapped.
    fn default() -> (r: PatchMap)
        ensures
            r@.dom() == Set::<Seq<char>>::empty(),
    {
        PatchMap { nodes: mapped_new() }
    }
}

/// Writes the values a patch binds to a node's inlets into the values those
/// inlets hold, by assignment: a bound empty value or bang does not erase
/// what an inlet holds.
pub fn refresh_inlet_values(current: &mut Vec<Data>, bound: &Vec<Data>)
    requires
        bound.len() <= old(current).len(),
    ensures
        final(current).len() == old(current).len(),
        forall|i: int| 0 <= i < final(current).len() ==> (#[trigger] final(current)@[i])@ == (if i < bound.len() {
            assign_spec(old(current)@[i]@, bound@[i]@)
        } else {
            old(current)@[i]@
        }),
{
    let mut i: usize = 0;
    while i < bound.len()
        invariant
            0 <= i <= bound.len(),
            bound.len() <= current.len(),
            current.len() == old(current).len(),
            forall|j: int| 0 <= j < current.len() ==> (#[trigger] current@[j])@ == (if j < i {
                assign_spec(old(current)@[j]@, bound@[j]@)
            } else {
                old(current)@[j]@
            }),
        decreases bound.len() - i,
    {
        let mut d = current[i].clone();
        d.assign(bound[i].clone());
        current.set(i, d);
        i = i + 1;
    }
}


/// The entities the links lead to: for each outlet, for each inlet it feeds,
/// that inlet's entity.
pub open spec fn resolved(map: Map<Seq<char>, MappedNodeView>, outgoing: Seq<Seq<(Seq<char>, usize)>>) -> Seq<Seq<u64>> {
    outgoing.map_values(|l: Seq<(Seq<char>, usize)>| l.map_values(|p: (Seq<char>, usize)| map[p.0].inlets[p.1 as int]))
}

/// Every link leads to a mapped node and to one of its inlets.
pub open spec fn links_resolve(map: Map<Seq<char>, MappedNodeView>, outgoing: Seq<Seq<(Seq<char>, usize)>>) -> bool {
    forall|o: int, j: int| 0 <= o < outgoing.len() && 0 <= j < outgoing[o].len() ==> {
        &&& map.dom().contains((#[trigger] outgoing[o][j]).0)
        &&& outgoing[o][j].1 < map[outgoing[o][j].0].inlets.len()
    }
}

/// The signal connections the links ask for, outlet by outlet: the target
/// node's entity, the outlet, the target inlet.
pub open spec fn signal_links(map: Map<Seq<char>, MappedNodeView>, signals: Seq<Seq<(Seq<char>, usize)>>) -> Seq<(u64, usize, usize)>
    decreases signals.len(),
{
    if signals.len() == 0 {
        Seq::empty()
    } else {
        let o = (signals.len() - 1) as usize;
        signal_links(map, signals.drop_last()) + signals.last().map_values(|p: (Seq<char>, usize)| (map[p.0].entity, o, p.1))
    }
}

/// Every signal link leads to a mapped node.
pub open spec fn signals_resolve(map: Map<Seq<char>, MappedNodeView>, signals: Seq<Seq<(Seq<char>, usize)>>) -> bool {
    forall|o: int, j: int| 0 <= o < signals.len() && 0 <= j < signals[o].len() ==> map.dom().contains((#[trigger] signals[o][j]).0)
}

impl PatchMap {
    /// The entities of the node called `name`, if it is mapped.
    pub fn entry(&self, name: &String) -> (r: Option<&MappedNode>)
        ensures
            r is Some <==> self@.dom().contains(name@),
            r matches Some(e) ==> e@ == self@[name@],
    {
        mapped_get(&self.nodes, name)
    }

    /// Records a node just spawned with its inlets and outlets, and no signal
    /// connection yet.
    pub fn record_spawn(&mut self, name: String, entity: u64, inlets: Vec<u64>, outlets: Vec<u64>)
        ensures
            final(self)@ == old(self)@.insert(
                name@,
                MappedNodeView { entity, inlets: inlets@, outlets: outlets@, signals: Seq::empty() },
            ),
    {
        let ghost iv = inlets@;
        let ghost ov = outlets@;
        let _ = mapped_insert(&mut self.nodes, name, MappedNode { entity, inlets, outlets, signals: Vec::new() });
        proof {
            assert(mapped_table(self.nodes) =~= old(self)@.insert(
                name@,
                MappedNodeView { entity, inlets: iv, outlets: ov, signals: Seq::empty() },
            ));
        }
    }

    /// Forgets a node, handing back the entities to despawn: the node, then
    /// its inlets, then its outlets.
    pub fn forget(&mut self, name: &String) -> (r: Vec<u64>)
        requires
            old(self)@.dom().contains(name@),
        ensures
            final(self)@ == old(self)@.remove(name@),
            r@ == seq![old(self)@[name@].entity] + old(self)@[name@].inlets + old(self)@[name@].outlets,
    {
        let node = mapped_remove(&mut self.nodes, name).unwrap();
        let mut r: Vec<u64> = vec![node.entity];
        let mut i: usize = 0;
        while i < node.inlets.len()
            invariant
                0 <= i <= node.inlets.len(),
                r@ == seq![node.entity] + node.inlets@.take(i as int),
            decreases node.inlets.len() - i,
        {
            r.push(node.inlets[i]);
            i = i + 1;
            proof {
                assert(r@ =~= seq![node.entity] + node.inlets@.take(i as int));
            }
        }
        proof {
            assert(node.inlets@.take(node.inlets.len() as int) =~= node.inlets@);
        }
        let mut j: usize = 0;
        while j < node.outlets.len()
            invariant
                0 <= j <= node.outlets.len(),
                r@ == seq![node.entity] + node.inlets@ + node.outlets@.take(j as int),
            decreases node.outlets.len() - j,
        {
            r.push(node.outlets[j]);
            j = j + 1;
            proof {
                assert(r@ =~= seq![node.entity] + node.inlets@ + node.outlets@.take(j as int));
            }
        }
        proof {
            assert(node.outlets@.take(node.outlets.len() as int) =~= node.outlets@);
        }
        r
    }

    /// Appends inlets just spawned to a node's inlets.
    pub fn add_inlets(&mut self, name: &String, added: Vec<u64>)
        requires
            old(self)@.dom().contains(name@),
        ensures
            final(self)@ == old(self)@.insert(
                name@,
                MappedNodeView { inlets: old(self)@[name@].inlets + added@, ..old(self)@[name@] },
            ),
    {
        let mut node = mapped_remove(&mut self.nodes, name).unwrap();
        let ghost before = node@;
        let mut i: usize = 0;
        while i < added.len()
            invariant
                0 <= i <= added.len(),
                node@ == (MappedNodeView { inlets: before.inlets + added@.take(i as int), ..before }),
            decreases added.len() - i,
        {
            node.inlets.push(added[i]);
            i = i + 1;
            proof {
                assert(node.inlets@ =~= before.inlets + added@.take(i as int));
            }
        }
        proof {
            assert(added@.take(added.len() as int) =~= added@);
        }
        let _ = mapped_insert(&mut self.nodes, name.clone(), node);
    }

    /// Appends outlets just spawned to a node's outlets.
    pub fn add_outlets(&mut self, name: &String, added: Vec<u64>)
        requires
            old(self)@.dom().contains(name@),
        ensures
            final(self)@ == old(self)@.insert(
                name@,
                MappedNodeView { outlets: old(self)@[name@].outlets + added@, ..old(self)@[name@] },
            ),
    {
        let mut node = mapped_remove(&mut self.nodes, name).unwrap();
        let ghost before = node@;
        let mut i: usize = 0;
        while i < added.len()
            invariant
                0 <= i <= added.len(),
                node@ == (MappedNodeView { outlets: before.outlets + added@.take(i as int), ..before }),
            decreases added.len() - i,
        {
            node.outlets.push(added[i]);
            i = i + 1;
            proof {
                assert(node.outlets@ =~= before.outlets + added@.take(i as int));
            }
        }
        proof {
            assert(added@.take(added.len() as int) =~= added@);
        }
        let _ = mapped_insert(&mut self.nodes, name.clone(), node);
    }

    /// Takes a node's last `count` inlets off, handing them back last first.
    pub fn remove_inlets(&mut self, name: &String, count: usize) -> (r: Vec<u64>)
        requires
            old(self)@.dom().contains(name@),
            count <= old(self)@[name@].inlets.len(),
        ensures
            final(self)@ == old(self)@.insert(
                name@,
                MappedNodeView {
                    inlets: old(self)@[name@].inlets.take(old(self)@[name@].inlets.len() - count),
                    ..old(self)@[name@]
                },
            ),
            r@ == old(self)@[name@].inlets.skip(old(self)@[name@].inlets.len() - count).reverse(),
    {
        let mut node = mapped_remove(&mut self.nodes, name).unwrap();
        let ghost before = node@;
        let n = node.inlets.len();
        let mut r: Vec<u64> = Vec::new();
        proof {
            assert(before.inlets.take(n as int) =~= before.inlets);
            assert(before.inlets.skip(n as int).reverse() =~= r@);
        }
        let mut i: usize = 0;
        while i < count
            invariant
                0 <= i <= count,
                count <= n,
                n == before.inlets.len(),
                node@ == (MappedNodeView { inlets: before.inlets.take(n - i), ..before }),
                r@ == before.inlets.skip(n - i).reverse(),
            decreases count - i,
        {
            let x = node.inlets.pop().unwrap();
            r.push(x);
            i = i + 1;
            proof {
                assert(node.inlets@ =~= before.inlets.take(n - i));
                assert(r@ =~= before.inlets.skip(n - i).reverse());
            }
        }
        let _ = mapped_insert(&mut self.nodes, name.clone(), node);
        r
    }

    /// Takes a node's last `count` outlets off, handing them back last first.
    pub fn remove_outlets(&mut self, name: &String, count: usize) -> (r: Vec<u64>)
        requires
            old(self)@.dom().contains(name@),
            count <= old(self)@[name@].outlets.len(),
        ensures
            final(self)@ == old(self)@.insert(
                name@,
                MappedNodeView {
                    outlets: old(self)@[name@].outlets.take(old(self)@[name@].outlets.len() - count),
                    ..old(self)@[name@]
                },
            ),
            r@ == old(self)@[name@].outlets.skip(old(self)@[name@].outlets.len() - count).reverse(),
    {
        let mut node = mapped_remove(&mut self.nodes, name).unwrap();
        let ghost before = node@;
        let n = node.outlets.len();
        let mut r: Vec<u64> = Vec::new();
        proof {
            assert(before.outlets.take(n as int) =~= before.outlets);
            assert(before.outlets.skip(n as int).reverse() =~= r@);
        }
        let mut i: usize = 0;
        while i < count
            invariant
                0 <= i <= count,
                count <= n,
                n == before.outlets.len(),
                node@ == (MappedNodeView { outlets: before.outlets.take(n - i), ..before }),
                r@ == before.outlets.skip(n - i).reverse(),
            decreases count - i,
        {
            let x = node.outlets.pop().unwrap();
            r.push(x);
            i = i + 1;
            proof {
                assert(node.outlets@ =~= before.outlets.take(n - i));
                assert(r@ =~= before.outlets.skip(n - i).reverse());
            }
        }
        let _ = mapped_insert(&mut self.nodes, name.clone(), node);
        r
    }
}


/// A copy of a list of signal connections.
fn copy_signals(v: &Vec<(u64, usize, usize)>) -> (r: Vec<(u64, usize, usize)>)
    ensures
        r@ == v@,
{
    let mut r: Vec<(u64, usize, usize)> = Vec::new();
    let mut i: usize = 0;
    while i < v.len()
        invariant
            0 <= i <= v.len(),
            r@ == v@.take(i as int),
        decreases v.len() - i,
    {
        let (a, b, c) = v[i];
        r.push((a, b, c));
        i = i + 1;
        proof {
            assert(r@ =~= v@.take(i as int));
        }
    }
    proof {
        assert(v@.take(v.len() as int) =~= v@);
    }
    r
}

impl PatchMap {
    /// The inlet entities each outlet of a node feeds, from the node's links
    /// in the patch.
    pub fn resolve_outlets(&self, outgoing: &Vec<Vec<(String, usize)>>) -> (r: Vec<Vec<u64>>)
        requires
            links_resolve(self@, outgoing_view(outgoing@)),
        ensures
            r@.map_values(|v: Vec<u64>| v@) == resolved(self@, outgoing_view(outgoing@)),
    {
        let ghost ov = outgoing_view(outgoing@);
        let mut r: Vec<Vec<u64>> = Vec::new();
        let mut o: usize = 0;
        while o < outgoing.len()
            invariant
                0 <= o <= outgoing.len(),
                ov == outgoing_view(outgoing@),
                links_resolve(self@, ov),
                r@.len() == o,
                forall|a: int| 0 <= a < o ==> (#[trigger] r@[a])@ == resolved(self@, ov)[a],
            decreases outgoing.len() - o,
        {
            let links = &outgoing[o];
            let mut ids: Vec<u64> = Vec::new();
            let mut j: usize = 0;
            while j < links.len()
                invariant
                    0 <= j <= links.len(),
                    o < outgoing.len(),
                    links == outgoing@[o as int],
                    ov == outgoing_view(outgoing@),
                    links_resolve(self@, ov),
                    ids@.len() == j,
                    forall|b: int| 0 <= b < j ==> #[trigger] ids@[b] == self@[ov[o as int][b].0].inlets[ov[o as int][b].1 as int],
                decreases links.len() - j,
            {
                proof {
                    assert(ov[o as int] == links_view(links@));
                    assert(ov[o as int][j as int] == (links@[j as int].0@, links@[j as int].1));
                    assert(self@.dom().contains(ov[o as int][j as int].0));
                }
                let target = mapped_get(&self.nodes, &links[j].0).unwrap();
                let index = links[j].1;
                ids.push(target.inlets[index]);
                j = j + 1;
            }
            proof {
                assert(ids@ =~= resolved(self@, ov)[o as int]);
            }
            r.push(ids);
            o = o + 1;
        }
        proof {
            assert(r@.map_values(|v: Vec<u64>| v@) =~= resolved(self@, ov));
        }
        r
    }

    /// Replaces a node's signal connections by those its links in the patch
    /// ask for: hands back the connections to undo and the ones to make.
    pub fn rewire_signals(&mut self, name: &String, signals: &Vec<Vec<(String, usize)>>) -> (r: (Vec<(u64, usize, usize)>, Vec<(u64, usize, usize)>))
        requires
            old(self)@.dom().contains(name@),
            signals_resolve(old(self)@, outgoing_view(signals@)),
        ensures
            r.0@ == old(self)@[name@].signals,
            r.1@ == signal_links(old(self)@, outgoing_view(signals@)),
            final(self)@ == old(self)@.insert(
                name@,
                MappedNodeView { signals: signal_links(old(self)@, outgoing_view(signals@)), ..old(self)@[name@] },
            ),
    {
        let ghost sv = outgoing_view(signals@);
        let mut made: Vec<(u64, usize, usize)> = Vec::new();
        let mut o: usize = 0;
        while o < signals.len()
            invariant
                0 <= o <= signals.len(),
                sv == outgoing_view(signals@),
                signals_resolve(self@, sv),
                made@ == signal_links(self@, sv.take(o as int)),
            decreases signals.len() - o,
        {
            let links = &signals[o];
            let ghost base = made@;
            let mut j: usize = 0;
            while j < links.len()
                invariant
                    0 <= j <= links.len(),
                    o < signals.len(),
                    links == signals@[o as int],
                    sv == outgoing_view(signals@),
                    signals_resolve(self@, sv),
                    made@ == base + sv[o as int].take(j as int).map_values(|p: (Seq<char>, usize)| (self@[p.0].entity, o, p.1)),
                decreases links.len() - j,
            {
                proof {
                    assert(sv[o as int] == links_view(links@));
                    assert(sv[o as int][j as int] == (links@[j as int].0@, links@[j as int].1));
                    assert(self@.dom().contains(sv[o as int][j as int].0));
                }
                let target = mapped_get(&self.nodes, &links[j].0).unwrap();
                made.push((target.entity, o, links[j].1));
                j = j + 1;
                proof {
                    assert(made@ =~= base + sv[o as int].take(j as int).map_values(|p: (Seq<char>, usize)| (self@[p.0].entity, o, p.1)));
                }
            }
            proof {
                assert(sv[o as int].take(links.len() as int) =~= sv[o as int]);
                assert(sv.take(o + 1).drop_last() =~= sv.take(o as int));
                assert(sv.take(o + 1).last() == sv[o as int]);
                assert(made@ =~= signal_links(self@, sv.take(o + 1)));
            }
            o = o + 1;
        }
        proof {
            assert(sv.take(signals.len() as int) =~= sv);
        }
        let node = mapped_remove(&mut self.nodes, name).unwrap();
        let undone = node.signals;
        let ghost made_view = made@;
        let kept = copy_signals(&made);
        let _ = mapped_insert(
            &mut self.nodes,
            name.clone(),
            MappedNode { entity: node.entity, inlets: node.inlets, outlets: node.outlets, signals: kept },
        );
        proof {
            assert(mapped_table(self.nodes) =~= old(self)@.insert(
                name@,
                MappedNodeView { signals: made_view, ..old(self)@[name@] },
            ));
        }
        (undone, made)
    }
}


/// Removing as many inlets as were just added gives the node its inlets back,
/// and hands out the added ones, last first.
pub proof fn law_remove_inlets_undoes_add(map: Map<Seq<char>, MappedNodeView>, name: Seq<char>, added: Seq<u64>)
    requires
        map.dom().contains(name),
    ensures
        ({
            let grown = map.insert(name, MappedNodeView { inlets: map[name].inlets + added, ..map[name] });
            &&& grown.insert(
                name,
                MappedNodeView {
                    inlets: grown[name].inlets.take(grown[name].inlets.len() - added.len()),
                    ..grown[name]
                },
            ) == map
            &&& grown[name].inlets.skip(grown[name].inlets.len() - added.len()).reverse() == added.reverse()
        }),
{
    let grown = map.insert(name, MappedNodeView { inlets: map[name].inlets + added, ..map[name] });
    assert(grown[name].inlets.take(grown[name].inlets.len() - added.len()) =~= map[name].inlets);
    assert(grown[name].inlets.skip(grown[name].inlets.len() - added.len()) =~= added);
    assert(grown.insert(
        name,
        MappedNodeView { inlets: map[name].inlets, ..grown[name] },
    ) =~= map);
}

/// Removing as many outlets as were just added gives the node its outlets
/// back, and hands out the added ones, last first.
pub proof fn law_remove_outlets_undoes_add(map: Map<Seq<char>, MappedNodeView>, name: Seq<char>, added: Seq<u64>)
    requires
        map.dom().contains(name),
    ensures
        ({
            let grown = map.insert(name, MappedNodeView { outlets: map[name].outlets + added, ..map[name] });
            &&& grown.insert(
                name,
                MappedNodeView {
                    outlets: grown[name].outlets.take(grown[name].outlets.len() - added.len()),
                    ..grown[name]
                },
            ) == map
            &&& grown[name].outlets.skip(grown[name].outlets.len() - added.len()).reverse() == added.reverse()
        }),
{
    let grown = map.insert(name, MappedNodeView { outlets: map[name].outlets + added, ..map[name] });
    assert(grown[name].outlets.take(grown[name].outlets.len() - added.len()) =~= map[name].outlets);
    assert(grown[name].outlets.skip(grown[name].outlets.len() - added.len()) =~= added);
    assert(grown.insert(
        name,
        MappedNodeView { outlets: map[name].outlets, ..grown[name] },
    ) =~= map);
}

/// Forgetting a node just spawned leaves the map as it was without that name,
/// and hands out the node's entity, then its inlets, then its outlets.
pub proof fn law_forget_undoes_spawn(
    map: Map<Seq<char>, MappedNodeView>,
    name: Seq<char>,
    entity: u64,
    inlets: Seq<u64>,
    outlets: Seq<u64>,
)
    ensures
        ({
            let spawned = map.insert(name, MappedNodeView { entity, inlets, outlets, signals: Seq::empty() });
            &&& spawned.remove(name) == map.remove(name)
            &&& seq![spawned[name].entity] + spawned[name].inlets + spawned[name].outlets == seq![entity] + inlets + outlets
        }),
{
    let spawned = map.insert(name, MappedNodeView { entity, inlets, outlets, signals: Seq::empty() });
    assert(spawned.remove(name) =~= map.remove(name));
}

} // verus!

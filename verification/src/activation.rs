use vstd::prelude::*;
use crate::data::{Data, DataView, assign_spec, values};

verus! {

/// How many activations may follow one another from one outside activation.
pub const RECURSION_LIMIT: usize = 5000;

/// Whether, among outlets ranked by `keys`, outlet `a` comes before outlet `b`:
/// a smaller key first, and on equal keys the outlet that comes first.
pub open spec fn ranks_before(keys: Seq<usize>, a: int, b: int) -> bool {
    keys[a] < keys[b] || (keys[a] == keys[b] && a < b)
}

/// `order` lists every position of `keys` once, sorted by key, positions with
/// equal keys keeping their relative order.
pub open spec fn is_stable_order(keys: Seq<usize>, order: Seq<usize>) -> bool {
    &&& order.len() == keys.len()
    &&& forall|i: int| 0 <= i < order.len() ==> #[trigger] order[i] < keys.len()
    &&& forall|i: int, j: int| 0 <= i < j < order.len() ==> ranks_before(keys, #[trigger] order[i] as int, #[trigger] order[j] as int)
    &&& forall|k: int| 0 <= k < keys.len() ==> #[trigger] order.contains(k as usize)
}

/// The positions of `keys` sorted by key, positions with equal keys keeping
/// their relative order.
pub fn stable_order(keys: &Vec<usize>) -> (order: Vec<usize>)
    ensures
        is_stable_order(keys@, order@),
{
    let n = keys.len();
    let mut order: Vec<usize> = Vec::new();
    let mut i: usize = 0;
    while i < n
        invariant
            0 <= i <= n,
            n == keys.len(),
            order.len() == i,
            forall|a: int| 0 <= a < order.len() ==> #[trigger] order@[a] < i,
            forall|a: int, b: int| 0 <= a < b < order.len() ==> ranks_before(keys@, #[trigger] order@[a] as int, #[trigger] order@[b] as int),
            forall|k: int| 0 <= k < i ==> #[trigger] order@.contains(k as usize),
        decreases n - i,
    {
        let mut pos: usize = order.len();
        let mut k: usize = 0;
        while k < order.len()
            invariant_except_break
                pos == order.len(),
            invariant
                0 <= k <= order.len(),
                i < n,
                n == keys.len(),
                forall|a: int| 0 <= a < order.len() ==> #[trigger] order@[a] < i,
                forall|a: int| 0 <= a < k ==> keys@[#[trigger] order@[a] as int] <= keys@[i as int],
            ensures
                pos <= order.len(),
                forall|a: int| 0 <= a < pos ==> keys@[#[trigger] order@[a] as int] <= keys@[i as int],
                pos < order.len() ==> keys@[i as int] < keys@[order@[pos as int] as int],
            decreases order.len() - k,
        {
            if keys[i] < keys[order[k]] {
                pos = k;
                break;
            }
            k = k + 1;
        }
        let ghost before = order@;
        order.insert(pos, i);
        proof {
            assert forall|a: int, b: int| 0 <= a < b < order.len() implies ranks_before(keys@, #[trigger] order@[a] as int, #[trigger] order@[b] as int) by {
                if a < pos && b < pos {
                    assert(order@[a] == before[a] && order@[b] == before[b]);
                } else if a < pos && b == pos {
                    assert(order@[a] == before[a]);
                    assert(before[a] < i);
                } else if a < pos && b > pos {
                    assert(order@[a] == before[a] && order@[b] == before[b - 1]);
                } else if a == pos {
                    assert(order@[b] == before[b - 1]);
                    assert(ranks_before(keys@, before[pos as int] as int, before[b - 1] as int) || b - 1 == pos);
                    assert(keys@[i as int] < keys@[before[pos as int] as int]);
                } else {
                    assert(order@[a] == before[a - 1] && order@[b] == before[b - 1]);
                }
            }
            assert forall|m: int| 0 <= m < i + 1 implies #[trigger] order@.contains(m as usize) by {
                if m == i {
                    assert(order@[pos as int] == i);
                } else {
                    assert(before.contains(m as usize));
                    let w = choose|w: int| 0 <= w < before.len() && before[w] == m as usize;
                    if w < pos {
                        assert(order@[w] == m as usize);
                    } else {
                        assert(order@[w + 1] == m as usize);
                    }
                }
            }
        }
        i = i + 1;
    }
    order
}


/// Whether an inlet activates its node when it receives a value.
#[derive(Clone, Copy, Debug, PartialEq, Eq, Structural)]
pub enum InletType {
    Hot,
    Cold,
}

impl Default for InletType {
    /// An inlet is cold unless it is made hot.
    fn default() -> (r: InletType)
        ensures
            r == InletType::Cold,
    {
        InletType::Cold
    }
}

/// The kind of a node's inlet `i`: the first inlet is hot, the others cold.
pub fn inlet_type_for(i: usize) -> (r: InletType)
    ensures
        r == (if i == 0 { InletType::Hot } else { InletType::Cold }),
{
    if i == 0 {
        InletType::Hot
    } else {
        InletType::Cold
    }
}

/// What is known of an inlet besides the value it holds: the node it belongs
/// to, its kind, and every inlet of that node (itself included) in order.
pub struct InletInfo {
    pub node: u64,
    pub kind: InletType,
    pub siblings: Vec<usize>,
}

/// A node activation that propagation asks for: the node, the values of its
/// inlets, and how many activations led to it.
pub struct Activation {
    pub node: u64,
    pub inputs: Vec<Data>,
    pub recursion: usize,
}

/// The inputs a node processes: `source[i]` at each inlet `i` that `source`
/// reaches, empty values at the others.
pub open spec fn padded(source: Seq<DataView>, n: nat) -> Seq<DataView> {
    Seq::new(n, |i: int| if i < source.len() { source[i] } else { DataView::Nothing })
}

/// Gathers the inputs of a node with `n_in` inlets: the values handed along
/// with its activation when there are any, otherwise the values its inlets hold.
pub fn gather_inputs(
    n_in: usize,
    cached: &Option<Vec<Data>>,
    node_inlets: &Vec<usize>,
    datas: &Vec<Data>,
) -> (inputs: Vec<Data>)
    requires
        cached matches Some(c) ==> c.len() <= n_in,
        cached is None ==> node_inlets.len() <= n_in,
        cached is None ==> forall|i: int| 0 <= i < node_inlets.len() ==> #[trigger] node_inlets@[i] < datas.len(),
    ensures
        values(inputs@) == padded(
            match cached {
                Some(c) => values(c@),
                None => node_inlets@.map_values(|x: usize| datas@[x as int]@),
            },
            n_in as nat,
        ),
{
    let ghost source = match cached {
        Some(c) => values(c@),
        None => node_inlets@.map_values(|x: usize| datas@[x as int]@),
    };
    let src_len: usize = match cached {
        Some(c) => c.len(),
        None => node_inlets.len(),
    };
    let mut inputs: Vec<Data> = Vec::new();
    let mut i: usize = 0;
    while i < n_in
        invariant
            0 <= i <= n_in,
            src_len == source.len(),
            src_len <= n_in,
            source == (match cached {
                Some(c) => values(c@),
                None => node_inlets@.map_values(|x: usize| datas@[x as int]@),
            }),
            cached is None ==> forall|j: int| 0 <= j < node_inlets.len() ==> #[trigger] node_inlets@[j] < datas.len(),
            inputs.len() == i,
            forall|j: int| 0 <= j < i ==> #[trigger] inputs@[j]@ == (if j < source.len() { source[j] } else { DataView::Nothing }),
        decreases n_in - i,
    {
        if i < src_len {
            match cached {
                Some(c) => inputs.push(c[i].clone()),
                None => inputs.push(datas[node_inlets[i]].clone()),
            }
        } else {
            inputs.push(Data::Nothing);
        }
        i = i + 1;
    }
    proof {
        assert(values(inputs@) =~= padded(source, n_in as nat));
    }
    inputs
}

/// The deliveries made by the first `m` outlets in rank order: for each, the
/// output index and the inlet it goes to, outlet by outlet, each outlet's
/// connections in their order.
pub open spec fn deliveries(conns: Seq<Seq<usize>>, ranked: Seq<usize>, m: nat) -> Seq<(int, usize)>
    decreases m,
{
    if m == 0 {
        Seq::empty()
    } else {
        deliveries(conns, ranked, (m - 1) as nat) + conns[ranked[m - 1] as int].map_values(|x: usize| ((m - 1) as int, x))
    }
}

/// What the inlets hold after the deliveries `ds`: each written by assignment
/// (see [`assign_spec`]), in turn.
pub open spec fn delivered(datas: Seq<DataView>, outputs: Seq<DataView>, ds: Seq<(int, usize)>) -> Seq<DataView>
    decreases ds.len(),
{
    if ds.len() == 0 {
        datas
    } else {
        let prev = delivered(datas, outputs, ds.drop_last());
        let k = ds.last().0;
        let x = ds.last().1 as int;
        prev.update(x, assign_spec(prev[x], outputs[k]))
    }
}

/// The inlets among the deliveries `ds` that are hot, in delivery order.
pub open spec fn hot_targets(kinds: Seq<InletType>, ds: Seq<(int, usize)>) -> Seq<usize>
    decreases ds.len(),
{
    if ds.len() == 0 {
        Seq::empty()
    } else {
        let prev = hot_targets(kinds, ds.drop_last());
        if kinds[ds.last().1 as int] == InletType::Hot {
            prev.push(ds.last().1)
        } else {
            prev
        }
    }
}

/// The kinds of the inlets described by `info`.
pub open spec fn kinds(info: Seq<InletInfo>) -> Seq<InletType> {
    info.map_values(|i: InletInfo| i.kind)
}

/// Delivering keeps the number of inlets.
proof fn lemma_delivered_len(datas: Seq<DataView>, outputs: Seq<DataView>, ds: Seq<(int, usize)>)
    requires
        forall|i: int| 0 <= i < ds.len() ==> (#[trigger] ds[i]).1 < datas.len(),
    ensures
        delivered(datas, outputs, ds).len() == datas.len(),
    decreases ds.len(),
{
    if ds.len() > 0 {
        lemma_delivered_len(datas, outputs, ds.drop_last());
    }
}


/// The inlet lists of every outlet.
pub open spec fn conn_lists(conns: Seq<Vec<usize>>) -> Seq<Seq<usize>> {
    conns.map_values(|v: Vec<usize>| v@)
}

/// How many outlets are paired with a key: the shorter of the two lists.
pub open spec fn zip_len(a: nat, b: nat) -> nat {
    if a < b { a } else { b }
}

/// The first `m` keys.
fn first_keys(order: &Vec<usize>, m: usize) -> (r: Vec<usize>)
    requires
        m <= order.len(),
    ensures
        r@ == order@.take(m as int),
{
    let mut r: Vec<usize> = Vec::new();
    let mut i: usize = 0;
    while i < m
        invariant
            0 <= i <= m,
            m <= order.len(),
            r@ == order@.take(i as int),
        decreases m - i,
    {
        r.push(order[i]);
        i = i + 1;
        proof {
            assert(r@ =~= order@.take(i as int));
        }
    }
    r
}

/// Writes a node's outputs into the inlets its outlets feed. The outlets are
/// taken in the order their keys rank them (see [`stable_order`]), output `k`
/// going through the `k`-th outlet so ranked; each value is written by
/// assignment. Hands back the hot inlets written, in the order written.
pub fn deliver(
    outputs: &Vec<Data>,
    conns: &Vec<Vec<usize>>,
    order: &Vec<usize>,
    info: &Vec<InletInfo>,
    datas: &mut Vec<Data>,
) -> (hot: Vec<usize>)
    requires
        outputs.len() == order.len(),
        old(datas).len() == info.len(),
        forall|c: int, j: int| 0 <= c < conns.len() && 0 <= j < conns@[c].len() ==> #[trigger] conns@[c]@[j] < old(datas).len(),
    ensures
        final(datas).len() == old(datas).len(),
        exists|ranked: Seq<usize>|
            #[trigger] is_stable_order(order@.take(zip_len(conns@.len(), order@.len()) as int), ranked)
            && values(final(datas)@) == delivered(
                values(old(datas)@),
                values(outputs@),
                deliveries(conn_lists(conns@), ranked, zip_len(conns@.len(), order@.len())),
            ) && hot@ == hot_targets(kinds(info@), deliveries(conn_lists(conns@), ranked, zip_len(conns@.len(), order@.len()))),
{
    let m: usize = if conns.len() < order.len() { conns.len() } else { order.len() };
    let keys = first_keys(order, m);
    let ranked = stable_order(&keys);
    let ghost cl = conn_lists(conns@);
    let ghost outs = values(outputs@);
    let ghost start = values(datas@);
    let ghost ks = kinds(info@);
    let mut hot: Vec<usize> = Vec::new();
    let mut k: usize = 0;
    while k < m
        invariant
            0 <= k <= m,
            m <= conns.len(),
            m <= order.len(),
            outputs.len() == order.len(),
            ranked@.len() == m,
            is_stable_order(keys@, ranked@),
            cl == conn_lists(conns@),
            outs == values(outputs@),
            ks == kinds(info@),
            datas.len() == info.len(),
            start.len() == datas.len(),
            forall|c: int, j: int| 0 <= c < conns.len() && 0 <= j < conns@[c].len() ==> #[trigger] conns@[c]@[j] < datas.len(),
            values(datas@) == delivered(start, outs, deliveries(cl, ranked@, k as nat)),
            hot@ == hot_targets(ks, deliveries(cl, ranked@, k as nat)),
        decreases m - k,
    {
        let r = ranked[k];
        proof {
            assert(ranked@[k as int] < keys@.len());
        }
        let c = &conns[r];
        let ghost base = deliveries(cl, ranked@, k as nat);
        let mut j: usize = 0;
        while j < c.len()
            invariant
                0 <= j <= c.len(),
                k < m,
                m <= order.len(),
                outputs.len() == order.len(),
                r < conns.len(),
                c == conns@[r as int],
                cl == conn_lists(conns@),
                outs == values(outputs@),
                ks == kinds(info@),
                datas.len() == info.len(),
                start.len() == datas.len(),
                forall|c2: int, j2: int| 0 <= c2 < conns.len() && 0 <= j2 < conns@[c2].len() ==> #[trigger] conns@[c2]@[j2] < datas.len(),
                values(datas@) == delivered(start, outs, base + c@.take(j as int).map_values(|x: usize| (k as int, x))),
                hot@ == hot_targets(ks, base + c@.take(j as int).map_values(|x: usize| (k as int, x))),
            decreases c.len() - j,
        {
            let x = c[j];
            proof {
                assert(conns@[r as int]@[j as int] < datas.len());
            }
            let ghost ds = base + c@.take(j as int).map_values(|x: usize| (k as int, x));
            let ghost ds2 = base + c@.take(j + 1).map_values(|x: usize| (k as int, x));
            proof {
                assert(ds2 =~= ds.push((k as int, x)));
                assert(ds2.drop_last() =~= ds);
            }
            let mut d = datas[x].clone();
            d.assign(outputs[k].clone());
            datas.set(x, d);
            if info[x].kind == InletType::Hot {
                hot.push(x);
            }
            j = j + 1;
            proof {
                assert(values(datas@) =~= delivered(start, outs, ds2));
                assert(hot@ =~= hot_targets(ks, ds2));
            }
        }
        proof {
            assert(c@.take(c@.len() as int) =~= c@);
            assert(cl[ranked@[k as int] as int] == c@);
            assert(deliveries(cl, ranked@, (k + 1) as nat) == base + cl[ranked@[k as int] as int].map_values(|x: usize| (k as int, x)));
        }
        k = k + 1;
    }
    proof {
        assert(keys@ == order@.take(m as int));
        assert(m as nat == zip_len(conns@.len(), order@.len()));
        assert(is_stable_order(order@.take(zip_len(conns@.len(), order@.len()) as int), ranked@));
    }
    hot
}


/// The values held by the inlets `sources`.
pub open spec fn inlet_values(datas: Seq<Data>, sources: Seq<usize>) -> Seq<DataView> {
    sources.map_values(|s: usize| datas[s as int]@)
}

/// The activations that follow delivery: one for each hot inlet written, in
/// order, of the node that inlet belongs to, with the values all that node's
/// inlets now hold, one step deeper.
pub fn queued_activations(
    hot: &Vec<usize>,
    info: &Vec<InletInfo>,
    datas: &Vec<Data>,
    recursion: usize,
) -> (r: Vec<Activation>)
    requires
        recursion < RECURSION_LIMIT,
        forall|i: int| 0 <= i < hot.len() ==> #[trigger] hot@[i] < info.len(),
        forall|i: int, j: int| 0 <= i < info.len() && 0 <= j < info@[i].siblings.len() ==> #[trigger] info@[i].siblings@[j] < datas.len(),
    ensures
        r.len() == hot.len(),
        forall|i: int| 0 <= i < r.len() ==> {
            &&& (#[trigger] r@[i]).node == info@[hot@[i] as int].node
            &&& values(r@[i].inputs@) == inlet_values(datas@, info@[hot@[i] as int].siblings@)
            &&& r@[i].recursion == recursion + 1
        },
{
    let mut r: Vec<Activation> = Vec::new();
    let mut i: usize = 0;
    while i < hot.len()
        invariant
            0 <= i <= hot.len(),
            recursion < RECURSION_LIMIT,
            forall|a: int| 0 <= a < hot.len() ==> #[trigger] hot@[a] < info.len(),
            forall|a: int, j: int| 0 <= a < info.len() && 0 <= j < info@[a].siblings.len() ==> #[trigger] info@[a].siblings@[j] < datas.len(),
            r.len() == i,
            forall|a: int| 0 <= a < i ==> {
                &&& (#[trigger] r@[a]).node == info@[hot@[a] as int].node
                &&& values(r@[a].inputs@) == inlet_values(datas@, info@[hot@[a] as int].siblings@)
                &&& r@[a].recursion == recursion + 1
            },
        decreases hot.len() - i,
    {
        let t = hot[i];
        let sib = &info[t].siblings;
        let mut inputs: Vec<Data> = Vec::new();
        let mut j: usize = 0;
        while j < sib.len()
            invariant
                0 <= j <= sib.len(),
                t < info.len(),
                sib == info@[t as int].siblings,
                forall|a: int, b: int| 0 <= a < info.len() && 0 <= b < info@[a].siblings.len() ==> #[trigger] info@[a].siblings@[b] < datas.len(),
                inputs.len() == j,
                forall|b: int| 0 <= b < j ==> (#[trigger] inputs@[b])@ == datas@[sib@[b] as int]@,
            decreases sib.len() - j,
        {
            proof {
                assert(info@[t as int].siblings@[j as int] < datas.len());
            }
            inputs.push(datas[sib[j]].clone());
            j = j + 1;
        }
        proof {
            assert(values(inputs@) =~= inlet_values(datas@, sib@));
        }
        r.push(Activation { node: info[t].node, inputs, recursion: recursion + 1 });
        i = i + 1;
    }
    r
}

/// Whether an activation that `recursion` activations led to is still carried out.
pub fn within_recursion_limit(recursion: usize) -> (r: bool)
    ensures
        r == (recursion < RECURSION_LIMIT),
{
    recursion < RECURSION_LIMIT
}

/// What follows a node's processing: its outputs are delivered (see
/// [`deliver`]) and the activations that the hot inlets written ask for are
/// handed back (see [`queued_activations`]).
pub fn propagate(
    outputs: &Vec<Data>,
    conns: &Vec<Vec<usize>>,
    order: &Vec<usize>,
    info: &Vec<InletInfo>,
    datas: &mut Vec<Data>,
    recursion: usize,
) -> (r: Vec<Activation>)
    requires
        recursion < RECURSION_LIMIT,
        outputs.len() == order.len(),
        old(datas).len() == info.len(),
        forall|c: int, j: int| 0 <= c < conns.len() && 0 <= j < conns@[c].len() ==> #[trigger] conns@[c]@[j] < old(datas).len(),
        forall|i: int, j: int| 0 <= i < info.len() && 0 <= j < info@[i].siblings.len() ==> #[trigger] info@[i].siblings@[j] < old(datas).len(),
    ensures
        final(datas).len() == old(datas).len(),
        exists|ranked: Seq<usize>|
            #[trigger] is_stable_order(order@.take(zip_len(conns@.len(), order@.len()) as int), ranked)
            && values(final(datas)@) == delivered(
                values(old(datas)@),
                values(outputs@),
                deliveries(conn_lists(conns@), ranked, zip_len(conns@.len(), order@.len())),
            ) && {
                let hot = hot_targets(kinds(info@), deliveries(conn_lists(conns@), ranked, zip_len(conns@.len(), order@.len())));
                &&& r.len() == hot.len()
                &&& forall|i: int| 0 <= i < r.len() ==> {
                    &&& (#[trigger] r@[i]).node == info@[hot[i] as int].node
                    &&& values(r@[i].inputs@) == inlet_values(final(datas)@, info@[hot[i] as int].siblings@)
                    &&& r@[i].recursion == recursion + 1
                }
            },
{
    let hot = deliver(outputs, conns, order, info, datas);
    proof {
        let ranked = choose|ranked: Seq<usize>|
            #[trigger] is_stable_order(order@.take(zip_len(conns@.len(), order@.len()) as int), ranked)
            && values(datas@) == delivered(
                values(old(datas)@),
                values(outputs@),
                deliveries(conn_lists(conns@), ranked, zip_len(conns@.len(), order@.len())),
            ) && hot@ == hot_targets(kinds(info@), deliveries(conn_lists(conns@), ranked, zip_len(conns@.len(), order@.len())));
        let m = zip_len(conns@.len(), order@.len());
        assert forall|i: int| 0 <= i < m implies #[trigger] ranked[i] < conn_lists(conns@).len() by {
            assert(ranked[i] < order@.take(m as int).len());
        }
        assert forall|c: int, j: int| 0 <= c < conn_lists(conns@).len() && 0 <= j < conn_lists(conns@)[c].len() implies #[trigger] conn_lists(conns@)[c][j] < datas.len() by {
            assert(conn_lists(conns@)[c] == conns@[c]@);
            assert(conns@[c]@[j] < old(datas).len());
        }
        lemma_deliveries_in(conn_lists(conns@), ranked, m, datas.len() as nat);
        lemma_hot_targets_in(kinds(info@), deliveries(conn_lists(conns@), ranked, m), datas.len() as nat);
    }
    let r = queued_activations(&hot, info, datas, recursion);
    r
}

/// Every delivery goes to an inlet below `n` when every connection does.
proof fn lemma_deliveries_in(conns: Seq<Seq<usize>>, ranked: Seq<usize>, m: nat, n: nat)
    requires
        m <= ranked.len(),
        forall|i: int| 0 <= i < m ==> #[trigger] ranked[i] < conns.len(),
        forall|c: int, j: int| 0 <= c < conns.len() && 0 <= j < conns[c].len() ==> #[trigger] conns[c][j] < n,
    ensures
        forall|i: int| 0 <= i < deliveries(conns, ranked, m).len() ==> (#[trigger] deliveries(conns, ranked, m)[i]).1 < n,
    decreases m,
{
    if m > 0 {
        lemma_deliveries_in(conns, ranked, (m - 1) as nat, n);
        let prev = deliveries(conns, ranked, (m - 1) as nat);
        let tail = conns[ranked[m - 1] as int].map_values(|x: usize| ((m - 1) as int, x));
        assert forall|i: int| 0 <= i < deliveries(conns, ranked, m).len() implies (#[trigger] deliveries(conns, ranked, m)[i]).1 < n by {
            if i >= prev.len() {
                assert(deliveries(conns, ranked, m)[i] == tail[i - prev.len()]);
            } else {
                assert(deliveries(conns, ranked, m)[i] == prev[i]);
            }
        }
    }
}

/// Every hot target is one of the delivered inlets.
proof fn lemma_hot_targets_in(kinds: Seq<InletType>, ds: Seq<(int, usize)>, n: nat)
    requires
        forall|i: int| 0 <= i < ds.len() ==> (#[trigger] ds[i]).1 < n,
    ensures
        forall|i: int| 0 <= i < hot_targets(kinds, ds).len() ==> #[trigger] hot_targets(kinds, ds)[i] < n,
    decreases ds.len(),
{
    if ds.len() > 0 {
        assert forall|i: int| 0 <= i < ds.drop_last().len() implies (#[trigger] ds.drop_last()[i]).1 < n by {
            assert(ds.drop_last()[i] == ds[i]);
        }
        lemma_hot_targets_in(kinds, ds.drop_last(), n);
        assert(ds[ds.len() - 1].1 < n);
        let prev = hot_targets(kinds, ds.drop_last());
        assert forall|i: int| 0 <= i < hot_targets(kinds, ds).len() implies #[trigger] hot_targets(kinds, ds)[i] < n by {
            if i < prev.len() {
                assert(hot_targets(kinds, ds)[i] == prev[i]);
            }
        }
    }
}

/// Only one sequence ranks the positions of `keys` as [`is_stable_order`]
/// asks: the order in which outlets fire is determined by their keys.
pub proof fn lemma_stable_order_unique(keys: Seq<usize>, a: Seq<usize>, b: Seq<usize>)
    requires
        is_stable_order(keys, a),
        is_stable_order(keys, b),
    ensures
        a == b,
{
    assert forall|i: int| 0 <= i < a.len() implies a[i] == b[i] by {
        lemma_stable_prefix_equal(keys, a, b, i);
    }
    assert(a =~= b);
}

proof fn lemma_stable_prefix_equal(keys: Seq<usize>, a: Seq<usize>, b: Seq<usize>, i: int)
    requires
        is_stable_order(keys, a),
        is_stable_order(keys, b),
        0 <= i < a.len(),
    ensures
        a[i] == b[i],
    decreases i,
{
    if i > 0 {
        lemma_stable_prefix_equal(keys, a, b, i - 1);
    }
    assert forall|j: int| 0 <= j < i implies a[j] == b[j] by {
        lemma_stable_prefix_equal(keys, a, b, j);
    }
    if a[i] != b[i] {
        assert(a[i] < keys.len());
        assert(b.contains((a[i] as int) as usize));
        let p = choose|p: int| 0 <= p < b.len() && b[p] == a[i];
        assert(b[i] < keys.len());
        assert(a.contains((b[i] as int) as usize));
        let q = choose|q: int| 0 <= q < a.len() && a[q] == b[i];
        if p < i {
            assert(a[p] == b[p]);
            assert(ranks_before(keys, a[p] as int, a[i] as int));
        }
        if q < i {
            assert(a[q] == b[q]);
            assert(ranks_before(keys, b[q] as int, b[i] as int));
        }
        assert(p > i && q > i);
        assert(ranks_before(keys, b[i] as int, b[p] as int));
        assert(ranks_before(keys, a[i] as int, a[q] as int));
    }
}


/// An inlet that no delivery goes to keeps the value it held.
pub proof fn law_undelivered_inlet_unchanged(datas: Seq<DataView>, outputs: Seq<DataView>, ds: Seq<(int, usize)>, x: int)
    requires
        0 <= x < datas.len(),
        forall|i: int| 0 <= i < ds.len() ==> (#[trigger] ds[i]).1 < datas.len(),
        forall|i: int| 0 <= i < ds.len() ==> (#[trigger] ds[i]).1 != x,
    ensures
        delivered(datas, outputs, ds)[x] == datas[x],
    decreases ds.len(),
{
    if ds.len() > 0 {
        assert forall|i: int| 0 <= i < ds.drop_last().len() implies (#[trigger] ds.drop_last()[i]).1 < datas.len() && ds.drop_last()[i].1 != x by {
            assert(ds.drop_last()[i] == ds[i]);
        }
        law_undelivered_inlet_unchanged(datas, outputs, ds.drop_last(), x);
        lemma_delivered_len(datas, outputs, ds.drop_last());
        assert(ds[ds.len() - 1].1 != x);
    }
}

/// Only hot inlets ask for activations: every inlet handed back as written
/// is hot, and no cold inlet is.
pub proof fn law_only_hot_inlets_activate(ks: Seq<InletType>, ds: Seq<(int, usize)>)
    ensures
        forall|i: int| 0 <= i < hot_targets(ks, ds).len() ==> ks[#[trigger] hot_targets(ks, ds)[i] as int] == InletType::Hot,
    decreases ds.len(),
{
    if ds.len() > 0 {
        law_only_hot_inlets_activate(ks, ds.drop_last());
        let prev = hot_targets(ks, ds.drop_last());
        assert forall|i: int| 0 <= i < hot_targets(ks, ds).len() implies ks[#[trigger] hot_targets(ks, ds)[i] as int] == InletType::Hot by {
            if i < prev.len() {
                assert(hot_targets(ks, ds)[i] == prev[i]);
            }
        }
    }
}

/// With keys equal to their positions, outlets fire left to right.
pub proof fn law_identity_keys_fire_in_order(n: nat)
    requires
        n <= usize::MAX,
    ensures
        is_stable_order(Seq::new(n, |i: int| i as usize), Seq::new(n, |i: int| i as usize)),
{
    let keys = Seq::new(n, |i: int| i as usize);
    assert forall|i: int, j: int| 0 <= i < j < keys.len() implies ranks_before(keys, #[trigger] keys[i] as int, #[trigger] keys[j] as int) by {
        assert(keys[keys[i] as int] == i as usize);
        assert(keys[keys[j] as int] == j as usize);
    }
    assert forall|k: int| 0 <= k < keys.len() implies #[trigger] keys.contains(k as usize) by {
        assert(keys[k] == k as usize);
    }
}

/// With the keys a trigger gives its `n` outlets (`n - i` for outlet `i`),
/// the outlets fire right to left.
pub proof fn law_trigger_fires_right_to_left(n: nat)
    requires
        n <= usize::MAX,
    ensures
        is_stable_order(Seq::new(n, |i: int| (n - i) as usize), Seq::new(n, |i: int| (n - 1 - i) as usize)),
{
    let keys = Seq::new(n, |i: int| (n - i) as usize);
    let order = Seq::new(n, |i: int| (n - 1 - i) as usize);
    assert forall|i: int, j: int| 0 <= i < j < order.len() implies ranks_before(keys, #[trigger] order[i] as int, #[trigger] order[j] as int) by {
        assert(keys[order[i] as int] == (i + 1) as usize);
        assert(keys[order[j] as int] == (j + 1) as usize);
    }
    assert forall|k: int| 0 <= k < keys.len() implies #[trigger] order.contains(k as usize) by {
        assert(order[n - 1 - k] == k as usize);
    }
}


/// The inlet a delivery writes into.
pub open spec fn delivery_target() -> spec_fn((int, usize)) -> usize {
    |d: (int, usize)| d.1
}

/// Whether an inlet is hot.
pub open spec fn is_hot(ks: Seq<InletType>) -> spec_fn(usize) -> bool {
    |x: usize| ks[x as int] == InletType::Hot
}

/// Every delivery into a hot inlet queues one activation of it, in delivery
/// order, and no other delivery queues any: the activations are the targets of
/// the deliveries, kept where the target is hot. Two deliveries into the same
/// hot inlet activate it twice.
pub proof fn law_one_activation_per_hot_delivery(ks: Seq<InletType>, ds: Seq<(int, usize)>)
    ensures
        hot_targets(ks, ds) == ds.map_values(delivery_target()).filter(is_hot(ks)),
        hot_targets(ks, ds).len() == ds.map_values(delivery_target()).filter(is_hot(ks)).len(),
    decreases ds.len(),
{
    reveal(Seq::filter);
    let ts = ds.map_values(delivery_target());
    if ds.len() == 0 {
        assert(ts =~= Seq::<usize>::empty());
    } else {
        law_one_activation_per_hot_delivery(ks, ds.drop_last());
        assert(ds.drop_last().map_values(delivery_target()) =~= ts.drop_last());
        assert(ts.last() == ds.last().1);
    }
}
} // verus!

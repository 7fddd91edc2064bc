use vstd::prelude::*;
use crate::mapping::{MappedNodeView, PatchMap};
use crate::patch::{
    entry_copy,
    Input, InputView, Patch, PatchEntry, PatchEntryView, copy_input, data_equal, input_view, inputs_equal,
    outgoing_equal,
};

verus! {

/// A step of bringing the running nodes in line with a next patch.
pub enum LoadAction {
    /// The node is next: spawn it with its inlets and outlets.
    Spawn(String),
    /// The node's component or internal data changed: despawn it and spawn it anew.
    Respawn(String),
    /// The node's binding changed: set it, or remove it when there is none.
    SetInput(String, Option<Input>),
    /// The node gained inlets: add those at positions `from` up to `to`.
    AddInlets(String, usize, usize),
    /// The node lost inlets: remove those at positions `from` up to `to`.
    RemoveInlets(String, usize, usize),
    /// The node gained outlets: add those at positions `from` up to `to`.
    AddOutlets(String, usize, usize),
    /// The node lost outlets: remove those at positions `from` up to `to`.
    RemoveOutlets(String, usize, usize),
    /// The node is gone from the patch: despawn it.
    Despawn(String),
}

pub enum LoadActionView {
    Spawn(Seq<char>),
    Respawn(Seq<char>),
    SetInput(Seq<char>, Option<InputView>),
    AddInlets(Seq<char>, usize, usize),
    RemoveInlets(Seq<char>, usize, usize),
    AddOutlets(Seq<char>, usize, usize),
    RemoveOutlets(Seq<char>, usize, usize),
    Despawn(Seq<char>),
}

impl View for LoadAction {
    type V = LoadActionView;

    open spec fn view(&self) -> LoadActionView {
        match self {
            LoadAction::Spawn(n) => LoadActionView::Spawn(n@),
            LoadAction::Respawn(n) => LoadActionView::Respawn(n@),
            LoadAction::SetInput(n, i) => LoadActionView::SetInput(n@, input_view(*i)),
            LoadAction::AddInlets(n, a, b) => LoadActionView::AddInlets(n@, *a, *b),
            LoadAction::RemoveInlets(n, a, b) => LoadActionView::RemoveInlets(n@, *a, *b),
            LoadAction::AddOutlets(n, a, b) => LoadActionView::AddOutlets(n@, *a, *b),
            LoadAction::RemoveOutlets(n, a, b) => LoadActionView::RemoveOutlets(n@, *a, *b),
            LoadAction::Despawn(n) => LoadActionView::Despawn(n@),
        }
    }
}

/// The work of a load: the actions in order, then the nodes whose inlet
/// values, outlet connections and signal connections are to be refreshed.
pub struct LoadPlan {
    pub actions: Vec<LoadAction>,
    pub update_inlets: Vec<String>,
    pub update_outlets: Vec<String>,
    pub update_signals: Vec<String>,
}

pub struct LoadPlanView {
    pub actions: Seq<LoadActionView>,
    pub update_inlets: Seq<Seq<char>>,
    pub update_outlets: Seq<Seq<char>>,
    pub update_signals: Seq<Seq<char>>,
}

pub open spec fn names_view(v: Seq<String>) -> Seq<Seq<char>> {
    v.map_values(|s: String| s@)
}

impl View for LoadPlan {
    type V = LoadPlanView;

    open spec fn view(&self) -> LoadPlanView {
        LoadPlanView {
            actions: self.actions@.map_values(|a: LoadAction| a@),
            update_inlets: names_view(self.update_inlets@),
            update_outlets: names_view(self.update_outlets@),
            update_signals: names_view(self.update_signals@),
        }
    }
}

/// Whether the node must be spawned anew: its component or its internal data changed.
pub open spec fn must_respawn(prev: PatchEntryView, next: PatchEntryView) -> bool {
    prev.node.component_id != next.node.component_id || prev.node.internal_data != next.node.internal_data
}

/// Whether the node is next, or must be spawned anew.
pub open spec fn spawned_fresh(loaded: Map<Seq<char>, PatchEntryView>, live: Map<Seq<char>, PatchEntryView>, name: Seq<char>) -> bool {
    !loaded.dom().contains(name) || must_respawn(loaded[name], live[name])
}

/// A changed binding is set anew.
pub open spec fn input_actions(prev: PatchEntryView, next: PatchEntryView, name: Seq<char>) -> Seq<LoadActionView> {
    if prev.node.input != next.node.input {
        seq![LoadActionView::SetInput(name, next.node.input)]
    } else {
        Seq::empty()
    }
}

/// Inlets gained are added, inlets lost are removed.
pub open spec fn inlet_actions(prev: PatchEntryView, next: PatchEntryView, name: Seq<char>) -> Seq<LoadActionView> {
    if next.ingoing.len() > prev.ingoing.len() {
        seq![LoadActionView::AddInlets(name, prev.ingoing.len() as usize, next.ingoing.len() as usize)]
    } else if next.ingoing.len() < prev.ingoing.len() {
        seq![LoadActionView::RemoveInlets(name, next.ingoing.len() as usize, prev.ingoing.len() as usize)]
    } else {
        Seq::empty()
    }
}

/// Outlets gained are added, outlets lost are removed.
pub open spec fn outlet_actions(prev: PatchEntryView, next: PatchEntryView, name: Seq<char>) -> Seq<LoadActionView> {
    if next.outgoing.len() > prev.outgoing.len() {
        seq![LoadActionView::AddOutlets(name, prev.outgoing.len() as usize, next.outgoing.len() as usize)]
    } else if next.outgoing.len() < prev.outgoing.len() {
        seq![LoadActionView::RemoveOutlets(name, next.outgoing.len() as usize, prev.outgoing.len() as usize)]
    } else {
        Seq::empty()
    }
}

/// The name, once when `b` holds.
pub open spec fn name_if(b: bool, name: Seq<char>) -> Seq<Seq<char>> {
    if b { seq![name] } else { Seq::empty() }
}

/// The actions that bring a node of the live patch in line.
pub open spec fn node_actions(
    loaded: Map<Seq<char>, PatchEntryView>,
    live: Map<Seq<char>, PatchEntryView>,
    name: Seq<char>,
) -> Seq<LoadActionView> {
    let next = live[name];
    if !loaded.dom().contains(name) {
        seq![LoadActionView::Spawn(name)]
    } else {
        let prev = loaded[name];
        if must_respawn(prev, next) {
            seq![LoadActionView::Respawn(name)]
        } else {
            input_actions(prev, next, name) + inlet_actions(prev, next, name) + outlet_actions(prev, next, name)
        }
    }
}

/// Whether the node's inlet values are to be refreshed.
pub open spec fn refresh_inlets(loaded: Map<Seq<char>, PatchEntryView>, live: Map<Seq<char>, PatchEntryView>, name: Seq<char>) -> bool {
    spawned_fresh(loaded, live, name) || loaded[name].ingoing != live[name].ingoing
}

/// Whether the node's outlet connections are to be refreshed.
pub open spec fn refresh_outlets(loaded: Map<Seq<char>, PatchEntryView>, live: Map<Seq<char>, PatchEntryView>, name: Seq<char>) -> bool {
    spawned_fresh(loaded, live, name) || loaded[name].outgoing != live[name].outgoing
}

/// Whether the node's signal connections are to be refreshed.
pub open spec fn refresh_signals(loaded: Map<Seq<char>, PatchEntryView>, live: Map<Seq<char>, PatchEntryView>, name: Seq<char>) -> bool {
    spawned_fresh(loaded, live, name) || loaded[name].signals != live[name].signals
}

/// The actions for the live nodes taken in the order `names`.
pub open spec fn live_actions(
    loaded: Map<Seq<char>, PatchEntryView>,
    live: Map<Seq<char>, PatchEntryView>,
    names: Seq<Seq<char>>,
) -> Seq<LoadActionView>
    decreases names.len(),
{
    if names.len() == 0 {
        Seq::empty()
    } else {
        live_actions(loaded, live, names.drop_last()) + node_actions(loaded, live, names.last())
    }
}

/// The despawns of the loaded nodes that the live patch no longer has, in the order `names`.
pub open spec fn gone_actions(live: Map<Seq<char>, PatchEntryView>, names: Seq<Seq<char>>) -> Seq<LoadActionView>
    decreases names.len(),
{
    if names.len() == 0 {
        Seq::empty()
    } else {
        gone_actions(live, names.drop_last()) + (if live.dom().contains(names.last()) {
            Seq::empty()
        } else {
            seq![LoadActionView::Despawn(names.last())]
        })
    }
}

/// The names among `names`, in order, that satisfy `keep`.
pub open spec fn kept(names: Seq<Seq<char>>, keep: spec_fn(Seq<char>) -> bool) -> Seq<Seq<char>>
    decreases names.len(),
{
    if names.len() == 0 {
        Seq::empty()
    } else {
        kept(names.drop_last(), keep) + (if keep(names.last()) { seq![names.last()] } else { Seq::empty() })
    }
}

/// `names` lists each key of `m` once.
pub open spec fn lists_keys(m: Map<Seq<char>, PatchEntryView>, names: Seq<Seq<char>>) -> bool {
    &&& forall|i: int| 0 <= i < names.len() ==> m.dom().contains(#[trigger] names[i])
    &&& forall|k: Seq<char>| m.dom().contains(k) ==> exists|i: int| 0 <= i < names.len() && #[trigger] names[i] == k
    &&& forall|i: int, j: int| 0 <= i < j < names.len() ==> names[i] != names[j]
}

/// The plan for loading `live` over `loaded`, the live nodes taken in the
/// order `live_names` and the loaded ones in the order `loaded_names`.
pub open spec fn plan_spec(
    loaded: Map<Seq<char>, PatchEntryView>,
    live: Map<Seq<char>, PatchEntryView>,
    live_names: Seq<Seq<char>>,
    loaded_names: Seq<Seq<char>>,
) -> LoadPlanView {
    LoadPlanView {
        actions: live_actions(loaded, live, live_names) + gone_actions(live, loaded_names),
        update_inlets: kept(live_names, |n: Seq<char>| refresh_inlets(loaded, live, n)),
        update_outlets: kept(live_names, |n: Seq<char>| refresh_outlets(loaded, live, n)),
        update_signals: kept(live_names, |n: Seq<char>| refresh_signals(loaded, live, n)),
    }
}



/// Appends the action for a changed binding.
fn plan_input(prev: &PatchEntry, next: &PatchEntry, name: &String, plan: &mut LoadPlan)
    ensures
        final(plan)@ == (LoadPlanView { actions: old(plan)@.actions + input_actions(prev@, next@, name@), ..old(plan)@ }),
{
    let ghost a0 = plan@;
    if !inputs_equal(&prev.node.input, &next.node.input) {
        plan.actions.push(LoadAction::SetInput(name.clone(), copy_input(&next.node.input)));
    }
    proof {
        assert(plan@.actions =~= a0.actions + input_actions(prev@, next@, name@));
    }
}

/// Appends the action for inlets gained or lost, and marks changed inlet values.
fn plan_inlets(prev: &PatchEntry, next: &PatchEntry, name: &String, plan: &mut LoadPlan)
    ensures
        final(plan)@ == (LoadPlanView {
            actions: old(plan)@.actions + inlet_actions(prev@, next@, name@),
            update_inlets: old(plan)@.update_inlets + name_if(prev@.ingoing != next@.ingoing, name@),
            ..old(plan)@
        }),
{
    let ghost a0 = plan@;
    let n_old = prev.ingoing.0.len();
    let n_new = next.ingoing.0.len();
    proof {
        assert(prev@.ingoing.len() == n_old);
        assert(next@.ingoing.len() == n_new);
    }
    if !data_equal(&prev.ingoing.0, &next.ingoing.0) {
        if n_new > n_old {
            plan.actions.push(LoadAction::AddInlets(name.clone(), n_old, n_new));
        } else if n_new < n_old {
            plan.actions.push(LoadAction::RemoveInlets(name.clone(), n_new, n_old));
        }
        plan.update_inlets.push(name.clone());
    } else {
        proof {
            assert(n_new == n_old);
        }
    }
    proof {
        assert(plan@.actions =~= a0.actions + inlet_actions(prev@, next@, name@));
        assert(plan@.update_inlets =~= a0.update_inlets + name_if(prev@.ingoing != next@.ingoing, name@));
    }
}

/// Appends the action for outlets gained or lost, and marks changed connections.
fn plan_outlets(prev: &PatchEntry, next: &PatchEntry, name: &String, plan: &mut LoadPlan)
    ensures
        final(plan)@ == (LoadPlanView {
            actions: old(plan)@.actions + outlet_actions(prev@, next@, name@),
            update_outlets: old(plan)@.update_outlets + name_if(prev@.outgoing != next@.outgoing, name@),
            update_signals: old(plan)@.update_signals + name_if(prev@.signals != next@.signals, name@),
            ..old(plan)@
        }),
{
    let ghost a0 = plan@;
    let o_old = prev.outgoing.0.len();
    let o_new = next.outgoing.0.len();
    proof {
        assert(prev@.outgoing.len() == o_old);
        assert(next@.outgoing.len() == o_new);
    }
    if !outgoing_equal(&prev.outgoing.0, &next.outgoing.0) {
        if o_new > o_old {
            plan.actions.push(LoadAction::AddOutlets(name.clone(), o_old, o_new));
        } else if o_new < o_old {
            plan.actions.push(LoadAction::RemoveOutlets(name.clone(), o_new, o_old));
        }
        plan.update_outlets.push(name.clone());
    } else {
        proof {
            assert(o_new == o_old);
        }
    }
    if !outgoing_equal(&prev.signals.0, &next.signals.0) {
        plan.update_signals.push(name.clone());
    }
    proof {
        assert(plan@.actions =~= a0.actions + outlet_actions(prev@, next@, name@));
        assert(plan@.update_outlets =~= a0.update_outlets + name_if(prev@.outgoing != next@.outgoing, name@));
        assert(plan@.update_signals =~= a0.update_signals + name_if(prev@.signals != next@.signals, name@));
    }
}

/// Appends one action for the node and marks it for every refresh.
fn plan_fresh(action: LoadAction, name: &String, plan: &mut LoadPlan)
    ensures
        final(plan)@ == (LoadPlanView {
            actions: old(plan)@.actions.push(action@),
            update_inlets: old(plan)@.update_inlets.push(name@),
            update_outlets: old(plan)@.update_outlets.push(name@),
            update_signals: old(plan)@.update_signals.push(name@),
        }),
{
    let ghost a0 = plan@;
    let ghost av = action@;
    plan.actions.push(action);
    plan.update_inlets.push(name.clone());
    plan.update_outlets.push(name.clone());
    plan.update_signals.push(name.clone());
    proof {
        assert(plan@.actions =~= a0.actions.push(av));
        assert(plan@.update_inlets =~= a0.update_inlets.push(name@));
        assert(plan@.update_outlets =~= a0.update_outlets.push(name@));
        assert(plan@.update_signals =~= a0.update_signals.push(name@));
    }
}

/// Appends the plan for the live node `name` to the plan built so far.
fn plan_node(loaded: &Patch, live: &Patch, name: &String, plan: &mut LoadPlan)
    requires
        live@.dom().contains(name@),
    ensures
        final(plan)@.actions == old(plan)@.actions + node_actions(loaded@, live@, name@),
        final(plan)@.update_inlets == old(plan)@.update_inlets + name_if(refresh_inlets(loaded@, live@, name@), name@),
        final(plan)@.update_outlets == old(plan)@.update_outlets + name_if(refresh_outlets(loaded@, live@, name@), name@),
        final(plan)@.update_signals == old(plan)@.update_signals + name_if(refresh_signals(loaded@, live@, name@), name@),
{
    let next = live.entry(name).unwrap();
    let ghost a0 = plan@;
    match loaded.entry(name) {
        None => {
            plan_fresh(LoadAction::Spawn(name.clone()), name, plan);
            proof {
                assert(plan@.actions =~= a0.actions + node_actions(loaded@, live@, name@));
                assert(plan@.update_inlets =~= a0.update_inlets + name_if(refresh_inlets(loaded@, live@, name@), name@));
                assert(plan@.update_outlets =~= a0.update_outlets + name_if(refresh_outlets(loaded@, live@, name@), name@));
                assert(plan@.update_signals =~= a0.update_signals + name_if(refresh_signals(loaded@, live@, name@), name@));
            }
        },
        Some(prev) => {
            let same_data = data_equal(&prev.node.internal_data, &next.node.internal_data);
            if prev.node.component_id != next.node.component_id || !same_data {
                plan_fresh(LoadAction::Respawn(name.clone()), name, plan);
                proof {
                    assert(plan@.actions =~= a0.actions + node_actions(loaded@, live@, name@));
                    assert(plan@.update_inlets =~= a0.update_inlets + name_if(refresh_inlets(loaded@, live@, name@), name@));
                    assert(plan@.update_outlets =~= a0.update_outlets + name_if(refresh_outlets(loaded@, live@, name@), name@));
                    assert(plan@.update_signals =~= a0.update_signals + name_if(refresh_signals(loaded@, live@, name@), name@));
                }
            } else {
                plan_input(prev, next, name, plan);
                plan_inlets(prev, next, name, plan);
                plan_outlets(prev, next, name, plan);
                proof {
                    assert(plan@.actions =~= a0.actions + node_actions(loaded@, live@, name@));
                }
            }
        },
    }
}


/// The plan for loading `live` over `loaded` (see [`plan_spec`]), the live
/// nodes taken in the order `live_names` and the loaded ones in the order
/// `loaded_names`.
pub fn plan_load_in_order(
    loaded: &Patch,
    live: &Patch,
    live_names: &Vec<String>,
    loaded_names: &Vec<String>,
) -> (r: LoadPlan)
    requires
        lists_keys(live@, names_view(live_names@)),
        lists_keys(loaded@, names_view(loaded_names@)),
    ensures
        r@ == plan_spec(loaded@, live@, names_view(live_names@), names_view(loaded_names@)),
{
    let mut plan = LoadPlan {
        actions: Vec::new(),
        update_inlets: Vec::new(),
        update_outlets: Vec::new(),
        update_signals: Vec::new(),
    };
    let ghost lv = names_view(live_names@);
    let ghost ld = names_view(loaded_names@);
    proof {
        assert(plan@.actions =~= live_actions(loaded@, live@, lv.take(0)));
        assert(plan@.update_inlets =~= kept(lv.take(0), |n: Seq<char>| refresh_inlets(loaded@, live@, n)));
        assert(plan@.update_outlets =~= kept(lv.take(0), |n: Seq<char>| refresh_outlets(loaded@, live@, n)));
        assert(plan@.update_signals =~= kept(lv.take(0), |n: Seq<char>| refresh_signals(loaded@, live@, n)));
    }
    let mut i: usize = 0;
    while i < live_names.len()
        invariant
            0 <= i <= live_names.len(),
            lv == names_view(live_names@),
            lists_keys(live@, lv),
            plan@.actions == live_actions(loaded@, live@, lv.take(i as int)),
            plan@.update_inlets == kept(lv.take(i as int), |n: Seq<char>| refresh_inlets(loaded@, live@, n)),
            plan@.update_outlets == kept(lv.take(i as int), |n: Seq<char>| refresh_outlets(loaded@, live@, n)),
            plan@.update_signals == kept(lv.take(i as int), |n: Seq<char>| refresh_signals(loaded@, live@, n)),
        decreases live_names.len() - i,
    {
        proof {
            assert(lv[i as int] == live_names@[i as int]@);
            assert(live@.dom().contains(lv[i as int]));
            assert(lv.take(i + 1).drop_last() =~= lv.take(i as int));
            assert(lv.take(i + 1).last() == lv[i as int]);
        }
        plan_node(loaded, live, &live_names[i], &mut plan);
        i = i + 1;
    }
    proof {
        assert(lv.take(live_names.len() as int) =~= lv);
    }
    let ghost acts = plan@.actions;
    let mut j: usize = 0;
    while j < loaded_names.len()
        invariant
            0 <= j <= loaded_names.len(),
            ld == names_view(loaded_names@),
            acts == live_actions(loaded@, live@, lv),
            plan@.actions == acts + gone_actions(live@, ld.take(j as int)),
            plan@.update_inlets == kept(lv, |n: Seq<char>| refresh_inlets(loaded@, live@, n)),
            plan@.update_outlets == kept(lv, |n: Seq<char>| refresh_outlets(loaded@, live@, n)),
            plan@.update_signals == kept(lv, |n: Seq<char>| refresh_signals(loaded@, live@, n)),
        decreases loaded_names.len() - j,
    {
        let name = &loaded_names[j];
        let found = live.entry(name);
        let present = found.is_some();
        let ghost before = plan@.actions;
        if !present {
            plan.actions.push(LoadAction::Despawn(name.clone()));
        }
        proof {
            assert(present == live@.dom().contains(name@));
            assert(ld[j as int] == name@);
            assert(ld.take(j + 1).drop_last() =~= ld.take(j as int));
            assert(ld.take(j + 1).last() == ld[j as int]);
            let tail: Seq<LoadActionView> = if live@.dom().contains(name@) { Seq::empty() } else { seq![LoadActionView::Despawn(name@)] };
            assert(gone_actions(live@, ld.take(j + 1)) == gone_actions(live@, ld.take(j as int)) + tail);
            assert(plan@.actions =~= before + tail);
            assert(plan@.actions =~= acts + gone_actions(live@, ld.take(j + 1)));
        }
        j = j + 1;
    }
    proof {
        assert(ld.take(loaded_names.len() as int) =~= ld);
    }
    plan
}

/// The plan for loading `live` over `loaded`: as [`plan_spec`] gives it for
/// some order of the live nodes and some order of the loaded ones, which the
/// maps do not promise.
pub fn plan_load(loaded: &Patch, live: &Patch) -> (r: LoadPlan)
    ensures
        exists|live_names: Seq<Seq<char>>, loaded_names: Seq<Seq<char>>|
            #[trigger] lists_keys(live@, live_names) && #[trigger] lists_keys(loaded@, loaded_names)
            && r@ == plan_spec(loaded@, live@, live_names, loaded_names),
{
    let live_names = live.node_names();
    let loaded_names = loaded.node_names();
    proof {
        assert forall|k: Seq<char>| live@.dom().contains(k) implies exists|i: int| 0 <= i < names_view(live_names@).len() && #[trigger] names_view(live_names@)[i] == k by {
            let i = choose|i: int| 0 <= i < live_names.len() && #[trigger] live_names@[i]@ == k;
            assert(names_view(live_names@)[i] == k);
        }
        assert forall|k: Seq<char>| loaded@.dom().contains(k) implies exists|i: int| 0 <= i < names_view(loaded_names@).len() && #[trigger] names_view(loaded_names@)[i] == k by {
            let i = choose|i: int| 0 <= i < loaded_names.len() && #[trigger] loaded_names@[i]@ == k;
            assert(names_view(loaded_names@)[i] == k);
        }
    }
    let r = plan_load_in_order(loaded, live, &live_names, &loaded_names);
    proof {
        assert(lists_keys(live@, names_view(live_names@)));
        assert(lists_keys(loaded@, names_view(loaded_names@)));
    }
    r
}


/// The plan with nothing to do.
pub open spec fn quiet_plan() -> LoadPlanView {
    LoadPlanView {
        actions: Seq::empty(),
        update_inlets: Seq::empty(),
        update_outlets: Seq::empty(),
        update_signals: Seq::empty(),
    }
}

/// Two records of a node that agree on all but the argument order.
pub open spec fn same_but_order(a: PatchEntryView, b: PatchEntryView) -> bool {
    entry_copy(a) == entry_copy(b)
}

proof fn lemma_quiet_names(
    loaded: Map<Seq<char>, PatchEntryView>,
    live: Map<Seq<char>, PatchEntryView>,
    names: Seq<Seq<char>>,
)
    requires
        forall|i: int| 0 <= i < names.len() ==> live.dom().contains(#[trigger] names[i]),
        forall|k: Seq<char>| live.dom().contains(k) ==> loaded.dom().contains(k) && same_but_order(loaded[k], live[k]),
    ensures
        live_actions(loaded, live, names) == Seq::<LoadActionView>::empty(),
        kept(names, |n: Seq<char>| refresh_inlets(loaded, live, n)) == Seq::<Seq<char>>::empty(),
        kept(names, |n: Seq<char>| refresh_outlets(loaded, live, n)) == Seq::<Seq<char>>::empty(),
        kept(names, |n: Seq<char>| refresh_signals(loaded, live, n)) == Seq::<Seq<char>>::empty(),
    decreases names.len(),
{
    if names.len() > 0 {
        let k = names.last();
        assert(live.dom().contains(k));
        assert(entry_copy(loaded[k]).node.component_id == loaded[k].node.component_id);
        assert(entry_copy(live[k]).node.component_id == live[k].node.component_id);
        assert(entry_copy(loaded[k]).node.internal_data == loaded[k].node.internal_data);
        assert(entry_copy(live[k]).node.internal_data == live[k].node.internal_data);
        assert(entry_copy(loaded[k]).node.input == loaded[k].node.input);
        assert(entry_copy(live[k]).node.input == live[k].node.input);
        assert(node_actions(loaded, live, k) =~= Seq::<LoadActionView>::empty());
        lemma_quiet_names(loaded, live, names.drop_last());
        assert(live_actions(loaded, live, names) =~= Seq::<LoadActionView>::empty());
        assert(kept(names, |n: Seq<char>| refresh_inlets(loaded, live, n)) =~= Seq::<Seq<char>>::empty());
        assert(kept(names, |n: Seq<char>| refresh_outlets(loaded, live, n)) =~= Seq::<Seq<char>>::empty());
        assert(kept(names, |n: Seq<char>| refresh_signals(loaded, live, n)) =~= Seq::<Seq<char>>::empty());
    }
}

proof fn lemma_nothing_gone(live: Map<Seq<char>, PatchEntryView>, names: Seq<Seq<char>>)
    requires
        forall|i: int| 0 <= i < names.len() ==> live.dom().contains(#[trigger] names[i]),
    ensures
        gone_actions(live, names) == Seq::<LoadActionView>::empty(),
    decreases names.len(),
{
    if names.len() > 0 {
        lemma_nothing_gone(live, names.drop_last());
        assert(live.dom().contains(names[names.len() - 1]));
        assert(gone_actions(live, names) =~= Seq::<LoadActionView>::empty());
    }
}

/// Loading a patch over one with the same nodes, component data, bindings,
/// inlet values and connections does nothing: hot-patching touches only what
/// changed.
pub proof fn law_unchanged_reload_is_quiet(
    loaded: Map<Seq<char>, PatchEntryView>,
    live: Map<Seq<char>, PatchEntryView>,
    live_names: Seq<Seq<char>>,
    loaded_names: Seq<Seq<char>>,
)
    requires
        lists_keys(live, live_names),
        lists_keys(loaded, loaded_names),
        loaded.dom() == live.dom(),
        forall|k: Seq<char>| live.dom().contains(k) ==> same_but_order(loaded[k], live[k]),
    ensures
        plan_spec(loaded, live, live_names, loaded_names) == quiet_plan(),
{
    lemma_quiet_names(loaded, live, live_names);
    lemma_nothing_gone(live, loaded_names);
    assert(plan_spec(loaded, live, live_names, loaded_names).actions =~= Seq::<LoadActionView>::empty());
}

/// Loading a patch over the copy kept of it from the last load does nothing.
pub proof fn law_reload_over_copy_is_quiet(
    live: Map<Seq<char>, PatchEntryView>,
    live_names: Seq<Seq<char>>,
    loaded_names: Seq<Seq<char>>,
)
    requires
        lists_keys(live, live_names),
        lists_keys(live.map_values(|e: PatchEntryView| entry_copy(e)), loaded_names),
    ensures
        plan_spec(live.map_values(|e: PatchEntryView| entry_copy(e)), live, live_names, loaded_names) == quiet_plan(),
{
    let loaded = live.map_values(|e: PatchEntryView| entry_copy(e));
    assert(loaded.dom() =~= live.dom());
    assert forall|k: Seq<char>| live.dom().contains(k) implies same_but_order(loaded[k], live[k]) by {
        assert(entry_copy(entry_copy(live[k])) =~~= entry_copy(live[k]));
    }
    law_unchanged_reload_is_quiet(loaded, live, live_names, loaded_names);
}


proof fn lemma_live_actions_cover(
    loaded: Map<Seq<char>, PatchEntryView>,
    live: Map<Seq<char>, PatchEntryView>,
    names: Seq<Seq<char>>,
    i: int,
    a: LoadActionView,
)
    requires
        0 <= i < names.len(),
        node_actions(loaded, live, names[i]).contains(a),
    ensures
        live_actions(loaded, live, names).contains(a),
    decreases names.len(),
{
    let prev = live_actions(loaded, live, names.drop_last());
    let last = node_actions(loaded, live, names.last());
    if i == names.len() - 1 {
        let w = choose|w: int| 0 <= w < last.len() && last[w] == a;
        assert(live_actions(loaded, live, names)[prev.len() + w] == a);
    } else {
        assert(names.drop_last()[i] == names[i]);
        lemma_live_actions_cover(loaded, live, names.drop_last(), i, a);
        let w = choose|w: int| 0 <= w < prev.len() && prev[w] == a;
        assert(live_actions(loaded, live, names)[w] == a);
    }
}

proof fn lemma_live_actions_never_despawn(
    loaded: Map<Seq<char>, PatchEntryView>,
    live: Map<Seq<char>, PatchEntryView>,
    names: Seq<Seq<char>>,
)
    ensures
        forall|i: int| 0 <= i < live_actions(loaded, live, names).len() ==> !(#[trigger] live_actions(loaded, live, names)[i] is Despawn),
    decreases names.len(),
{
    if names.len() > 0 {
        lemma_live_actions_never_despawn(loaded, live, names.drop_last());
        let prev = live_actions(loaded, live, names.drop_last());
        let last = node_actions(loaded, live, names.last());
        assert forall|i: int| 0 <= i < live_actions(loaded, live, names).len() implies !(#[trigger] live_actions(loaded, live, names)[i] is Despawn) by {
            if i < prev.len() {
                assert(live_actions(loaded, live, names)[i] == prev[i]);
            } else {
                assert(live_actions(loaded, live, names)[i] == last[i - prev.len()]);
            }
        }
    }
}

proof fn lemma_gone_actions(live: Map<Seq<char>, PatchEntryView>, names: Seq<Seq<char>>)
    ensures
        forall|i: int| 0 <= i < names.len() && !live.dom().contains(names[i]) ==> #[trigger] gone_actions(live, names).contains(LoadActionView::Despawn(names[i])),
        forall|i: int| 0 <= i < gone_actions(live, names).len() ==> {
            &&& (#[trigger] gone_actions(live, names)[i]) is Despawn
            &&& !live.dom().contains(gone_actions(live, names)[i]->Despawn_0)
        },
    decreases names.len(),
{
    if names.len() > 0 {
        lemma_gone_actions(live, names.drop_last());
        let prev = gone_actions(live, names.drop_last());
        let g = gone_actions(live, names);
        assert forall|i: int| 0 <= i < names.len() && !live.dom().contains(names[i]) implies #[trigger] g.contains(LoadActionView::Despawn(names[i])) by {
            if i == names.len() - 1 {
                assert(g[prev.len() as int] == LoadActionView::Despawn(names[i]));
            } else {
                assert(names.drop_last()[i] == names[i]);
                assert(prev.contains(LoadActionView::Despawn(names[i])));
                let w = choose|w: int| 0 <= w < prev.len() && prev[w] == LoadActionView::Despawn(names[i]);
                assert(g[w] == prev[w]);
            }
        }
        assert forall|i: int| 0 <= i < g.len() implies {
            &&& (#[trigger] g[i]) is Despawn
            &&& !live.dom().contains(g[i]->Despawn_0)
        } by {
            if i < prev.len() {
                assert(g[i] == prev[i]);
            }
        }
    }
}

/// Every node the live patch has and the loaded one lacks is spawned; every
/// node the loaded patch has and the live one lacks is despawned; and no
/// node the live patch has is despawned.
pub proof fn law_load_spawns_new_and_despawns_gone(
    loaded: Map<Seq<char>, PatchEntryView>,
    live: Map<Seq<char>, PatchEntryView>,
    live_names: Seq<Seq<char>>,
    loaded_names: Seq<Seq<char>>,
)
    requires
        lists_keys(live, live_names),
        lists_keys(loaded, loaded_names),
    ensures
        forall|k: Seq<char>| live.dom().contains(k) && !loaded.dom().contains(k) ==>
            #[trigger] plan_spec(loaded, live, live_names, loaded_names).actions.contains(LoadActionView::Spawn(k)),
        forall|k: Seq<char>| loaded.dom().contains(k) && !live.dom().contains(k) ==>
            #[trigger] plan_spec(loaded, live, live_names, loaded_names).actions.contains(LoadActionView::Despawn(k)),
        forall|k: Seq<char>| live.dom().contains(k) ==>
            !(#[trigger] plan_spec(loaded, live, live_names, loaded_names).actions.contains(LoadActionView::Despawn(k))),
{
    let acts = plan_spec(loaded, live, live_names, loaded_names).actions;
    let la = live_actions(loaded, live, live_names);
    let ga = gone_actions(live, loaded_names);
    lemma_gone_actions(live, loaded_names);
    lemma_live_actions_never_despawn(loaded, live, live_names);
    assert forall|k: Seq<char>| live.dom().contains(k) && !loaded.dom().contains(k) implies #[trigger] acts.contains(LoadActionView::Spawn(k)) by {
        let i = choose|i: int| 0 <= i < live_names.len() && #[trigger] live_names[i] == k;
        assert(node_actions(loaded, live, k)[0] == LoadActionView::Spawn(k));
        lemma_live_actions_cover(loaded, live, live_names, i, LoadActionView::Spawn(k));
        let w = choose|w: int| 0 <= w < la.len() && la[w] == LoadActionView::Spawn(k);
        assert(acts[w] == la[w]);
    }
    assert forall|k: Seq<char>| loaded.dom().contains(k) && !live.dom().contains(k) implies #[trigger] acts.contains(LoadActionView::Despawn(k)) by {
        let i = choose|i: int| 0 <= i < loaded_names.len() && #[trigger] loaded_names[i] == k;
        assert(ga.contains(LoadActionView::Despawn(loaded_names[i])));
        let w = choose|w: int| 0 <= w < ga.len() && ga[w] == LoadActionView::Despawn(k);
        assert(acts[la.len() + w] == ga[w]);
    }
    assert forall|k: Seq<char>| live.dom().contains(k) implies !(#[trigger] acts.contains(LoadActionView::Despawn(k))) by {
        if acts.contains(LoadActionView::Despawn(k)) {
            let w = choose|w: int| 0 <= w < acts.len() && acts[w] == LoadActionView::Despawn(k);
            if w < la.len() {
                assert(acts[w] == la[w]);
            } else {
                assert(acts[w] == ga[w - la.len()]);
            }
        }
    }
}


/// A node's running entities match its record in a patch: as many inlet and
/// outlet entities as the record has inlets and outlets.
pub open spec fn counts_match(v: MappedNodeView, e: PatchEntryView) -> bool {
    v.inlets.len() == e.ingoing.len() && v.outlets.len() == e.outgoing.len()
}

/// The map of running nodes is in line with a patch: the same names, and for
/// each, as many inlet and outlet entities as the patch gives it.
pub open spec fn in_line(m: Map<Seq<char>, MappedNodeView>, p: Map<Seq<char>, PatchEntryView>) -> bool {
    &&& m.dom() == p.dom()
    &&& forall|n: Seq<char>| #[trigger] p.dom().contains(n) ==> counts_match(m[n], p[n])
}

/// Every record of the patch has lists of inlets and outlets that fit in `usize`.
pub open spec fn sizes_fit(p: Map<Seq<char>, PatchEntryView>) -> bool {
    forall|n: Seq<char>| #[trigger] p.dom().contains(n) ==> p[n].ingoing.len() <= usize::MAX && p[n].outgoing.len() <= usize::MAX
}

/// What the map updates an action calls for require of the map.
pub open spec fn action_ready(m: Map<Seq<char>, MappedNodeView>, a: LoadActionView) -> bool {
    match a {
        LoadActionView::Spawn(_) => true,
        LoadActionView::Respawn(n) => m.dom().contains(n),
        LoadActionView::SetInput(n, _) => m.dom().contains(n),
        LoadActionView::AddInlets(n, f, t) => m.dom().contains(n) && f <= t,
        LoadActionView::RemoveInlets(n, f, t) => m.dom().contains(n) && f <= t && t - f <= m[n].inlets.len(),
        LoadActionView::AddOutlets(n, f, t) => m.dom().contains(n) && f <= t,
        LoadActionView::RemoveOutlets(n, f, t) => m.dom().contains(n) && f <= t && t - f <= m[n].outlets.len(),
        LoadActionView::Despawn(n) => m.dom().contains(n),
    }
}

/// A node just spawned, with no signal connection made yet.
pub open spec fn spawned_view(entity: u64, inlets: Seq<u64>, outlets: Seq<u64>) -> MappedNodeView {
    MappedNodeView { entity, inlets, outlets, signals: Seq::empty() }
}

/// A node with entities added at the end of its inlets.
pub open spec fn with_more_inlets(v: MappedNodeView, added: Seq<u64>) -> MappedNodeView {
    MappedNodeView { inlets: v.inlets + added, ..v }
}

/// A node with entities added at the end of its outlets.
pub open spec fn with_more_outlets(v: MappedNodeView, added: Seq<u64>) -> MappedNodeView {
    MappedNodeView { outlets: v.outlets + added, ..v }
}

/// `next` is what the map updates make of `m` when they carry out the action:
/// `record_spawn` (after `forget` for a respawn) with an entity for each inlet
/// and outlet the live patch gives the node, `add_inlets`/`add_outlets` with an
/// entity for each position added, `remove_inlets`/`remove_outlets` with the
/// number of positions removed, `forget` for a despawn. Which entities are new
/// is left open.
pub open spec fn action_done(
    m: Map<Seq<char>, MappedNodeView>,
    a: LoadActionView,
    live: Map<Seq<char>, PatchEntryView>,
    next: Map<Seq<char>, MappedNodeView>,
) -> bool {
    match a {
        LoadActionView::Spawn(n) => exists|e: u64, ins: Seq<u64>, outs: Seq<u64>|
            ins.len() == live[n].ingoing.len() && outs.len() == live[n].outgoing.len()
            && next == m.insert(n, #[trigger] spawned_view(e, ins, outs)),
        LoadActionView::Respawn(n) => exists|e: u64, ins: Seq<u64>, outs: Seq<u64>|
            ins.len() == live[n].ingoing.len() && outs.len() == live[n].outgoing.len()
            && next == m.remove(n).insert(n, #[trigger] spawned_view(e, ins, outs)),
        LoadActionView::SetInput(_, _) => next == m,
        LoadActionView::AddInlets(n, f, t) => exists|added: Seq<u64>|
            added.len() == t - f && next == m.insert(n, #[trigger] with_more_inlets(m[n], added)),
        LoadActionView::RemoveInlets(n, f, t) =>
            next == m.insert(n, MappedNodeView { inlets: m[n].inlets.take(m[n].inlets.len() - (t - f)), ..m[n] }),
        LoadActionView::AddOutlets(n, f, t) => exists|added: Seq<u64>|
            added.len() == t - f && next == m.insert(n, #[trigger] with_more_outlets(m[n], added)),
        LoadActionView::RemoveOutlets(n, f, t) =>
            next == m.insert(n, MappedNodeView { outlets: m[n].outlets.take(m[n].outlets.len() - (t - f)), ..m[n] }),
        LoadActionView::Despawn(n) => next == m.remove(n),
    }
}

/// `ms` is a run of the map through `actions`: each map is what carrying out
/// the next action makes of the one before.
pub open spec fn run_follows(
    ms: Seq<Map<Seq<char>, MappedNodeView>>,
    actions: Seq<LoadActionView>,
    live: Map<Seq<char>, PatchEntryView>,
) -> bool {
    &&& ms.len() == actions.len() + 1
    &&& forall|i: int| #![trigger actions[i]] 0 <= i < actions.len() ==> action_done(ms[i], actions[i], live, ms[i + 1])
}

/// Every map of the run meets what the next action requires of it.
pub open spec fn all_ready(ms: Seq<Map<Seq<char>, MappedNodeView>>, actions: Seq<LoadActionView>) -> bool {
    forall|i: int| #![trigger actions[i]] 0 <= i < actions.len() ==> action_ready(ms[i], actions[i])
}

/// Halfway through the live nodes: the map has the loaded names and those in
/// `done`; those in `done` match the live patch, the others the loaded one.
spec fn live_phase(
    m: Map<Seq<char>, MappedNodeView>,
    loaded: Map<Seq<char>, PatchEntryView>,
    live: Map<Seq<char>, PatchEntryView>,
    done: Seq<Seq<char>>,
) -> bool {
    &&& forall|n: Seq<char>|
        #![trigger m.dom().contains(n)]
        #![trigger loaded.dom().contains(n)]
        #![trigger done.contains(n)]
        m.dom().contains(n) <==> (loaded.dom().contains(n) || done.contains(n))
    &&& forall|n: Seq<char>| #[trigger] done.contains(n) ==> counts_match(m[n], live[n])
    &&& forall|n: Seq<char>| #[trigger] m.dom().contains(n) && !done.contains(n) ==> counts_match(m[n], loaded[n])
}

/// Halfway through the despawns: the map has the live names and the loaded
/// ones not in `gone`; the live ones match the live patch.
spec fn gone_phase(
    m: Map<Seq<char>, MappedNodeView>,
    loaded: Map<Seq<char>, PatchEntryView>,
    live: Map<Seq<char>, PatchEntryView>,
    gone: Seq<Seq<char>>,
) -> bool {
    &&& forall|n: Seq<char>|
        #![trigger m.dom().contains(n)]
        #![trigger live.dom().contains(n)]
        #![trigger loaded.dom().contains(n)]
        m.dom().contains(n) <==> (live.dom().contains(n) || (loaded.dom().contains(n) && !gone.contains(n)))
    &&& forall|n: Seq<char>| #[trigger] live.dom().contains(n) ==> counts_match(m[n], live[n])
}

proof fn lemma_push_contains(s: Seq<Seq<char>>, x: Seq<char>, n: Seq<char>)
    ensures
        s.push(x).contains(n) <==> (s.contains(n) || n == x),
{
    if s.contains(n) {
        let i = choose|i: int| 0 <= i < s.len() && s[i] == n;
        assert(s.push(x)[i] == n);
    }
    if n == x {
        assert(s.push(x)[s.len() as int] == n);
    }
    if s.push(x).contains(n) {
        let i = choose|i: int| 0 <= i < s.push(x).len() && s.push(x)[i] == n;
        if i < s.len() {
            assert(s[i] == n);
        }
    }
}

proof fn lemma_run_split(
    ms: Seq<Map<Seq<char>, MappedNodeView>>,
    a: Seq<LoadActionView>,
    b: Seq<LoadActionView>,
    live: Map<Seq<char>, PatchEntryView>,
)
    requires
        run_follows(ms, a + b, live),
    ensures
        run_follows(ms.take(a.len() as int + 1), a, live),
        run_follows(ms.skip(a.len() as int), b, live),
        ms.take(a.len() as int + 1)[0] == ms[0],
        ms.take(a.len() as int + 1).last() == ms[a.len() as int],
        ms.skip(a.len() as int)[0] == ms[a.len() as int],
        ms.skip(a.len() as int).last() == ms.last(),
{
    let ab = a + b;
    let front = ms.take(a.len() as int + 1);
    let back = ms.skip(a.len() as int);
    assert forall|i: int| #![trigger a[i]] 0 <= i < a.len() implies action_done(front[i], a[i], live, front[i + 1]) by {
        assert(ab[i] == a[i]);
    }
    assert forall|i: int| #![trigger b[i]] 0 <= i < b.len() implies action_done(back[i], b[i], live, back[i + 1]) by {
        assert(ab[a.len() + i] == b[i]);
        assert(back[i] == ms[a.len() + i]);
        assert(back[i + 1] == ms[a.len() + i + 1]);
    }
}

proof fn lemma_ready_join(
    ms: Seq<Map<Seq<char>, MappedNodeView>>,
    a: Seq<LoadActionView>,
    b: Seq<LoadActionView>,
)
    requires
        ms.len() == a.len() + b.len() + 1,
        all_ready(ms.take(a.len() as int + 1), a),
        all_ready(ms.skip(a.len() as int), b),
    ensures
        all_ready(ms, a + b),
{
    let ab = a + b;
    assert forall|i: int| #![trigger ab[i]] 0 <= i < ab.len() implies action_ready(ms[i], ab[i]) by {
        if i < a.len() {
            assert(ab[i] == a[i]);
            assert(ms.take(a.len() as int + 1)[i] == ms[i]);
        } else {
            let j = i - a.len();
            assert(ab[i] == b[j]);
            assert(ms.skip(a.len() as int)[j] == ms[i]);
        }
    }
}

/// Updating one name not yet done to match the live patch moves it to `done`.
proof fn lemma_live_phase_step(
    m: Map<Seq<char>, MappedNodeView>,
    loaded: Map<Seq<char>, PatchEntryView>,
    live: Map<Seq<char>, PatchEntryView>,
    done: Seq<Seq<char>>,
    n: Seq<char>,
    v: MappedNodeView,
)
    requires
        live_phase(m, loaded, live, done),
        !done.contains(n),
        counts_match(v, live[n]),
    ensures
        live_phase(m.insert(n, v), loaded, live, done.push(n)),
{
    let m2 = m.insert(n, v);
    let d2 = done.push(n);
    assert forall|x: Seq<char>| #![trigger m2.dom().contains(x)] #![trigger loaded.dom().contains(x)] #![trigger d2.contains(x)]
        m2.dom().contains(x) <==> (loaded.dom().contains(x) || d2.contains(x)) by {
        lemma_push_contains(done, n, x);
        assert(m.dom().contains(x) <==> (loaded.dom().contains(x) || done.contains(x)));
    }
    assert forall|x: Seq<char>| #[trigger] d2.contains(x) implies counts_match(m2[x], live[x]) by {
        lemma_push_contains(done, n, x);
        if x != n {
            assert(done.contains(x));
        }
    }
    assert forall|x: Seq<char>| #[trigger] m2.dom().contains(x) && !d2.contains(x) implies counts_match(m2[x], loaded[x]) by {
        lemma_push_contains(done, n, x);
        assert(m.dom().contains(x));
    }
}

/// Carrying out the actions for one live node not yet done meets their
/// requirements and brings that node in line with the live patch.
proof fn lemma_node_run(
    loaded: Map<Seq<char>, PatchEntryView>,
    live: Map<Seq<char>, PatchEntryView>,
    done: Seq<Seq<char>>,
    n: Seq<char>,
    ms: Seq<Map<Seq<char>, MappedNodeView>>,
)
    requires
        sizes_fit(loaded),
        sizes_fit(live),
        live.dom().contains(n),
        !done.contains(n),
        live_phase(ms[0], loaded, live, done),
        run_follows(ms, node_actions(loaded, live, n), live),
    ensures
        all_ready(ms, node_actions(loaded, live, n)),
        live_phase(ms.last(), loaded, live, done.push(n)),
{
    let acts = node_actions(loaded, live, n);
    let m = ms[0];
    let next = live[n];
    if !loaded.dom().contains(n) {
        assert(acts[0] == LoadActionView::Spawn(n));
        let (e, ins, outs) = choose|e: u64, ins: Seq<u64>, outs: Seq<u64>|
            ins.len() == live[n].ingoing.len() && outs.len() == live[n].outgoing.len()
            && ms[1] == m.insert(n, #[trigger] spawned_view(e, ins, outs));
        lemma_live_phase_step(m, loaded, live, done, n, spawned_view(e, ins, outs));
    } else {
        let prev = loaded[n];
        assert(m.dom().contains(n));
        assert(counts_match(m[n], prev));
        if must_respawn(prev, next) {
            assert(acts[0] == LoadActionView::Respawn(n));
            let (e, ins, outs) = choose|e: u64, ins: Seq<u64>, outs: Seq<u64>|
                ins.len() == live[n].ingoing.len() && outs.len() == live[n].outgoing.len()
                && ms[1] == m.remove(n).insert(n, #[trigger] spawned_view(e, ins, outs));
            assert(m.remove(n).insert(n, spawned_view(e, ins, outs)) =~= m.insert(n, spawned_view(e, ins, outs)));
            lemma_live_phase_step(m, loaded, live, done, n, spawned_view(e, ins, outs));
        } else {
            let s1 = input_actions(prev, next, n);
            let s2 = inlet_actions(prev, next, n);
            let s3 = outlet_actions(prev, next, n);
            assert(acts == s1 + s2 + s3);
            let k1 = s1.len() as int;
            let k2 = k1 + s2.len();
            let k3 = k2 + s3.len();
            assert(ms.len() == k3 + 1);
            // After the binding: the map is unchanged.
            if k1 == 1 {
                assert(acts[0] == s1[0]);
                assert(ms[1] == m);
            }
            assert(ms[k1] == m);
            // After the inlets.
            let v2 = if s2.len() == 1 {
                assert(acts[k1] == s2[0]);
                if next.ingoing.len() > prev.ingoing.len() {
                    let f = prev.ingoing.len() as usize;
                    let t = next.ingoing.len() as usize;
                    let added = choose|added: Seq<u64>|
                        added.len() == t - f && ms[k1 + 1] == m.insert(n, #[trigger] with_more_inlets(m[n], added));
                    with_more_inlets(m[n], added)
                } else {
                    MappedNodeView { inlets: m[n].inlets.take(next.ingoing.len() as int), ..m[n] }
                }
            } else {
                m[n]
            };
            assert(ms[k2] == m.insert(n, v2)) by {
                if s2.len() == 0 {
                    assert(m.insert(n, m[n]) =~= m);
                }
            }
            assert(v2.inlets.len() == next.ingoing.len());
            assert(v2.outlets == m[n].outlets);
            // After the outlets.
            let m2 = m.insert(n, v2);
            assert(m2[n] == v2);
            let v3 = if s3.len() == 1 {
                assert(acts[k2] == s3[0]);
                if next.outgoing.len() > prev.outgoing.len() {
                    let f = prev.outgoing.len() as usize;
                    let t = next.outgoing.len() as usize;
                    let added = choose|added: Seq<u64>|
                        added.len() == t - f && ms[k2 + 1] == m2.insert(n, #[trigger] with_more_outlets(m2[n], added));
                    with_more_outlets(v2, added)
                } else {
                    MappedNodeView { outlets: v2.outlets.take(next.outgoing.len() as int), ..v2 }
                }
            } else {
                v2
            };
            assert(ms[k3] == m.insert(n, v3)) by {
                assert(m2.insert(n, v3) =~= m.insert(n, v3));
                if s3.len() == 0 {
                    assert(m.insert(n, v2) =~= m2);
                }
            }
            assert(counts_match(v3, next));
            lemma_live_phase_step(m, loaded, live, done, n, v3);
            assert forall|i: int| #![trigger acts[i]] 0 <= i < acts.len() implies action_ready(ms[i], acts[i]) by {
                if i < k1 {
                    assert(acts[i] == s1[i]);
                } else if i < k2 {
                    assert(acts[i] == s2[0]);
                } else {
                    assert(acts[i] == s3[0]);
                    assert(ms[i] == m2);
                }
            }
        }
    }
}

/// Carrying out the actions of the live nodes `names` meets their
/// requirements and brings each of those nodes in line with the live patch.
proof fn lemma_live_run(
    loaded: Map<Seq<char>, PatchEntryView>,
    live: Map<Seq<char>, PatchEntryView>,
    names: Seq<Seq<char>>,
    ms: Seq<Map<Seq<char>, MappedNodeView>>,
)
    requires
        sizes_fit(loaded),
        sizes_fit(live),
        forall|i: int| 0 <= i < names.len() ==> live.dom().contains(#[trigger] names[i]),
        forall|i: int, j: int| 0 <= i < j < names.len() ==> names[i] != names[j],
        live_phase(ms[0], loaded, live, Seq::empty()),
        run_follows(ms, live_actions(loaded, live, names), live),
    ensures
        all_ready(ms, live_actions(loaded, live, names)),
        live_phase(ms.last(), loaded, live, names),
    decreases names.len(),
{
    if names.len() == 0 {
        assert(names =~= Seq::<Seq<char>>::empty());
    } else {
        let init = names.drop_last();
        let last = names.last();
        let pre = live_actions(loaded, live, init);
        let na = node_actions(loaded, live, last);
        lemma_run_split(ms, pre, na, live);
        let front = ms.take(pre.len() as int + 1);
        let back = ms.skip(pre.len() as int);
        assert forall|i: int| 0 <= i < init.len() implies live.dom().contains(#[trigger] init[i]) by {
            assert(init[i] == names[i]);
        }
        assert forall|i: int, j: int| 0 <= i < j < init.len() implies init[i] != init[j] by {
            assert(init[i] == names[i] && init[j] == names[j]);
        }
        lemma_live_run(loaded, live, init, front);
        assert(!init.contains(last)) by {
            if init.contains(last) {
                let i = choose|i: int| 0 <= i < init.len() && init[i] == last;
                assert(names[i] == names[names.len() - 1]);
            }
        }
        assert(live.dom().contains(last)) by {
            assert(names[names.len() - 1] == last);
        }
        lemma_node_run(loaded, live, init, last, back);
        assert(init.push(last) =~= names);
        lemma_ready_join(ms, pre, na);
    }
}

/// Carrying out the despawns of the loaded names `names` meets their
/// requirements and leaves the map with the live names and the loaded ones
/// not among `names`.
proof fn lemma_gone_run(
    loaded: Map<Seq<char>, PatchEntryView>,
    live: Map<Seq<char>, PatchEntryView>,
    names: Seq<Seq<char>>,
    ms: Seq<Map<Seq<char>, MappedNodeView>>,
)
    requires
        forall|i: int| 0 <= i < names.len() ==> loaded.dom().contains(#[trigger] names[i]),
        forall|i: int, j: int| 0 <= i < j < names.len() ==> names[i] != names[j],
        gone_phase(ms[0], loaded, live, Seq::empty()),
        run_follows(ms, gone_actions(live, names), live),
    ensures
        all_ready(ms, gone_actions(live, names)),
        gone_phase(ms.last(), loaded, live, names),
    decreases names.len(),
{
    if names.len() == 0 {
        assert(names =~= Seq::<Seq<char>>::empty());
    } else {
        let init = names.drop_last();
        let last = names.last();
        let pre = gone_actions(live, init);
        let tail: Seq<LoadActionView> = if live.dom().contains(last) { Seq::empty() } else { seq![LoadActionView::Despawn(last)] };
        assert(gone_actions(live, names) == pre + tail);
        lemma_run_split(ms, pre, tail, live);
        let front = ms.take(pre.len() as int + 1);
        let back = ms.skip(pre.len() as int);
        assert forall|i: int| 0 <= i < init.len() implies loaded.dom().contains(#[trigger] init[i]) by {
            assert(init[i] == names[i]);
        }
        assert forall|i: int, j: int| 0 <= i < j < init.len() implies init[i] != init[j] by {
            assert(init[i] == names[i] && init[j] == names[j]);
        }
        lemma_gone_run(loaded, live, init, front);
        assert(!init.contains(last)) by {
            if init.contains(last) {
                let i = choose|i: int| 0 <= i < init.len() && init[i] == last;
                assert(names[i] == names[names.len() - 1]);
            }
        }
        assert(loaded.dom().contains(last)) by {
            assert(names[names.len() - 1] == last);
        }
        assert(init.push(last) =~= names);
        let m = ms[pre.len() as int];
        let m2 = ms.last();
        if live.dom().contains(last) {
            assert(m2 == m);
        } else {
            assert(tail[0] == LoadActionView::Despawn(last));
            assert(back[1] == m.remove(last));
            assert(m.dom().contains(last));
        }
        assert forall|x: Seq<char>|
            #![trigger m2.dom().contains(x)]
            #![trigger live.dom().contains(x)]
            #![trigger loaded.dom().contains(x)]
            m2.dom().contains(x) <==> (live.dom().contains(x) || (loaded.dom().contains(x) && !names.contains(x))) by {
            lemma_push_contains(init, last, x);
            assert(m.dom().contains(x) <==> (live.dom().contains(x) || (loaded.dom().contains(x) && !init.contains(x))));
        }
        assert forall|x: Seq<char>| #[trigger] live.dom().contains(x) implies counts_match(m2[x], live[x]) by {
            assert(counts_match(m[x], live[x]));
        }
        assert forall|i: int| #![trigger tail[i]] 0 <= i < tail.len() implies action_ready(back[i], tail[i]) by {
            assert(back[0] == m);
        }
        lemma_ready_join(ms, pre, tail);
    }
}

/// Carrying out a load plan keeps the map of running nodes in line with the
/// patch: when the map matches the loaded patch (the same names, and as many
/// inlet and outlet entities as each node has inlets and outlets), every map
/// update of the plan finds what it requires, and the map it leaves matches
/// the live patch.
pub proof fn law_load_keeps_map_in_line(
    loaded: Map<Seq<char>, PatchEntryView>,
    live: Map<Seq<char>, PatchEntryView>,
    live_names: Seq<Seq<char>>,
    loaded_names: Seq<Seq<char>>,
    ms: Seq<Map<Seq<char>, MappedNodeView>>,
)
    requires
        lists_keys(live, live_names),
        lists_keys(loaded, loaded_names),
        sizes_fit(loaded),
        sizes_fit(live),
        run_follows(ms, plan_spec(loaded, live, live_names, loaded_names).actions, live),
        in_line(ms[0], loaded),
    ensures
        all_ready(ms, plan_spec(loaded, live, live_names, loaded_names).actions),
        in_line(ms.last(), live),
{
    let la = live_actions(loaded, live, live_names);
    let ga = gone_actions(live, loaded_names);
    lemma_run_split(ms, la, ga, live);
    let front = ms.take(la.len() as int + 1);
    let back = ms.skip(la.len() as int);
    let m0 = ms[0];
    let empty = Seq::<Seq<char>>::empty();
    assert forall|n: Seq<char>|
        #![trigger m0.dom().contains(n)]
        #![trigger loaded.dom().contains(n)]
        #![trigger empty.contains(n)]
        m0.dom().contains(n) <==> (loaded.dom().contains(n) || empty.contains(n)) by {
    }
    assert(live_phase(m0, loaded, live, empty));
    lemma_live_run(loaded, live, live_names, front);
    let mid = ms[la.len() as int];
    assert forall|n: Seq<char>|
        #![trigger mid.dom().contains(n)]
        #![trigger live.dom().contains(n)]
        #![trigger loaded.dom().contains(n)]
        mid.dom().contains(n) <==> (live.dom().contains(n) || (loaded.dom().contains(n) && !empty.contains(n))) by {
        if live.dom().contains(n) {
            let i = choose|i: int| 0 <= i < live_names.len() && #[trigger] live_names[i] == n;
            assert(live_names.contains(n));
        }
        if live_names.contains(n) {
            let i = choose|i: int| 0 <= i < live_names.len() && live_names[i] == n;
            assert(live.dom().contains(live_names[i]));
        }
    }
    assert forall|n: Seq<char>| #[trigger] live.dom().contains(n) implies counts_match(mid[n], live[n]) by {
        let i = choose|i: int| 0 <= i < live_names.len() && #[trigger] live_names[i] == n;
        assert(live_names.contains(n));
    }
    lemma_gone_run(loaded, live, loaded_names, back);
    let last = ms.last();
    assert forall|n: Seq<char>| #[trigger] last.dom().contains(n) <==> live.dom().contains(n) by {
        if loaded.dom().contains(n) {
            let i = choose|i: int| 0 <= i < loaded_names.len() && #[trigger] loaded_names[i] == n;
            assert(loaded_names.contains(n));
        }
    }
    assert(last.dom() =~= live.dom());
    lemma_ready_join(ms, la, ga);
}


/// What an action asks of the live patch: a node to spawn is in it, and
/// positions to add run upwards.
pub open spec fn action_sound(a: LoadActionView, live: Map<Seq<char>, PatchEntryView>) -> bool {
    match a {
        LoadActionView::Spawn(n) => live.dom().contains(n),
        LoadActionView::Respawn(n) => live.dom().contains(n),
        LoadActionView::AddInlets(_, f, t) => f <= t,
        LoadActionView::AddOutlets(_, f, t) => f <= t,
        _ => true,
    }
}

/// How many new entities an action takes: for a spawn, the node and each of
/// its inlets and outlets; for added inlets or outlets, one for each.
pub open spec fn entities_for(a: LoadActionView, live: Map<Seq<char>, PatchEntryView>) -> nat {
    match a {
        LoadActionView::Spawn(n) => if live.dom().contains(n) { 1 + live[n].ingoing.len() + live[n].outgoing.len() } else { 0 },
        LoadActionView::Respawn(n) => if live.dom().contains(n) { 1 + live[n].ingoing.len() + live[n].outgoing.len() } else { 0 },
        LoadActionView::AddInlets(_, f, t) => if f <= t { (t - f) as nat } else { 0 },
        LoadActionView::AddOutlets(_, f, t) => if f <= t { (t - f) as nat } else { 0 },
        _ => 0,
    }
}

/// How many new entities a list of actions takes.
pub open spec fn entities_needed_spec(actions: Seq<LoadActionView>, live: Map<Seq<char>, PatchEntryView>) -> nat
    decreases actions.len(),
{
    if actions.len() == 0 {
        0
    } else {
        entities_needed_spec(actions.drop_last(), live) + entities_for(actions.last(), live)
    }
}

/// What carrying out one action did to the entities: the node's entity, the
/// inlet and outlet entities it gained, and the entities it let go.
pub struct ActionEffect {
    pub node: u64,
    pub inlets: Vec<u64>,
    pub outlets: Vec<u64>,
    pub dropped: Vec<u64>,
}

pub struct ActionEffectView {
    pub node: u64,
    pub inlets: Seq<u64>,
    pub outlets: Seq<u64>,
    pub dropped: Seq<u64>,
}

impl View for ActionEffect {
    type V = ActionEffectView;

    open spec fn view(&self) -> ActionEffectView {
        ActionEffectView { node: self.node, inlets: self.inlets@, outlets: self.outlets@, dropped: self.dropped@ }
    }
}

pub open spec fn effects_view(v: Seq<ActionEffect>) -> Seq<ActionEffectView> {
    v.map_values(|e: ActionEffect| e@)
}

/// The effect of an action with no new or dropped entities.
pub open spec fn plain_effect(node: u64) -> ActionEffectView {
    ActionEffectView { node, inlets: Seq::empty(), outlets: Seq::empty(), dropped: Seq::empty() }
}

/// Carrying out action `a` on the map `m`, with the new entities `fresh`,
/// gave the map `next` and the effect `e`:
/// - a spawn takes the first new entity for the node, then one for each inlet,
///   then one for each outlet (a respawn first lets the old ones go);
/// - a new binding touches no entity;
/// - added inlets or outlets take the new entities in order;
/// - removed inlets or outlets let the last ones go, last first;
/// - a despawn lets the node, its inlets and its outlets go.
pub open spec fn effect_of(
    m: Map<Seq<char>, MappedNodeView>,
    a: LoadActionView,
    live: Map<Seq<char>, PatchEntryView>,
    next: Map<Seq<char>, MappedNodeView>,
    e: ActionEffectView,
    fresh: Seq<u64>,
) -> bool {
    match a {
        LoadActionView::Spawn(n) => {
            let i = live[n].ingoing.len() as int;
            &&& live.dom().contains(n)
            &&& e == (ActionEffectView {
                node: fresh[0],
                inlets: fresh.subrange(1, 1 + i),
                outlets: fresh.subrange(1 + i, fresh.len() as int),
                dropped: Seq::empty(),
            })
            &&& next == m.insert(n, spawned_view(e.node, e.inlets, e.outlets))
        },
        LoadActionView::Respawn(n) => {
            let i = live[n].ingoing.len() as int;
            &&& live.dom().contains(n)
            &&& e == (ActionEffectView {
                node: fresh[0],
                inlets: fresh.subrange(1, 1 + i),
                outlets: fresh.subrange(1 + i, fresh.len() as int),
                dropped: seq![m[n].entity] + m[n].inlets + m[n].outlets,
            })
            &&& next == m.remove(n).insert(n, spawned_view(e.node, e.inlets, e.outlets))
        },
        LoadActionView::SetInput(n, _) => e == plain_effect(m[n].entity) && next == m,
        LoadActionView::AddInlets(n, _, _) =>
            e == (ActionEffectView { inlets: fresh, ..plain_effect(m[n].entity) })
            && next == m.insert(n, with_more_inlets(m[n], fresh)),
        LoadActionView::RemoveInlets(n, f, t) =>
            e == (ActionEffectView {
                dropped: m[n].inlets.skip(m[n].inlets.len() - (t - f)).reverse(),
                ..plain_effect(m[n].entity)
            })
            && next == m.insert(n, MappedNodeView { inlets: m[n].inlets.take(m[n].inlets.len() - (t - f)), ..m[n] }),
        LoadActionView::AddOutlets(n, _, _) =>
            e == (ActionEffectView { outlets: fresh, ..plain_effect(m[n].entity) })
            && next == m.insert(n, with_more_outlets(m[n], fresh)),
        LoadActionView::RemoveOutlets(n, f, t) =>
            e == (ActionEffectView {
                dropped: m[n].outlets.skip(m[n].outlets.len() - (t - f)).reverse(),
                ..plain_effect(m[n].entity)
            })
            && next == m.insert(n, MappedNodeView { outlets: m[n].outlets.take(m[n].outlets.len() - (t - f)), ..m[n] }),
        LoadActionView::Despawn(n) =>
            e == (ActionEffectView { dropped: seq![m[n].entity] + m[n].inlets + m[n].outlets, ..plain_effect(m[n].entity) })
            && next == m.remove(n),
    }
}

/// The new entities that the action at `k` takes out of `fresh`.
pub open spec fn fresh_for(
    actions: Seq<LoadActionView>,
    live: Map<Seq<char>, PatchEntryView>,
    fresh: Seq<u64>,
    k: int,
) -> Seq<u64> {
    fresh.subrange(
        entities_needed_spec(actions.take(k), live) as int,
        entities_needed_spec(actions.take(k + 1), live) as int,
    )
}

/// `ms` is the run of the map through `actions` that carrying them out gave,
/// with `effects` the effect of each and `fresh` the new entities taken in
/// order.
pub open spec fn carried_out(
    ms: Seq<Map<Seq<char>, MappedNodeView>>,
    actions: Seq<LoadActionView>,
    live: Map<Seq<char>, PatchEntryView>,
    effects: Seq<ActionEffectView>,
    fresh: Seq<u64>,
) -> bool {
    &&& run_follows(ms, actions, live)
    &&& effects.len() == actions.len()
    &&& entities_needed_spec(actions, live) <= fresh.len()
    &&& forall|k: int| #![trigger effects[k]] 0 <= k < actions.len() ==>
        effect_of(ms[k], actions[k], live, ms[k + 1], effects[k], fresh_for(actions, live, fresh, k))
}

/// A next map for the action, with the entity 0 wherever a new one is needed.
spec fn some_next(
    m: Map<Seq<char>, MappedNodeView>,
    a: LoadActionView,
    live: Map<Seq<char>, PatchEntryView>,
) -> Map<Seq<char>, MappedNodeView> {
    match a {
        LoadActionView::Spawn(n) => m.insert(n, spawned_view(
            0,
            Seq::new(live[n].ingoing.len(), |j: int| 0u64),
            Seq::new(live[n].outgoing.len(), |j: int| 0u64),
        )),
        LoadActionView::Respawn(n) => m.remove(n).insert(n, spawned_view(
            0,
            Seq::new(live[n].ingoing.len(), |j: int| 0u64),
            Seq::new(live[n].outgoing.len(), |j: int| 0u64),
        )),
        LoadActionView::SetInput(_, _) => m,
        LoadActionView::AddInlets(n, f, t) => m.insert(n, with_more_inlets(m[n], Seq::new((t - f) as nat, |j: int| 0u64))),
        LoadActionView::RemoveInlets(n, f, t) =>
            m.insert(n, MappedNodeView { inlets: m[n].inlets.take(m[n].inlets.len() - (t - f)), ..m[n] }),
        LoadActionView::AddOutlets(n, f, t) => m.insert(n, with_more_outlets(m[n], Seq::new((t - f) as nat, |j: int| 0u64))),
        LoadActionView::RemoveOutlets(n, f, t) =>
            m.insert(n, MappedNodeView { outlets: m[n].outlets.take(m[n].outlets.len() - (t - f)), ..m[n] }),
        LoadActionView::Despawn(n) => m.remove(n),
    }
}

proof fn lemma_some_next(m: Map<Seq<char>, MappedNodeView>, a: LoadActionView, live: Map<Seq<char>, PatchEntryView>)
    requires
        action_sound(a, live),
    ensures
        action_done(m, a, live, some_next(m, a, live)),
{
    match a {
        LoadActionView::Spawn(n) => {
            let ins = Seq::new(live[n].ingoing.len(), |j: int| 0u64);
            let outs = Seq::new(live[n].outgoing.len(), |j: int| 0u64);
            assert(some_next(m, a, live) == m.insert(n, spawned_view(0, ins, outs)));
        },
        LoadActionView::Respawn(n) => {
            let ins = Seq::new(live[n].ingoing.len(), |j: int| 0u64);
            let outs = Seq::new(live[n].outgoing.len(), |j: int| 0u64);
            assert(some_next(m, a, live) == m.remove(n).insert(n, spawned_view(0, ins, outs)));
        },
        LoadActionView::AddInlets(n, f, t) => {
            let added = Seq::new((t - f) as nat, |j: int| 0u64);
            assert(some_next(m, a, live) == m.insert(n, with_more_inlets(m[n], added)));
        },
        LoadActionView::AddOutlets(n, f, t) => {
            let added = Seq::new((t - f) as nat, |j: int| 0u64);
            assert(some_next(m, a, live) == m.insert(n, with_more_outlets(m[n], added)));
        },
        _ => {},
    }
}

/// Some run of the map through `rest`, from `m`.
spec fn extend_run(
    m: Map<Seq<char>, MappedNodeView>,
    rest: Seq<LoadActionView>,
    live: Map<Seq<char>, PatchEntryView>,
) -> Seq<Map<Seq<char>, MappedNodeView>>
    decreases rest.len(),
{
    if rest.len() == 0 {
        seq![m]
    } else {
        seq![m] + extend_run(some_next(m, rest[0], live), rest.drop_first(), live)
    }
}

proof fn lemma_extend_run(m: Map<Seq<char>, MappedNodeView>, rest: Seq<LoadActionView>, live: Map<Seq<char>, PatchEntryView>)
    requires
        forall|i: int| 0 <= i < rest.len() ==> action_sound(#[trigger] rest[i], live),
    ensures
        run_follows(extend_run(m, rest, live), rest, live),
        extend_run(m, rest, live)[0] == m,
    decreases rest.len(),
{
    if rest.len() > 0 {
        let tail_acts = rest.drop_first();
        let m1 = some_next(m, rest[0], live);
        assert forall|i: int| 0 <= i < tail_acts.len() implies action_sound(#[trigger] tail_acts[i], live) by {
            assert(tail_acts[i] == rest[i + 1]);
        }
        lemma_extend_run(m1, tail_acts, live);
        lemma_some_next(m, rest[0], live);
        let ext = extend_run(m, rest, live);
        let tail = extend_run(m1, tail_acts, live);
        assert(ext == seq![m] + tail);
        assert forall|i: int| #![trigger rest[i]] 0 <= i < rest.len() implies action_done(ext[i], rest[i], live, ext[i + 1]) by {
            if i == 0 {
                assert(ext[1] == tail[0]);
            } else {
                assert(tail_acts[i - 1] == rest[i]);
                assert(ext[i] == tail[i - 1]);
                assert(ext[i + 1] == tail[i]);
            }
        }
    }
}

proof fn lemma_run_join(
    ms1: Seq<Map<Seq<char>, MappedNodeView>>,
    a: Seq<LoadActionView>,
    ms2: Seq<Map<Seq<char>, MappedNodeView>>,
    b: Seq<LoadActionView>,
    live: Map<Seq<char>, PatchEntryView>,
)
    requires
        run_follows(ms1, a, live),
        run_follows(ms2, b, live),
        ms1.last() == ms2[0],
    ensures
        run_follows(ms1.drop_last() + ms2, a + b, live),
        (ms1.drop_last() + ms2)[0] == ms1[0],
        (ms1.drop_last() + ms2)[a.len() as int] == ms2[0],
{
    let ms = ms1.drop_last() + ms2;
    let ab = a + b;
    assert forall|i: int| #![trigger ab[i]] 0 <= i < ab.len() implies action_done(ms[i], ab[i], live, ms[i + 1]) by {
        if i < a.len() {
            assert(ab[i] == a[i]);
            assert(ms[i] == ms1[i]);
            if i + 1 < a.len() {
                assert(ms[i + 1] == ms1[i + 1]);
            } else {
                assert(ms[i + 1] == ms2[0]);
            }
        } else {
            let j = i - a.len();
            assert(ab[i] == b[j]);
            assert(ms[i] == ms2[j]);
            assert(ms[i + 1] == ms2[j + 1]);
        }
    }
    if a.len() == 0 {
        assert(ms[0] == ms2[0]);
    } else {
        assert(ms[0] == ms1[0]);
    }
}

proof fn lemma_needed_prefix(actions: Seq<LoadActionView>, live: Map<Seq<char>, PatchEntryView>, k: int)
    requires
        0 <= k <= actions.len(),
    ensures
        entities_needed_spec(actions.take(k), live) <= entities_needed_spec(actions, live),
    decreases actions.len(),
{
    if k < actions.len() {
        lemma_needed_prefix(actions.drop_last(), live, k);
        assert(actions.drop_last().take(k) =~= actions.take(k));
    } else {
        assert(actions.take(k) =~= actions);
    }
}

proof fn lemma_live_actions_sound(
    loaded: Map<Seq<char>, PatchEntryView>,
    live: Map<Seq<char>, PatchEntryView>,
    names: Seq<Seq<char>>,
)
    requires
        sizes_fit(loaded),
        sizes_fit(live),
        forall|i: int| 0 <= i < names.len() ==> live.dom().contains(#[trigger] names[i]),
    ensures
        forall|i: int| 0 <= i < live_actions(loaded, live, names).len() ==> action_sound(#[trigger] live_actions(loaded, live, names)[i], live),
    decreases names.len(),
{
    if names.len() > 0 {
        let init = names.drop_last();
        let n = names.last();
        assert forall|i: int| 0 <= i < init.len() implies live.dom().contains(#[trigger] init[i]) by {
            assert(init[i] == names[i]);
        }
        lemma_live_actions_sound(loaded, live, init);
        assert(live.dom().contains(n)) by {
            assert(names[names.len() - 1] == n);
        }
        let pre = live_actions(loaded, live, init);
        let na = node_actions(loaded, live, n);
        let all = live_actions(loaded, live, names);
        assert forall|i: int| 0 <= i < na.len() implies action_sound(#[trigger] na[i], live) by {
            if loaded.dom().contains(n) && !must_respawn(loaded[n], live[n]) {
                let prev = loaded[n];
                let next = live[n];
                let s1 = input_actions(prev, next, n);
                let s2 = inlet_actions(prev, next, n);
                let s3 = outlet_actions(prev, next, n);
                assert(na == s1 + s2 + s3);
                if i < s1.len() {
                    assert(na[i] == s1[i]);
                } else if i < s1.len() + s2.len() {
                    assert(na[i] == s2[i - s1.len()]);
                } else {
                    assert(na[i] == s3[i - s1.len() - s2.len()]);
                }
            }
        }
        assert forall|i: int| 0 <= i < all.len() implies action_sound(#[trigger] all[i], live) by {
            if i < pre.len() {
                assert(all[i] == pre[i]);
            } else {
                assert(all[i] == na[i - pre.len()]);
            }
        }
    }
}

proof fn lemma_plan_sound(
    loaded: Map<Seq<char>, PatchEntryView>,
    live: Map<Seq<char>, PatchEntryView>,
    live_names: Seq<Seq<char>>,
    loaded_names: Seq<Seq<char>>,
)
    requires
        sizes_fit(loaded),
        sizes_fit(live),
        lists_keys(live, live_names),
    ensures
        forall|i: int| 0 <= i < plan_spec(loaded, live, live_names, loaded_names).actions.len()
            ==> action_sound(#[trigger] plan_spec(loaded, live, live_names, loaded_names).actions[i], live),
{
    let la = live_actions(loaded, live, live_names);
    let ga = gone_actions(live, loaded_names);
    let acts = plan_spec(loaded, live, live_names, loaded_names).actions;
    lemma_live_actions_sound(loaded, live, live_names);
    lemma_gone_actions(live, loaded_names);
    assert forall|i: int| 0 <= i < acts.len() implies action_sound(#[trigger] acts[i], live) by {
        if i < la.len() {
            assert(acts[i] == la[i]);
        } else {
            assert(acts[i] == ga[i - la.len()]);
        }
    }
}


/// The entities `v[from..to]`.
fn fresh_slice(v: &Vec<u64>, from: usize, to: usize) -> (r: Vec<u64>)
    requires
        from <= to <= v.len(),
    ensures
        r@ == v@.subrange(from as int, to as int),
{
    let mut r: Vec<u64> = Vec::new();
    let mut i: usize = from;
    while i < to
        invariant
            from <= i <= to <= v.len(),
            r@ == v@.subrange(from as int, i as int),
        decreases to - i,
    {
        r.push(v[i]);
        i = i + 1;
        proof {
            assert(r@ =~= v@.subrange(from as int, i as int));
        }
    }
    r
}

/// How many new entities the action takes, when that fits in `usize`.
fn action_entities(a: &LoadAction, live: &Patch) -> (r: Option<usize>)
    ensures
        r matches Some(k) ==> k == entities_for(a@, live@),
        r is None ==> entities_for(a@, live@) > usize::MAX,
{
    match a {
        LoadAction::Spawn(n) | LoadAction::Respawn(n) => {
            match live.entry(n) {
                Some(e) => {
                    let ni = e.ingoing.0.len();
                    let no = e.outgoing.0.len();
                    match ni.checked_add(no) {
                        Some(s) => s.checked_add(1),
                        None => None,
                    }
                },
                None => Some(0),
            }
        },
        LoadAction::AddInlets(_, f, t) | LoadAction::AddOutlets(_, f, t) => {
            if *f <= *t { Some(*t - *f) } else { Some(0) }
        },
        _ => Some(0),
    }
}

/// How many new entities carrying out the plan takes, when that fits in `usize`.
pub fn entities_needed(plan: &LoadPlan, live: &Patch) -> (r: Option<usize>)
    ensures
        r matches Some(k) ==> k == entities_needed_spec(plan@.actions, live@),
        r is None ==> entities_needed_spec(plan@.actions, live@) > usize::MAX,
{
    let ghost acts = plan@.actions;
    let mut total: usize = 0;
    let mut i: usize = 0;
    while i < plan.actions.len()
        invariant
            0 <= i <= plan.actions.len(),
            acts == plan@.actions,
            total == entities_needed_spec(acts.take(i as int), live@),
        decreases plan.actions.len() - i,
    {
        proof {
            assert(acts.take(i + 1).drop_last() =~= acts.take(i as int));
            assert(acts[i as int] == plan.actions@[i as int]@);
            lemma_needed_prefix(acts, live@, i + 1);
        }
        match action_entities(&plan.actions[i], live) {
            Some(k) => {
                match total.checked_add(k) {
                    Some(t) => {
                        total = t;
                    },
                    None => {
                        return None;
                    },
                }
            },
            None => {
                return None;
            },
        }
        i = i + 1;
    }
    proof {
        assert(acts.take(plan.actions.len() as int) =~= acts);
    }
    Some(total)
}

fn action_sound_exec(a: &LoadAction, live: &Patch) -> (r: bool)
    ensures
        r == action_sound(a@, live@),
{
    match a {
        LoadAction::Spawn(n) | LoadAction::Respawn(n) => live.entry(n).is_some(),
        LoadAction::AddInlets(_, f, t) | LoadAction::AddOutlets(_, f, t) => *f <= *t,
        _ => true,
    }
}

impl PatchMap {
    fn action_ready_exec(&self, a: &LoadAction) -> (r: bool)
        ensures
            r == action_ready(self@, a@),
    {
        match a {
            LoadAction::Spawn(_) => true,
            LoadAction::Respawn(n) | LoadAction::SetInput(n, _) | LoadAction::Despawn(n) => self.entry(n).is_some(),
            LoadAction::AddInlets(n, f, t) | LoadAction::AddOutlets(n, f, t) => self.entry(n).is_some() && *f <= *t,
            LoadAction::RemoveInlets(n, f, t) => match self.entry(n) {
                Some(e) => *f <= *t && *t - *f <= e.inlets.len(),
                None => false,
            },
            LoadAction::RemoveOutlets(n, f, t) => match self.entry(n) {
                Some(e) => *f <= *t && *t - *f <= e.outlets.len(),
                None => false,
            },
        }
    }

    /// Spawns the live node `n` with new entities from `fresh`, starting at `used`.
    fn spawn_from(&mut self, n: &String, live: &Patch, fresh: &Vec<u64>, used: usize) -> (e: ActionEffect)
        requires
            live@.dom().contains(n@),
            used + 1 + live@[n@].ingoing.len() + live@[n@].outgoing.len() <= fresh.len(),
        ensures
            ({
                let fr = fresh@.subrange(used as int, used + 1 + live@[n@].ingoing.len() + live@[n@].outgoing.len());
                let i = live@[n@].ingoing.len() as int;
                &&& e@ == (ActionEffectView {
                    node: fr[0],
                    inlets: fr.subrange(1, 1 + i),
                    outlets: fr.subrange(1 + i, fr.len() as int),
                    dropped: Seq::empty(),
                })
                &&& final(self)@ == old(self)@.insert(n@, spawned_view(e@.node, e@.inlets, e@.outlets))
            }),
    {
        let entry = live.entry(n).unwrap();
        let ni = entry.ingoing.0.len();
        let no = entry.outgoing.0.len();
        let node = fresh[used];
        let ins = fresh_slice(fresh, used + 1, used + 1 + ni);
        let outs = fresh_slice(fresh, used + 1 + ni, used + 1 + ni + no);
        self.record_spawn(n.clone(), node, fresh_slice(fresh, used + 1, used + 1 + ni), fresh_slice(fresh, used + 1 + ni, used + 1 + ni + no));
        let e = ActionEffect { node, inlets: ins, outlets: outs, dropped: Vec::new() };
        proof {
            let fr = fresh@.subrange(used as int, used + 1 + live@[n@].ingoing.len() + live@[n@].outgoing.len());
            assert(fr.subrange(1, 1 + ni) =~= fresh@.subrange(used + 1, used + 1 + ni));
            assert(fr.subrange(1 + ni, fr.len() as int) =~= fresh@.subrange(used + 1 + ni, used + 1 + ni + no));
            assert(e@.dropped =~= Seq::<u64>::empty());
        }
        e
    }

    /// Carries out one action of a load plan on the map.
    fn apply_action(&mut self, a: &LoadAction, live: &Patch, fresh: &Vec<u64>, used: usize) -> (e: ActionEffect)
        requires
            action_ready(old(self)@, a@),
            action_sound(a@, live@),
            used + entities_for(a@, live@) <= fresh.len(),
        ensures
            effect_of(old(self)@, a@, live@, final(self)@, e@, fresh@.subrange(used as int, used + entities_for(a@, live@))),
    {
        match a {
            LoadAction::Spawn(n) => self.spawn_from(n, live, fresh, used),
            LoadAction::Respawn(n) => {
                let dropped = self.forget(n);
                let mut e = self.spawn_from(n, live, fresh, used);
                e.dropped = dropped;
                proof {
                    assert(old(self)@.remove(n@).insert(n@, spawned_view(e@.node, e@.inlets, e@.outlets)) == self@);
                }
                e
            },
            LoadAction::SetInput(n, _) => {
                let node = self.entry(n).unwrap().entity;
                let e = ActionEffect { node, inlets: Vec::new(), outlets: Vec::new(), dropped: Vec::new() };
                proof {
                    assert(e@ =~= plain_effect(node));
                }
                e
            },
            LoadAction::AddInlets(n, f, t) => {
                let node = self.entry(n).unwrap().entity;
                let added = fresh_slice(fresh, used, used + (*t - *f));
                self.add_inlets(n, fresh_slice(fresh, used, used + (*t - *f)));
                let e = ActionEffect { node, inlets: added, outlets: Vec::new(), dropped: Vec::new() };
                proof {
                    assert(e@ =~= (ActionEffectView { inlets: added@, ..plain_effect(node) }));
                    assert(self@ == old(self)@.insert(n@, with_more_inlets(old(self)@[n@], added@)));
                }
                e
            },
            LoadAction::AddOutlets(n, f, t) => {
                let node = self.entry(n).unwrap().entity;
                let added = fresh_slice(fresh, used, used + (*t - *f));
                self.add_outlets(n, fresh_slice(fresh, used, used + (*t - *f)));
                let e = ActionEffect { node, inlets: Vec::new(), outlets: added, dropped: Vec::new() };
                proof {
                    assert(e@ =~= (ActionEffectView { outlets: added@, ..plain_effect(node) }));
                    assert(self@ == old(self)@.insert(n@, with_more_outlets(old(self)@[n@], added@)));
                }
                e
            },
            LoadAction::RemoveInlets(n, f, t) => {
                let node = self.entry(n).unwrap().entity;
                let dropped = self.remove_inlets(n, *t - *f);
                let e = ActionEffect { node, inlets: Vec::new(), outlets: Vec::new(), dropped };
                proof {
                    assert(e@ =~= (ActionEffectView { dropped: dropped@, ..plain_effect(node) }));
                }
                e
            },
            LoadAction::RemoveOutlets(n, f, t) => {
                let node = self.entry(n).unwrap().entity;
                let dropped = self.remove_outlets(n, *t - *f);
                let e = ActionEffect { node, inlets: Vec::new(), outlets: Vec::new(), dropped };
                proof {
                    assert(e@ =~= (ActionEffectView { dropped: dropped@, ..plain_effect(node) }));
                }
                e
            },
            LoadAction::Despawn(n) => {
                let node = self.entry(n).unwrap().entity;
                let dropped = self.forget(n);
                let e = ActionEffect { node, inlets: Vec::new(), outlets: Vec::new(), dropped };
                proof {
                    assert(e@ =~= (ActionEffectView { dropped: dropped@, ..plain_effect(node) }));
                }
                e
            },
        }
    }
}


/// What a load plan asks of the map and of the patches it was made from:
/// it is the plan for `live` over `loaded` in some order of their names, the
/// map matches `loaded`, and there are enough new entities.
pub open spec fn load_fits(
    m: Map<Seq<char>, MappedNodeView>,
    actions: Seq<LoadActionView>,
    loaded: Map<Seq<char>, PatchEntryView>,
    live: Map<Seq<char>, PatchEntryView>,
    live_names: Seq<Seq<char>>,
    loaded_names: Seq<Seq<char>>,
    fresh: nat,
) -> bool {
    &&& lists_keys(live, live_names)
    &&& lists_keys(loaded, loaded_names)
    &&& sizes_fit(loaded)
    &&& sizes_fit(live)
    &&& actions == plan_spec(loaded, live, live_names, loaded_names).actions
    &&& in_line(m, loaded)
    &&& entities_needed_spec(actions, live) <= fresh
}

impl PatchMap {
    /// Carries out the actions of a load plan on the map, in order, taking new
    /// entities from `fresh` in order; the effect of each action tells which
    /// entities it added and let go.
    ///
    /// It stops at the first action that the map or the live patch cannot
    /// meet, or for which `fresh` runs short, and returns its index. When the
    /// plan is that for `live` over a patch that the map matches, and `fresh`
    /// holds enough entities, it carries out every action and leaves the map
    /// matching `live`.
    pub fn carry_out(&mut self, plan: &LoadPlan, live: &Patch, fresh: &Vec<u64>) -> (r: Result<Vec<ActionEffect>, usize>)
        ensures
            (match r {
                Ok(effects) => exists|ms: Seq<Map<Seq<char>, MappedNodeView>>|
                    #[trigger] carried_out(ms, plan@.actions, live@, effects_view(effects@), fresh@)
                    && ms[0] == old(self)@ && ms.last() == final(self)@,
                Err(i) => i < plan.actions.len(),
            }),
            forall|loaded: Map<Seq<char>, PatchEntryView>, live_names: Seq<Seq<char>>, loaded_names: Seq<Seq<char>>|
                #[trigger] load_fits(old(self)@, plan@.actions, loaded, live@, live_names, loaded_names, fresh.len() as nat)
                ==> r is Ok && in_line(final(self)@, live@),
    {
        let ghost acts = plan@.actions;
        let ghost mut ms: Seq<Map<Seq<char>, MappedNodeView>> = seq![self@];
        let mut effects: Vec<ActionEffect> = Vec::new();
        let mut used: usize = 0;
        let mut i: usize = 0;
        while i < plan.actions.len()
            invariant
                0 <= i <= plan.actions.len(),
                acts == plan@.actions,
                ms.len() == i + 1,
                ms[0] == old(self)@,
                ms.last() == self@,
                used == entities_needed_spec(acts.take(i as int), live@),
                used <= fresh.len(),
                effects@.len() == i,
                forall|k: int| #![trigger acts[k]] 0 <= k < i ==> action_done(ms[k], acts[k], live@, ms[k + 1]),
                forall|k: int| #![trigger effects@[k]] 0 <= k < i ==>
                    effect_of(ms[k], acts[k], live@, ms[k + 1], effects@[k]@, fresh_for(acts, live@, fresh@, k)),
            decreases plan.actions.len() - i,
        {
            let a = &plan.actions[i];
            proof {
                assert(acts[i as int] == a@);
                assert(acts.take(i + 1).drop_last() =~= acts.take(i as int));
                assert(acts.take(i + 1).last() == acts[i as int]);
            }
            let ready = self.action_ready_exec(a);
            let sound = action_sound_exec(a, live);
            let need = action_entities(a, live);
            let enough = match need {
                Some(k) => k <= fresh.len() - used,
                None => false,
            };
            if !ready || !sound || !enough {
                proof {
                    assert forall|loaded: Map<Seq<char>, PatchEntryView>, ln: Seq<Seq<char>>, ld: Seq<Seq<char>>|
                        #[trigger] load_fits(old(self)@, plan@.actions, loaded, live@, ln, ld, fresh.len() as nat) implies false by {
                        lemma_plan_sound(loaded, live@, ln, ld);
                        lemma_needed_prefix(acts, live@, i + 1);
                        assert(action_sound(acts[i as int], live@));
                        let done_acts = acts.take(i as int);
                        let rest = acts.skip(i as int);
                        assert forall|j: int| 0 <= j < rest.len() implies action_sound(#[trigger] rest[j], live@) by {
                            assert(rest[j] == acts[i + j]);
                        }
                        lemma_extend_run(self@, rest, live@);
                        let ext = extend_run(self@, rest, live@);
                        assert forall|k: int| #![trigger done_acts[k]] 0 <= k < done_acts.len() implies action_done(ms[k], done_acts[k], live@, ms[k + 1]) by {
                            assert(done_acts[k] == acts[k]);
                        }
                        assert(run_follows(ms, done_acts, live@));
                        lemma_run_join(ms, done_acts, ext, rest, live@);
                        assert(done_acts + rest =~= acts);
                        let full = ms.drop_last() + ext;
                        law_load_keeps_map_in_line(loaded, live@, ln, ld, full);
                        assert(action_ready(full[i as int], acts[i as int]));
                    }
                }
                return Err(i);
            }
            let k = need.unwrap();
            let e = self.apply_action(a, live, fresh, used);
            proof {
                ms = ms.push(self@);
                assert(fresh_for(acts, live@, fresh@, i as int) == fresh@.subrange(used as int, used + entities_for(a@, live@)));
            }
            effects.push(e);
            used = used + k;
            proof {
                assert forall|j: int| #![trigger effects@[j]] 0 <= j < i + 1 implies
                    effect_of(ms[j], acts[j], live@, ms[j + 1], effects@[j]@, fresh_for(acts, live@, fresh@, j)) by {
                    if j < i {
                        assert(ms[j] == ms.drop_last()[j]);
                        assert(ms[j + 1] == ms.drop_last()[j + 1]);
                    }
                }
                assert forall|j: int| #![trigger acts[j]] 0 <= j < i + 1 implies action_done(ms[j], acts[j], live@, ms[j + 1]) by {
                    if j < i {
                        assert(ms[j] == ms.drop_last()[j]);
                        assert(ms[j + 1] == ms.drop_last()[j + 1]);
                    } else {
                        lemma_effect_done(ms[j], acts[j], live@, ms[j + 1], effects@[j]@, fresh_for(acts, live@, fresh@, j));
                    }
                }
            }
            i = i + 1;
        }
        proof {
            assert(acts.take(plan.actions.len() as int) =~= acts);
            assert(effects_view(effects@).len() == acts.len());
            assert forall|k: int| #![trigger effects_view(effects@)[k]] 0 <= k < acts.len() implies
                effect_of(ms[k], acts[k], live@, ms[k + 1], effects_view(effects@)[k], fresh_for(acts, live@, fresh@, k)) by {
                assert(effects_view(effects@)[k] == effects@[k]@);
            }
            assert(carried_out(ms, plan@.actions, live@, effects_view(effects@), fresh@));
            assert forall|loaded: Map<Seq<char>, PatchEntryView>, ln: Seq<Seq<char>>, ld: Seq<Seq<char>>|
                #[trigger] load_fits(old(self)@, plan@.actions, loaded, live@, ln, ld, fresh.len() as nat) implies in_line(self@, live@) by {
                law_load_keeps_map_in_line(loaded, live@, ln, ld, ms);
            }
        }
        let ghost ev = effects@;
        let r: Result<Vec<ActionEffect>, usize> = Ok(effects);
        proof {
            let es = r->Ok_0;
            assert(es@ == ev);
            assert(carried_out(ms, plan@.actions, live@, effects_view(es@), fresh@));
            assert(match r {
                Ok(es) => exists|ms2: Seq<Map<Seq<char>, MappedNodeView>>|
                    #[trigger] carried_out(ms2, plan@.actions, live@, effects_view(es@), fresh@)
                    && ms2[0] == old(self)@ && ms2.last() == self@,
                Err(_) => true,
            });
        }
        r
    }
}

/// An action carried out as [`effect_of`] says is one the map updates may
/// make ([`action_done`]).
proof fn lemma_effect_done(
    m: Map<Seq<char>, MappedNodeView>,
    a: LoadActionView,
    live: Map<Seq<char>, PatchEntryView>,
    next: Map<Seq<char>, MappedNodeView>,
    e: ActionEffectView,
    fresh: Seq<u64>,
)
    requires
        effect_of(m, a, live, next, e, fresh),
        fresh.len() == entities_for(a, live),
        action_sound(a, live),
    ensures
        action_done(m, a, live, next),
{
    match a {
        LoadActionView::Spawn(n) => {
            assert(e.inlets.len() == live[n].ingoing.len());
            assert(e.outlets.len() == live[n].outgoing.len());
            assert(next == m.insert(n, spawned_view(e.node, e.inlets, e.outlets)));
        },
        LoadActionView::Respawn(n) => {
            assert(e.inlets.len() == live[n].ingoing.len());
            assert(e.outlets.len() == live[n].outgoing.len());
            assert(next == m.remove(n).insert(n, spawned_view(e.node, e.inlets, e.outlets)));
        },
        LoadActionView::AddInlets(n, f, t) => {
            assert(next == m.insert(n, with_more_inlets(m[n], fresh)));
        },
        LoadActionView::AddOutlets(n, f, t) => {
            assert(next == m.insert(n, with_more_outlets(m[n], fresh)));
        },
        _ => {},
    }
}


/// An action of the live nodes comes from the actions of one of them.
proof fn lemma_live_actions_from(
    loaded: Map<Seq<char>, PatchEntryView>,
    live: Map<Seq<char>, PatchEntryView>,
    names: Seq<Seq<char>>,
    a: LoadActionView,
)
    requires
        live_actions(loaded, live, names).contains(a),
    ensures
        exists|i: int| 0 <= i < names.len() && #[trigger] node_actions(loaded, live, names[i]).contains(a),
    decreases names.len(),
{
    let pre = live_actions(loaded, live, names.drop_last());
    let na = node_actions(loaded, live, names.last());
    let all = live_actions(loaded, live, names);
    let w = choose|w: int| 0 <= w < all.len() && all[w] == a;
    if w < pre.len() {
        assert(all[w] == pre[w]);
        assert(pre.contains(a));
        lemma_live_actions_from(loaded, live, names.drop_last(), a);
        let i = choose|i: int| 0 <= i < names.drop_last().len() && #[trigger] node_actions(loaded, live, names.drop_last()[i]).contains(a);
        assert(names.drop_last()[i] == names[i]);
    } else {
        assert(all[w] == na[w - pre.len()]);
        assert(na.contains(a));
        assert(names[names.len() - 1] == names.last());
    }
}

/// A binding set among a node's actions is that node's live binding, set
/// because it differs from the loaded one on a node kept running.
proof fn lemma_set_input_of_node(
    loaded: Map<Seq<char>, PatchEntryView>,
    live: Map<Seq<char>, PatchEntryView>,
    m: Seq<char>,
    n: Seq<char>,
    x: Option<InputView>,
)
    requires
        node_actions(loaded, live, m).contains(LoadActionView::SetInput(n, x)),
    ensures
        n == m,
        loaded.dom().contains(m),
        !must_respawn(loaded[m], live[m]),
        loaded[m].node.input != live[m].node.input,
        x == live[m].node.input,
{
    let na = node_actions(loaded, live, m);
    let w = choose|w: int| 0 <= w < na.len() && na[w] == LoadActionView::SetInput(n, x);
    if loaded.dom().contains(m) && !must_respawn(loaded[m], live[m]) {
        let prev = loaded[m];
        let next = live[m];
        let s1 = input_actions(prev, next, m);
        let s2 = inlet_actions(prev, next, m);
        let s3 = outlet_actions(prev, next, m);
        assert(na == s1 + s2 + s3);
        if w < s1.len() {
            assert(na[w] == s1[w]);
        } else if w < s1.len() + s2.len() {
            assert(na[w] == s2[w - s1.len()]);
        } else {
            assert(na[w] == s3[w - s1.len() - s2.len()]);
        }
    } else {
        assert(na[w] == na[0]);
    }
}

/// On a hot-reload, a node kept running (neither new nor spawned anew) has its
/// binding set to its live one exactly when the live binding differs from the
/// loaded one, a removed binding (none) included; and no other binding of it
/// is set.
pub proof fn law_changed_binding_is_set(
    loaded: Map<Seq<char>, PatchEntryView>,
    live: Map<Seq<char>, PatchEntryView>,
    live_names: Seq<Seq<char>>,
    loaded_names: Seq<Seq<char>>,
    n: Seq<char>,
)
    requires
        lists_keys(live, live_names),
        lists_keys(loaded, loaded_names),
        live.dom().contains(n),
        loaded.dom().contains(n),
        !must_respawn(loaded[n], live[n]),
    ensures
        plan_spec(loaded, live, live_names, loaded_names).actions.contains(LoadActionView::SetInput(n, live[n].node.input))
            <==> loaded[n].node.input != live[n].node.input,
        forall|x: Option<InputView>|
            #[trigger] plan_spec(loaded, live, live_names, loaded_names).actions.contains(LoadActionView::SetInput(n, x))
            ==> x == live[n].node.input,
{
    let acts = plan_spec(loaded, live, live_names, loaded_names).actions;
    let la = live_actions(loaded, live, live_names);
    let ga = gone_actions(live, loaded_names);
    lemma_gone_actions(live, loaded_names);
    assert forall|x: Option<InputView>| #[trigger] acts.contains(LoadActionView::SetInput(n, x))
        implies x == live[n].node.input && loaded[n].node.input != live[n].node.input by {
        let a = LoadActionView::SetInput(n, x);
        let w = choose|w: int| 0 <= w < acts.len() && acts[w] == a;
        if w < la.len() {
            assert(acts[w] == la[w]);
            assert(la.contains(a));
            lemma_live_actions_from(loaded, live, live_names, a);
            let i = choose|i: int| 0 <= i < live_names.len() && #[trigger] node_actions(loaded, live, live_names[i]).contains(a);
            lemma_set_input_of_node(loaded, live, live_names[i], n, x);
        } else {
            assert(acts[w] == ga[w - la.len()]);
        }
    }
    if loaded[n].node.input != live[n].node.input {
        let a = LoadActionView::SetInput(n, live[n].node.input);
        let i = choose|i: int| 0 <= i < live_names.len() && #[trigger] live_names[i] == n;
        assert(node_actions(loaded, live, n) == input_actions(loaded[n], live[n], n) + inlet_actions(loaded[n], live[n], n) + outlet_actions(loaded[n], live[n], n));
        assert(node_actions(loaded, live, n)[0] == a);
        assert(node_actions(loaded, live, live_names[i]).contains(a));
        lemma_live_actions_cover(loaded, live, live_names, i, a);
        let w = choose|w: int| 0 <= w < la.len() && la[w] == a;
        assert(acts[w] == la[w]);
    }
}

} // verus!

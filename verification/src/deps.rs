use vstd::prelude::*;
use crate::errors::ValidationError;
use crate::graph::{graph_add_edge, graph_add_node, graph_edge_list, graph_is_cyclic, graph_new,
    graph_node_total};
use crate::model::{
    arrays_wf, count_true, dep_map_of, depends_on, edge_listed, frontier, has_cycle, int_pairs,
    integrity_ok, layers, layers_from, lemma_count_true_all, lemma_count_true_full,
    lemma_count_true_le_len, lemma_count_true_push_false, lemma_count_true_update,
    lemma_dep_map_dom, lemma_dep_map_index, lemma_frontier_nonempty,
    lemma_index_cycle_to_name_cycle, edge_endpoints_ok, edges_complete, lemma_index_of_props,
    lemma_index_of_unique, lemma_name_cycle_to_index_cycle, lemma_remaining_membership,
    lemma_remaining_subset, lists_dependency_edges, Name, placeable, remaining_set, sets_of,
};

verus! {

/// Accumulates element registrations: `names` lists the declared element
/// names in first-registration order, `deps[i]` is the last dependency list
/// declared for `names[i]`.
pub struct DependenciesBuilder {
    names: Vec<String>,
    deps: Vec<Vec<String>>,
}

/// A dependency table that passed validation: every dependency refers to a
/// declared element and nothing transitively depends on itself.
#[derive(Debug)]
pub struct Dependencies {
    names: Vec<String>,
    deps: Vec<Vec<String>>,
}

impl View for DependenciesBuilder {
    type V = Map<Name, Seq<Name>>;

    closed spec fn view(&self) -> Map<Name, Seq<Name>> {
        dep_map_of(self.names.deep_view(), self.deps.deep_view())
    }
}

impl View for Dependencies {
    type V = Map<Name, Seq<Name>>;

    closed spec fn view(&self) -> Map<Name, Seq<Name>> {
        dep_map_of(self.names.deep_view(), self.deps.deep_view())
    }
}

impl DependenciesBuilder {
    #[verifier::type_invariant]
    spec fn wf(self) -> bool {
        arrays_wf(self.names.deep_view(), self.deps.deep_view())
    }
}

impl Dependencies {
    #[verifier::type_invariant]
    spec fn validated(self) -> bool {
        &&& arrays_wf(self.names.deep_view(), self.deps.deep_view())
        &&& integrity_ok(self.view())
        &&& !has_cycle(self.view())
    }
}

/// The position of `target` among `names`, scanning from the front.
fn index_of_name(names: &Vec<String>, target: &String) -> (r: Option<usize>)
    ensures
        match r {
            Some(i) => i < names.len() && names.deep_view()[i as int] == target@,
            None => !names.deep_view().contains(target@),
        },
{
    let n = names.len();
    let mut i: usize = 0;
    while i < n
        invariant
            i <= n,
            n == names.len(),
            forall|j: int| 0 <= j < i ==> names.deep_view()[j] != target@,
        decreases n - i,
    {
        if names[i] == *target {
            return Some(i);
        }
        i += 1;
    }
    None
}

impl DependenciesBuilder {
    /// Records `name` with the given dependency list. A repeated registration
    /// of the same name replaces its dependency list wholesale; the set of
    /// known names only grows.
    pub fn add_element(self, name: String, dependecies: Vec<String>) -> (r: Self)
        ensures
            r@ == self@.insert(name@, dependecies.deep_view()),
    {
        proof {
            use_type_invariant(&self);
        }
        let ghost old_nm = self.names.deep_view();
        let ghost old_dv = self.deps.deep_view();
        let ghost dl = dependecies.deep_view();
        let DependenciesBuilder { mut names, mut deps } = self;
        let found = index_of_name(&names, &name);
        match found {
            Some(i) => {
                deps[i] = dependecies;
                let r = DependenciesBuilder { names, deps };
                proof {
                    let nm = r.names.deep_view();
                    let dv = r.deps.deep_view();
                    assert(nm == old_nm);
                    assert(dv =~= old_dv.update(i as int, dl));
                    assert(nm[i as int] == name@);
                    assert(r@ =~= dep_map_of(old_nm, old_dv).insert(name@, dl)) by {
                        assert forall|k: Name| nm.contains(k) implies dep_map_of(nm, dv)[k]
                            == dep_map_of(old_nm, old_dv).insert(name@, dl)[k] by {
                            lemma_index_of_props(nm, k);
                            if k == name@ {
                                lemma_index_of_unique(nm, k, i as int);
                            }
                        }
                    }
                }
                r
            },
            None => {
                names.push(name);
                deps.push(dependecies);
                proof {
                    let nm = names.deep_view();
                    assert(nm =~= old_nm.push(name@));
                    assert(nm.no_duplicates()) by {
                        assert(forall|j: int| 0 <= j < old_nm.len() ==> old_nm[j] != name@);
                        assert(forall|j: int| 0 <= j < old_nm.len()
                            ==> #[trigger] nm[j] == old_nm[j]);
                        assert(nm[nm.len() - 1] == name@);
                    }
                }
                let r = DependenciesBuilder { names, deps };
                proof {
                    let nm = r.names.deep_view();
                    let dv = r.deps.deep_view();
                    assert(nm =~= old_nm.push(name@));
                    assert(dv =~= old_dv.push(dl));
                    assert(r@ =~= dep_map_of(old_nm, old_dv).insert(name@, dl)) by {
                        assert forall|k: Name| nm.contains(k) implies dep_map_of(nm, dv)[k]
                            == dep_map_of(old_nm, old_dv).insert(name@, dl)[k] by {
                            lemma_index_of_props(nm, k);
                            let j = nm.index_of(k);
                            if k == name@ {
                                assert(forall|t: int| 0 <= t < old_nm.len()
                                    ==> #[trigger] nm[t] == old_nm[t] && old_nm[t] != name@);
                                assert(j == nm.len() - 1);
                            } else {
                                assert(j < old_nm.len());
                                assert(old_nm[j] == k);
                                assert(old_nm.contains(k));
                                lemma_index_of_unique(old_nm, k, j);
                            }
                        }
                        assert forall|k: Name| nm.contains(k) <==> dep_map_of(
                            old_nm,
                            old_dv,
                        ).insert(name@, dl).dom().contains(k) by {
                            if nm.contains(k) {
                                lemma_index_of_props(nm, k);
                                let j = nm.index_of(k);
                                if j < old_nm.len() {
                                    assert(old_nm[j] == k);
                                    assert(old_nm.contains(k));
                                }
                            } else {
                                assert(forall|t: int| 0 <= t < old_nm.len()
                                    ==> #[trigger] old_nm[t] == nm[t]);
                                assert(!old_nm.contains(k));
                                assert(k != nm[nm.len() - 1]);
                            }
                        }
                    }
                }
                r
            },
        }
    }
}

impl DependenciesBuilder {
    /// Referential integrity: does every registered dependency name belong to
    /// a registered element?
    fn dependencies_are_met(&self) -> (r: bool)
        ensures
            r == integrity_ok(self@),
    {
        proof {
            use_type_invariant(self);
        }
        let ghost nm = self.names.deep_view();
        let ghost dv = self.deps.deep_view();
        let n = self.names.len();
        let mut i: usize = 0;
        while i < n
            invariant
                self.wf(),
                nm == self.names.deep_view(),
                dv == self.deps.deep_view(),
                i <= n,
                n == self.names.len(),
                forall|a: int, d: Name|
                    0 <= a < i && #[trigger] dv[a].contains(d) ==> nm.contains(d),
            decreases n - i,
        {
            let list = &self.deps[i];
            let len = list.len();
            let mut k: usize = 0;
            while k < len
                invariant
                    self.wf(),
                    nm == self.names.deep_view(),
                    dv == self.deps.deep_view(),
                    i < n,
                    n == self.names.len(),
                    k <= len,
                    len == dv[i as int].len(),
                    list == &self.deps[i as int],
                    forall|t: int| 0 <= t < k ==> nm.contains(#[trigger] dv[i as int][t]),
                decreases len - k,
            {
                let found = index_of_name(&self.names, &list[k]);
                if found.is_none() {
                    proof {
                        let d = dv[i as int][k as int];
                        assert(list@[k as int]@ == d);
                        lemma_dep_map_index(nm, dv, i as int);
                        assert(dv[i as int].contains(d));
                        assert(self@[nm[i as int]].contains(d));
                        assert(!self@.dom().contains(d));
                    }
                    return false;
                }
                proof {
                    assert(list@[k as int]@ == dv[i as int][k as int]);
                }
                k += 1;
            }
            proof {
                assert(forall|d: Name| (#[trigger] dv[i as int].contains(d))
                    ==> exists|t: int| 0 <= t < dv[i as int].len() && dv[i as int][t] == d);
            }
            i += 1;
        }
        proof {
            assert forall|a: Name, d: Name|
                self@.dom().contains(a) && #[trigger] self@[a].contains(d)
                implies self@.dom().contains(d) by {
                assert(nm.contains(a));
                lemma_index_of_props(nm, a);
                let t = nm.index_of(a);
                assert(self@[a] == dv[t]);
            }
        }
        true
    }

    /// The projection of the dependency table into an index edge list: one
    /// entry per dependency, from the declaring element to the dependency.
    fn dependency_edges(&self) -> (es: Vec<(usize, usize)>)
        requires
            integrity_ok(self@),
        ensures
            lists_dependency_edges(int_pairs(es.deep_view()), self.names.deep_view(),
                self.deps.deep_view()),
    {
        proof {
            use_type_invariant(self);
        }
        let ghost nm = self.names.deep_view();
        let ghost dv = self.deps.deep_view();
        let mut es: Vec<(usize, usize)> = Vec::new();
        let n = self.names.len();
        let mut i: usize = 0;
        while i < n
            invariant
                self.wf(),
                integrity_ok(self@),
                nm == self.names.deep_view(),
                dv == self.deps.deep_view(),
                i <= n,
                n == self.names.len(),
                edge_endpoints_ok(int_pairs(es.deep_view()), nm, dv),
                forall|a: int, b: int|
                    0 <= a < i && 0 <= b < n && #[trigger] dv[a].contains(nm[b])
                        ==> edge_listed(int_pairs(es.deep_view()), a, b),
            decreases n - i,
        {
            let list = &self.deps[i];
            let len = list.len();
            let mut k: usize = 0;
            while k < len
                invariant
                    self.wf(),
                    integrity_ok(self@),
                    nm == self.names.deep_view(),
                    dv == self.deps.deep_view(),
                    i < n,
                    n == self.names.len(),
                    k <= len,
                    len == dv[i as int].len(),
                    list == &self.deps[i as int],
                    edge_endpoints_ok(int_pairs(es.deep_view()), nm, dv),
                    forall|a: int, b: int|
                        0 <= a < i && 0 <= b < n && #[trigger] dv[a].contains(nm[b])
                            ==> edge_listed(int_pairs(es.deep_view()), a, b),
                    forall|b: int, t: int|
                        #![trigger dv[i as int][t], nm[b]]
                        0 <= b < n && 0 <= t < k && dv[i as int][t] == nm[b]
                            ==> edge_listed(int_pairs(es.deep_view()), i as int, b),
                decreases len - k,
            {
                let ghost old_es = es.deep_view();
                let found = index_of_name(&self.names, &list[k]);
                match found {
                    Some(j) => {
                        es.push((i, j));
                        proof {
                            assert(list@[k as int]@ == dv[i as int][k as int]);
                            assert(nm[j as int] == dv[i as int][k as int]);
                            assert(dv[i as int].contains(nm[j as int]));
                            assert(es.deep_view() =~= old_es.push((i, j)));
                            assert(int_pairs(es.deep_view()) =~= int_pairs(old_es).push(
                                (i as int, j as int)));
                            let new_pairs = int_pairs(es.deep_view());
                            assert forall|a: int, b: int|
                                edge_listed(int_pairs(old_es), a, b) implies #[trigger] edge_listed(
                                    new_pairs, a, b) by {
                                let w = choose|w: int|
                                    0 <= w < int_pairs(old_es).len() && int_pairs(old_es)[w]
                                        == (a, b);
                                assert(new_pairs[w] == (a, b));
                            }
                            assert(new_pairs[new_pairs.len() - 1] == (i as int, j as int));
                            assert(edge_listed(new_pairs, i as int, j as int));
                            assert forall|b: int, t: int|
                                #![trigger dv[i as int][t], nm[b]]
                                0 <= b < n && 0 <= t < k + 1 && dv[i as int][t]
                                    == nm[b] implies edge_listed(
                                int_pairs(es.deep_view()), i as int, b) by {
                                if t == k {
                                    assert(nm[b] == nm[j as int]);
                                    lemma_index_of_unique(nm, nm[b], b);
                                    lemma_index_of_unique(nm, nm[b], j as int);
                                }
                            }
                        }
                    },
                    None => {
                        proof {
                            let d = dv[i as int][k as int];
                            assert(list@[k as int]@ == d);
                            lemma_dep_map_index(nm, dv, i as int);
                            assert(dv[i as int].contains(d));
                            assert(self@[nm[i as int]].contains(d));
                            assert(self@.dom().contains(d));
                            assert(nm.contains(d));
                            assert(false);
                        }
                    },
                }
                k += 1;
            }
            proof {
                assert forall|a: int, b: int|
                    0 <= a < i + 1 && 0 <= b < n && #[trigger] dv[a].contains(nm[b])
                    implies edge_listed(int_pairs(es.deep_view()), a, b) by {
                    if a == i {
                        let t = choose|t: int| 0 <= t < dv[a].len() && dv[a][t] == nm[b];
                        assert(dv[i as int][t] == nm[b]);
                    }
                }
            }
            i += 1;
        }
        es
    }

    /// Cycle check: feeds the projected edge list to a directed graph and asks
    /// it for a cycle.
    fn no_cyclic_dependencies(&self) -> (r: bool)
        requires
            integrity_ok(self@),
        ensures
            r == !has_cycle(self@),
    {
        proof {
            use_type_invariant(self);
        }
        let ghost nm = self.names.deep_view();
        let ghost dv = self.deps.deep_view();
        let es = self.dependency_edges();
        let mut g = graph_new();
        let n = self.names.len();
        let mut i: usize = 0;
        while i < n
            invariant
                i <= n,
                n == self.names.len(),
                graph_node_total(g) == i,
                graph_edge_list(g) == Seq::<(int, int)>::empty(),
            decreases n - i,
        {
            graph_add_node(&mut g);
            i += 1;
        }
        let total = es.len();
        let mut t: usize = 0;
        while t < total
            invariant
                self.wf(),
                nm == self.names.deep_view(),
                dv == self.deps.deep_view(),
                n == self.names.len(),
                t <= total,
                total == es.len(),
                lists_dependency_edges(int_pairs(es.deep_view()), nm, dv),
                graph_node_total(g) == n,
                graph_edge_list(g) == int_pairs(es.deep_view()).take(t as int),
            decreases total - t,
        {
            let edge = es[t];
            proof {
                assert(es.deep_view()[t as int] == es@[t as int]);
                assert(int_pairs(es.deep_view())[t as int] == (edge.0 as int, edge.1 as int));
            }
            graph_add_edge(&mut g, edge.0, edge.1);
            proof {
                assert(graph_edge_list(g) =~= int_pairs(es.deep_view()).take(t + 1));
            }
            t += 1;
        }
        proof {
            assert(graph_edge_list(g) =~= int_pairs(es.deep_view()));
        }
        let cyc = graph_is_cyclic(&g);
        proof {
            if cyc {
                lemma_index_cycle_to_name_cycle(int_pairs(es.deep_view()), nm, dv);
            } else if has_cycle(self@) {
                lemma_name_cycle_to_index_cycle(int_pairs(es.deep_view()), nm, dv);
            }
        }
        !cyc
    }

    /// Runs both validation checks in their required order: referential
    /// integrity first, the cycle check only on a referentially closed table.
    fn validate(&self) -> (r: Result<(), ValidationError>)
        ensures
            r is Ok <==> integrity_ok(self@) && !has_cycle(self@),
            r is Err ==> (r->Err_0 == ValidationError::MissingDependency <==> !integrity_ok(
                self@)),
            r is Err ==> (r->Err_0 == ValidationError::CyclicDependency <==> integrity_ok(self@)
                && has_cycle(self@)),
    {
        if !self.dependencies_are_met() {
            return Err(ValidationError::MissingDependency);
        }
        if !self.no_cyclic_dependencies() {
            return Err(ValidationError::CyclicDependency);
        }
        Ok(())
    }

    /// Validates the registered table and, on success, hands out a snapshot
    /// that tranche generation can rely on.
    pub fn build(&mut self) -> (r: Result<Dependencies, ValidationError>)
        ensures
            *final(self) == *old(self),
            r is Ok <==> integrity_ok(old(self)@) && !has_cycle(old(self)@),
            r is Ok ==> (r->Ok_0)@ == old(self)@ && (r->Ok_0)@.dom().finite(),
            r is Err ==> (r->Err_0 == ValidationError::MissingDependency <==> !integrity_ok(
                old(self)@)),
            r is Err ==> (r->Err_0 == ValidationError::CyclicDependency <==> integrity_ok(
                old(self)@) && has_cycle(old(self)@)),
    {
        proof {
            use_type_invariant(&*self);
        }
        match self.validate() {
            Err(e) => Err(e),
            Ok(()) => {
                let names = clone_names(&self.names);
                let deps = clone_dep_lists(&self.deps);
                proof {
                    assert(dep_map_of(names.deep_view(), deps.deep_view()) == dep_map_of(
                        self.names.deep_view(), self.deps.deep_view()));
                    lemma_dep_map_dom(names.deep_view(), deps.deep_view());
                }
                let d = Dependencies { names, deps };
                Ok(d)
            },
        }
    }
}

/// A fresh vector holding the same strings.
fn clone_names(v: &Vec<String>) -> (r: Vec<String>)
    ensures
        r.deep_view() == v.deep_view(),
{
    let n = v.len();
    let mut r: Vec<String> = Vec::new();
    let mut i: usize = 0;
    while i < n
        invariant
            i <= n,
            n == v.len(),
            r.deep_view() =~= v.deep_view().take(i as int),
        decreases n - i,
    {
        let ghost old_r = r.deep_view();
        r.push(v[i].clone());
        proof {
            assert(r.deep_view() =~= old_r.push(v.deep_view()[i as int]));
            assert(r.deep_view() =~= v.deep_view().take(i + 1));
        }
        i += 1;
    }
    proof {
        assert(r.deep_view() =~= v.deep_view());
    }
    r
}

/// A fresh vector holding the same dependency lists.
fn clone_dep_lists(v: &Vec<Vec<String>>) -> (r: Vec<Vec<String>>)
    ensures
        r.deep_view() == v.deep_view(),
{
    let n = v.len();
    let mut r: Vec<Vec<String>> = Vec::new();
    let mut i: usize = 0;
    while i < n
        invariant
            i <= n,
            n == v.len(),
            r.deep_view() =~= v.deep_view().take(i as int),
        decreases n - i,
    {
        let ghost old_r = r.deep_view();
        r.push(clone_names(&v[i]));
        proof {
            assert(r.deep_view() =~= old_r.push(v.deep_view()[i as int]));
            assert(r.deep_view() =~= v.deep_view().take(i + 1));
        }
        i += 1;
    }
    proof {
        assert(r.deep_view() =~= v.deep_view());
    }
    r
}

/// Are all of `list`'s dependencies already placed, outside the waiting set?
#[verifier::loop_isolation(false)]
fn deps_satisfied(names: &Vec<String>, list: &Vec<String>, placed: &Vec<bool>) -> (r: bool)
    requires
        names.deep_view().no_duplicates(),
        placed@.len() == names@.len(),
        forall|t: int|
            0 <= t < list.deep_view().len() ==> names.deep_view().contains(
                #[trigger] list.deep_view()[t],
            ),
    ensures
        r <==> forall|w: Name| #[trigger]
            list.deep_view().contains(w) ==> !remaining_set(names.deep_view(), placed@).contains(
                w,
            ),
{
    let ghost nm = names.deep_view();
    let ghost dl = list.deep_view();
    let ghost s = remaining_set(nm, placed@);
    let len = list.len();
    let mut k: usize = 0;
    while k < len
        invariant
            k <= len,
            forall|t: int| 0 <= t < k ==> !s.contains(#[trigger] dl[t]),
        decreases len - k,
    {
        let found = index_of_name(names, &list[k]);
        proof {
            assert(list@[k as int]@ == dl[k as int]);
            assert(dl.contains(dl[k as int]));
        }
        match found {
            Some(j) => {
                if !placed[j] {
                    proof {
                        lemma_remaining_membership(nm, placed@, j as int);
                        assert(s.contains(dl[k as int]));
                    }
                    return false;
                }
                proof {
                    lemma_remaining_membership(nm, placed@, j as int);
                    assert(!s.contains(dl[k as int]));
                }
            },
            None => {
                proof {
                    assert(false);
                }
            },
        }
        k += 1;
    }
    proof {
        assert forall|w: Name| dl.contains(w) implies !s.contains(w) by {
            let t = choose|t: int| 0 <= t < dl.len() && dl[t] == w;
            assert(!s.contains(dl[t]));
        }
    }
    true
}

impl Dependencies {
    /// Partitions the validated elements into tranches: each tranche holds
    /// exactly the elements whose dependencies all lie in earlier tranches,
    /// and the first holds the elements with no dependencies at all.
    ///
    /// Tranche membership is a function of the registered dependency map
    /// alone; only the order of names inside one tranche is left open.
    #[verifier::loop_isolation(false)]
    pub fn generate_tranches(&self) -> (r: Result<Vec<Vec<String>>, ValidationError>)
        ensures
            r is Ok,
            (r->Ok_0).deep_view().len() == layers(self@).len(),
            forall|q: int|
                0 <= q < layers(self@).len() ==> (#[trigger] (r->Ok_0).deep_view()[q]).to_set()
                    == layers(self@)[q],
            forall|q: int|
                0 <= q < layers(self@).len() ==> (#[trigger] (r->Ok_0).deep_view()[q]).no_duplicates(),
    {
        proof {
            use_type_invariant(self);
        }
        let ghost nm = self.names.deep_view();
        let ghost dv = self.deps.deep_view();
        let ghost m = self@;
        proof {
            lemma_dep_map_dom(nm, dv);
        }
        let n = self.names.len();
        let mut placed: Vec<bool> = Vec::new();
        let mut i: usize = 0;
        while i < n
            invariant
                i <= n,
                placed@.len() == i,
                count_true(placed@) == 0,
                forall|j: int| 0 <= j < i ==> !placed@[j],
            decreases n - i,
        {
            proof {
                lemma_count_true_push_false(placed@);
            }
            placed.push(false);
            i += 1;
        }
        let mut placed_count: usize = 0;
        let mut tranches: Vec<Vec<String>> = Vec::new();
        proof {
            assert(remaining_set(nm, placed@) =~= m.dom()) by {
                assert forall|v: Name| remaining_set(nm, placed@).contains(v) implies m.dom().contains(v) by {
                    let w = choose|w: int|
                        0 <= w < nm.len() && w < placed@.len() && (#[trigger] nm[w]) == v
                            && !placed@[w];
                    assert(nm.contains(v));
                }
                assert forall|v: Name| m.dom().contains(v) implies remaining_set(nm, placed@).contains(v) by {
                    lemma_index_of_props(nm, v);
                    let w = nm.index_of(v);
                    assert(0 <= w < nm.len() && w < placed@.len() && nm[w] == v && !placed@[w]);
                }
            }
            assert(layers(m).skip(0) =~= layers_from(m, remaining_set(nm, placed@)));
            assert(sets_of(tranches.deep_view()) =~= layers(m).take(0));
        }
        while placed_count < n
            invariant
                placed@.len() == n,
                placed_count <= n,
                placed_count as nat == count_true(placed@),
                tranches.deep_view().len() <= layers(m).len(),
                sets_of(tranches.deep_view()) == layers(m).take(tranches.deep_view().len() as int),
                layers_from(m, remaining_set(nm, placed@)) == layers(m).skip(
                    tranches.deep_view().len() as int,
                ),
                forall|q: int|
                    0 <= q < tranches.deep_view().len() ==> (#[trigger] tranches.deep_view()[q]).no_duplicates(),
            decreases n - placed_count,
        {
            let ghost s0 = remaining_set(nm, placed@);
            let ghost f0 = frontier(m, s0);
            proof {
                lemma_remaining_subset(nm, placed@);
                assert(s0.subset_of(m.dom()));
                assert(f0.subset_of(s0));
                lemma_count_true_le_len(placed@);
                if forall|k: int| 0 <= k < n ==> placed@[k] {
                    lemma_count_true_all(placed@);
                    assert(false);
                }
                let k0 = choose|k0: int| 0 <= k0 < n && !placed@[k0];
                lemma_remaining_membership(nm, placed@, k0);
                assert(s0.contains(nm[k0]));
                assert(!s0.is_empty());
                lemma_frontier_nonempty(m, s0);
            }
            // gather this round's frontier: every unplaced element whose
            // dependencies are all placed
            let mut round: Vec<usize> = Vec::new();
            let mut idx: usize = 0;
            while idx < n
                invariant
                    idx <= n,
                    round@.len() <= idx,
                    forall|a: int, b: int|
                        0 <= a < b < round@.len() ==> round@[a] < round@[b],
                    forall|t: int| 0 <= t < round@.len() ==> (#[trigger] round@[t]) < idx,
                    forall|t: int|
                        0 <= t < round@.len() ==> f0.contains(nm[#[trigger] round@[t] as int]),
                    forall|k: int|
                        0 <= k < idx && f0.contains(#[trigger] nm[k]) ==> round@.contains(
                            k as usize,
                        ),
                decreases n - idx,
            {
                if !placed[idx] {
                    proof {
                        lemma_remaining_membership(nm, placed@, idx as int);
                        assert(s0.contains(nm[idx as int]));
                        lemma_dep_map_index(nm, dv, idx as int);
                        assert forall|t: int|
                            0 <= t < dv[idx as int].len() implies nm.contains(
                            #[trigger] dv[idx as int][t],
                        ) by {
                            assert(m[nm[idx as int]].contains(dv[idx as int][t]));
                        }
                        assert(self.deps@[idx as int].deep_view() == dv[idx as int]);
                    }
                    let ghost old_round = round@;
                    if deps_satisfied(&self.names, &self.deps[idx], &placed) {
                        round.push(idx);
                        proof {
                            assert(placeable(m, s0, nm[idx as int])) by {
                                assert forall|w: Name| #[trigger]
                                    depends_on(m, nm[idx as int], w) implies !s0.contains(w) by {
                                    assert(m[nm[idx as int]].contains(w));
                                    assert(dv[idx as int].contains(w));
                                }
                            }
                            assert(f0.contains(nm[idx as int]));
                            assert(round@ == old_round.push(idx));
                            assert forall|k: int|
                                0 <= k < idx + 1 && f0.contains(#[trigger] nm[k]) implies round@.contains(
                                k as usize,
                            ) by {
                                if k < idx {
                                    let t = choose|t: int|
                                        0 <= t < old_round.len() && old_round[t] == k as usize;
                                    assert(round@[t] == k as usize);
                                } else {
                                    assert(round@[round@.len() - 1] == idx);
                                }
                            }
                        }
                    } else {
                        proof {
                            let w = choose|w: Name| #[trigger]
                                dv[idx as int].contains(w) && remaining_set(nm, placed@).contains(
                                    w,
                                );
                            assert(s0.contains(w));
                            assert(m.dom().contains(w));
                            assert(depends_on(m, nm[idx as int], w));
                            assert(!placeable(m, s0, nm[idx as int]));
                            assert(!f0.contains(nm[idx as int]));
                        }
                    }
                } else {
                    proof {
                        lemma_remaining_membership(nm, placed@, idx as int);
                        assert(!s0.contains(nm[idx as int]));
                        assert(!f0.contains(nm[idx as int]));
                    }
                }
                idx += 1;
            }
            if round.len() == 0 {
                // cannot happen on a validated graph: the frontier of a
                // nonempty remainder is nonempty
                proof {
                    let v = f0.choose();
                    assert(f0.contains(v));
                    assert(s0.contains(v));
                    assert(m.dom().contains(v));
                    assert(nm.contains(v));
                    lemma_index_of_props(nm, v);
                    assert(f0.contains(nm[nm.index_of(v)]));
                    assert(false);
                }
                return Err(ValidationError::InternalInconsistency);
            }
            // place the whole round at once and emit it as one tranche
            let ghost pl0 = placed@;
            let ghost cnt0 = placed_count as nat;
            let ghost tr0 = tranches.deep_view();
            let rlen = round.len();
            let mut layer: Vec<String> = Vec::new();
            let mut t: usize = 0;
            while t < rlen
                invariant
                    t <= rlen,
                    placed@.len() == n,
                    placed_count as nat == cnt0 + t,
                    placed_count as nat == count_true(placed@),
                    layer.deep_view() == Seq::new(t as nat, |q: int| nm[round@[q] as int]),
                    forall|k: int|
                        0 <= k < n ==> placed@[k] == (pl0[k] || round@.subrange(0, t as int).contains(
                            k as usize,
                        )),
                decreases rlen - t,
            {
                let k = round[t];
                proof {
                    assert(f0.contains(nm[k as int]));
                    assert(s0.contains(nm[k as int]));
                    lemma_remaining_membership(nm, pl0, k as int);
                    assert(!pl0[k as int]);
                    assert(!round@.subrange(0, t as int).contains(k)) by {
                        if round@.subrange(0, t as int).contains(k) {
                            let q = choose|q: int|
                                0 <= q < t && round@.subrange(0, t as int)[q] == k;
                            assert(round@[q] == k);
                            assert(round@[q] < round@[t as int]);
                        }
                    }
                    assert(!placed@[k as int]);
                    lemma_count_true_update(placed@, k as int);
                }
                let ghost pl_before = placed@;
                let ghost layer_before = layer.deep_view();
                placed[k] = true;
                proof {
                    assert(placed@ == pl_before.update(k as int, true));
                    lemma_count_true_le_len(placed@);
                }
                placed_count += 1;
                layer.push(self.names[k].clone());
                proof {
                    assert(layer.deep_view() =~= layer_before.push(nm[k as int]));
                    assert(layer.deep_view() =~= Seq::new(
                        (t + 1) as nat,
                        |q: int| nm[round@[q] as int],
                    ));
                    assert forall|k2: int|
                        0 <= k2 < n implies placed@[k2] == (pl0[k2] || round@.subrange(
                        0,
                        t + 1,
                    ).contains(k2 as usize)) by {
                        if k2 == k as int {
                            assert(round@.subrange(0, t + 1)[t as int] == k);
                            assert(round@.subrange(0, t + 1).contains(k));
                        } else {
                            assert(placed@[k2] == pl_before[k2]);
                            if round@.subrange(0, t + 1).contains(k2 as usize) {
                                let sub = round@.subrange(0, t + 1);
                                let q = choose|q: int|
                                    0 <= q < sub.len() && sub[q] == k2 as usize;
                                assert(round@[q] == k2 as usize);
                                assert(q < t);
                                assert(round@.subrange(0, t as int)[q] == k2 as usize);
                            } else if round@.subrange(0, t as int).contains(k2 as usize) {
                                let q = choose|q: int|
                                    0 <= q < t && round@.subrange(0, t as int)[q] == k2 as usize;
                                assert(round@.subrange(0, t + 1)[q] == k2 as usize);
                            }
                        }
                    }
                }
                t += 1;
            }
            proof {
                lemma_count_true_le_len(placed@);
                // the names of this round are exactly the frontier
                assert(round@.subrange(0, rlen as int) =~= round@);
                let lv = layer.deep_view();
                assert(lv.to_set() =~= f0) by {
                    assert forall|v: Name| lv.to_set().contains(v) implies f0.contains(v) by {
                        let q = choose|q: int| 0 <= q < lv.len() && lv[q] == v;
                        assert(lv[q] == nm[round@[q] as int]);
                    }
                    assert forall|v: Name| f0.contains(v) implies lv.to_set().contains(v) by {
                        assert(s0.contains(v));
                        assert(nm.contains(v));
                        lemma_index_of_props(nm, v);
                        let k = nm.index_of(v);
                        assert(round@.contains(k as usize));
                        let q = choose|q: int| 0 <= q < round@.len() && round@[q] == k as usize;
                        assert(lv[q] == v);
                        assert(lv.contains(v));
                    }
                }
                assert(lv.no_duplicates()) by {
                    assert forall|q1: int, q2: int|
                        0 <= q1 < lv.len() && 0 <= q2 < lv.len() && q1 != q2 implies lv[q1]
                        != lv[q2] by {
                        let a = round@[q1] as int;
                        let b = round@[q2] as int;
                        assert(a != b);
                        assert(nm[a] != nm[b]);
                    }
                }
                // the waiting set shrinks by exactly the frontier
                let s1 = remaining_set(nm, placed@);
                assert(s1 =~= s0.difference(f0)) by {
                    assert forall|v: Name| s1.contains(v) implies s0.difference(f0).contains(v) by {
                        let w = choose|w: int|
                            0 <= w < nm.len() && w < placed@.len() && (#[trigger] nm[w]) == v
                                && !placed@[w];
                        lemma_remaining_membership(nm, pl0, w);
                        assert(!pl0[w]);
                        assert(!round@.contains(w as usize));
                        assert(s0.contains(v));
                        if f0.contains(nm[w]) {
                            assert(round@.contains(w as usize));
                        }
                    }
                    assert forall|v: Name| s0.difference(f0).contains(v) implies s1.contains(v) by {
                        let w = choose|w: int|
                            0 <= w < nm.len() && w < pl0.len() && (#[trigger] nm[w]) == v
                                && !pl0[w];
                        assert(!f0.contains(nm[w]));
                        assert(!round@.contains(w as usize)) by {
                            if round@.contains(w as usize) {
                                let q = choose|q: int|
                                    0 <= q < round@.len() && round@[q] == w as usize;
                                assert(f0.contains(nm[round@[q] as int]));
                            }
                        }
                        assert(!placed@[w]);
                        lemma_remaining_membership(nm, placed@, w);
                    }
                }
                // one unfolding of the layering: this round is the next layer
                let ghost tcount = tr0.len() as int;
                assert(!s0.is_empty() && !f0.is_empty());
                assert(layers_from(m, s0) == seq![f0] + layers_from(m, s0.difference(f0)));
                assert(layers(m).skip(tcount) == seq![f0] + layers_from(m, s1));
                assert(layers(m).len() - tcount >= 1);
                assert(layers(m)[tcount] == f0) by {
                    assert(layers(m).skip(tcount)[0] == f0);
                }
                assert(layers(m).skip(tcount + 1) =~= layers_from(m, s1)) by {
                    let lhs = layers(m).skip(tcount + 1);
                    let mid = layers(m).skip(tcount);
                    assert forall|q: int| 0 <= q < lhs.len() implies #[trigger] lhs[q]
                        == layers_from(m, s1)[q] by {
                        assert(lhs[q] == layers(m)[tcount + 1 + q]);
                        assert(mid[q + 1] == layers(m)[tcount + 1 + q]);
                        assert(mid[q + 1] == (seq![f0] + layers_from(m, s1))[q + 1]);
                    }
                }
            }
            let ghost layer_view = layer.deep_view();
            tranches.push(layer);
            proof {
                let tv = tranches.deep_view();
                assert(tv =~= tr0.push(layer_view));
                assert(sets_of(tv) =~= layers(m).take(tv.len() as int)) by {
                    assert(forall|q: int|
                        0 <= q < tr0.len() ==> #[trigger] sets_of(tv)[q] == sets_of(tr0)[q]);
                    assert(sets_of(tv)[tr0.len() as int] == layer_view.to_set());
                }
            }
        }
        proof {
            // everything is placed: the layering is exhausted
            lemma_count_true_full(placed@);
            let s_end = remaining_set(nm, placed@);
            assert(s_end =~= Set::<Name>::empty()) by {
                assert forall|v: Name| !s_end.contains(v) by {
                    if s_end.contains(v) {
                        let w = choose|w: int|
                            0 <= w < nm.len() && w < placed@.len() && (#[trigger] nm[w]) == v
                                && !placed@[w];
                    }
                }
            }
            assert(layers_from(m, s_end) == Seq::<Set<Name>>::empty());
            let tcount = tranches.deep_view().len() as int;
            assert(layers(m).skip(tcount).len() == 0);
            assert(tcount == layers(m).len());
            assert(sets_of(tranches.deep_view()) =~= layers(m));
            assert(forall|q: int|
                0 <= q < layers(m).len() ==> (#[trigger] tranches.deep_view()[q]).to_set()
                    == sets_of(tranches.deep_view())[q]);
        }
        Ok(tranches)
    }
}

impl Dependencies {
    /// A fresh builder with no elements registered.
    pub fn builder() -> (r: DependenciesBuilder)
        ensures
            r@ == Map::<Name, Seq<Name>>::empty(),
    {
        let r = DependenciesBuilder { names: Vec::new(), deps: Vec::new() };
        proof {
            assert(r@ =~= Map::<Name, Seq<Name>>::empty());
        }
        r
    }
}

} // verus!

use vstd::prelude::*;

verus! {

/// An element identifier: the character sequence of its name.
pub type Name = Seq<char>;

/// The registration state as a mathematical map: each declared element name
/// mapped to its (last declared) dependency list. `nm` lists the declared
/// names, `dv` the dependency list of each, positionally.
pub open spec fn dep_map_of(nm: Seq<Name>, dv: Seq<Seq<Name>>) -> Map<Name, Seq<Name>> {
    Map::new(|k: Name| nm.contains(k), |k: Name| dv[nm.index_of(k)])
}

/// The shape every name/dependency table keeps: one dependency list per
/// name, and no name declared twice.
pub open spec fn arrays_wf(nm: Seq<Name>, dv: Seq<Seq<Name>>) -> bool {
    &&& nm.len() == dv.len()
    &&& nm.no_duplicates()
}

/// `a` depends directly on `b`: both are declared elements and `b` occurs in
/// `a`'s dependency list. Dependency names that are not declared elements
/// induce no edge.
pub open spec fn depends_on(m: Map<Name, Seq<Name>>, a: Name, b: Name) -> bool {
    &&& m.dom().contains(a)
    &&& m.dom().contains(b)
    &&& m[a].contains(b)
}

/// Referential integrity: every name in any dependency list is itself a
/// declared element.
pub open spec fn integrity_ok(m: Map<Name, Seq<Name>>) -> bool {
    forall|a: Name, d: Name|
        m.dom().contains(a) && #[trigger] m[a].contains(d) ==> m.dom().contains(d)
}

/// `p` walks along dependency edges and returns to its start.
pub open spec fn is_dependency_cycle(m: Map<Name, Seq<Name>>, p: Seq<Name>) -> bool {
    &&& p.len() >= 2
    &&& p[0] == p[p.len() - 1]
    &&& forall|i: int| 0 <= i < p.len() - 1 ==> depends_on(m, #[trigger] p[i], p[i + 1])
}

/// Some element transitively depends on itself.
pub open spec fn has_cycle(m: Map<Name, Seq<Name>>) -> bool {
    exists|p: Seq<Name>| is_dependency_cycle(m, p)
}

/// `(a, b)` occurs in the edge list.
pub open spec fn edge_listed(es: Seq<(int, int)>, a: int, b: int) -> bool {
    exists|k: int| 0 <= k < es.len() && es[k] == (a, b)
}

/// `p` is a closed walk along listed edges, by node index.
pub open spec fn is_index_cycle(es: Seq<(int, int)>, p: Seq<int>) -> bool {
    &&& p.len() >= 2
    &&& p[0] == p[p.len() - 1]
    &&& forall|i: int| 0 <= i < p.len() - 1 ==> edge_listed(es, #[trigger] p[i], p[i + 1])
}

/// The edge list contains a directed cycle.
pub open spec fn index_cycle_exists(es: Seq<(int, int)>) -> bool {
    exists|p: Seq<int>| is_index_cycle(es, p)
}

/// Every listed edge is a genuine dependency edge of the table.
pub open spec fn edge_endpoints_ok(es: Seq<(int, int)>, nm: Seq<Name>, dv: Seq<Seq<Name>>) -> bool {
    forall|k: int| 0 <= k < es.len() ==> {
        &&& 0 <= (#[trigger] es[k]).0 < nm.len()
        &&& 0 <= es[k].1 < nm.len()
        &&& dv[es[k].0].contains(nm[es[k].1])
    }
}

/// Every dependency edge of the table is listed.
pub open spec fn edges_complete(es: Seq<(int, int)>, nm: Seq<Name>, dv: Seq<Seq<Name>>) -> bool {
    forall|a: int, b: int|
        0 <= a < nm.len() && 0 <= b < nm.len() && #[trigger] dv[a].contains(nm[b])
            ==> edge_listed(es, a, b)
}

/// The edge list is exactly the projection of the dependency table.
pub open spec fn lists_dependency_edges(es: Seq<(int, int)>, nm: Seq<Name>, dv: Seq<Seq<Name>>) -> bool {
    edge_endpoints_ok(es, nm, dv) && edges_complete(es, nm, dv)
}

/// `v` has no dependency that is still waiting in `s`.
pub open spec fn placeable(m: Map<Name, Seq<Name>>, s: Set<Name>, v: Name) -> bool {
    forall|w: Name| #[trigger] depends_on(m, v, w) ==> !s.contains(w)
}

/// The elements of `s` whose dependencies all lie outside `s`: the next
/// tranche when `s` is the set of elements not yet placed.
pub open spec fn frontier(m: Map<Name, Seq<Name>>, s: Set<Name>) -> Set<Name> {
    s.filter(|v: Name| placeable(m, s, v))
}

/// Repeatedly peel the frontier off `s`: the tranche layering. Peeling stops
/// when nothing remains or — on a cyclic relation — when no element is
/// placeable.
pub open spec fn layers_from(m: Map<Name, Seq<Name>>, s: Set<Name>) -> Seq<Set<Name>>
    decreases s.len()
        when s.finite()
        via layers_from_decreases
{
    if s.is_empty() || frontier(m, s).is_empty() {
        Seq::empty()
    } else {
        seq![frontier(m, s)] + layers_from(m, s.difference(frontier(m, s)))
    }
}

#[via_fn]
proof fn layers_from_decreases(m: Map<Name, Seq<Name>>, s: Set<Name>) {
    if !(s.is_empty() || frontier(m, s).is_empty()) {
        let f = frontier(m, s);
        let v = f.choose();
        assert(f.contains(v));
        assert(s.contains(v));
        assert(s.difference(f).subset_of(s.remove(v)));
        vstd::set_lib::lemma_len_subset(s.difference(f), s.remove(v));
    }
}

/// The tranche layering of the whole table.
pub open spec fn layers(m: Map<Name, Seq<Name>>) -> Seq<Set<Name>> {
    layers_from(m, m.dom())
}

/// The union of a sequence of sets.
pub open spec fn union_of(ls: Seq<Set<Name>>) -> Set<Name>
    decreases ls.len(),
{
    if ls.len() == 0 {
        Set::empty()
    } else {
        ls[0].union(union_of(ls.drop_first()))
    }
}

/// How many entries of `pl` are true: how many elements are already placed.
pub open spec fn count_true(pl: Seq<bool>) -> nat
    decreases pl.len(),
{
    if pl.len() == 0 {
        0
    } else {
        count_true(pl.drop_last()) + (if pl.last() { 1nat } else { 0nat })
    }
}

/// The names whose slot is not yet marked placed.
pub open spec fn remaining_set(nm: Seq<Name>, pl: Seq<bool>) -> Set<Name> {
    Set::new(
        |v: Name| exists|i: int|
            0 <= i < nm.len() && i < pl.len() && (#[trigger] nm[i]) == v && !pl[i],
    )
}

/// A machine-level edge list read as mathematical index pairs.
pub open spec fn int_pairs(es: Seq<(usize, usize)>) -> Seq<(int, int)> {
    es.map(|_t: int, p: (usize, usize)| (p.0 as int, p.1 as int))
}

/// `index_of` really finds the needle once it is known to occur.
pub proof fn lemma_index_of_props(nm: Seq<Name>, k: Name)
    requires
        nm.contains(k),
    ensures
        0 <= nm.index_of(k) < nm.len(),
        nm[nm.index_of(k)] == k,
{
}

/// Without duplicate names, an index holding the needle is the found index.
pub proof fn lemma_index_of_unique(nm: Seq<Name>, k: Name, i: int)
    requires
        nm.no_duplicates(),
        0 <= i < nm.len(),
        nm[i] == k,
    ensures
        nm.index_of(k) == i,
{
    assert(nm.contains(k));
    lemma_index_of_props(nm, k);
}

/// Positionally, the dependency map reads back exactly the two tables.
pub proof fn lemma_dep_map_index(nm: Seq<Name>, dv: Seq<Seq<Name>>, i: int)
    requires
        arrays_wf(nm, dv),
        0 <= i < nm.len(),
    ensures
        dep_map_of(nm, dv).dom().contains(nm[i]),
        dep_map_of(nm, dv)[nm[i]] == dv[i],
{
    assert(nm.contains(nm[i]));
    lemma_index_of_unique(nm, nm[i], i);
}

/// The dependency map's domain is the finite set of declared names.
pub proof fn lemma_dep_map_dom(nm: Seq<Name>, dv: Seq<Seq<Name>>)
    ensures
        dep_map_of(nm, dv).dom() == nm.to_set(),
        dep_map_of(nm, dv).dom().finite(),
{
    broadcast use vstd::seq_lib::seq_to_set_is_finite;

    assert(dep_map_of(nm, dv).dom() =~= nm.to_set());
}

/// Marking one unplaced slot raises the placed count by one.
pub proof fn lemma_count_true_update(pl: Seq<bool>, i: int)
    requires
        0 <= i < pl.len(),
        !pl[i],
    ensures
        count_true(pl.update(i, true)) == count_true(pl) + 1,
    decreases pl.len(),
{
    let upd = pl.update(i, true);
    if i == pl.len() - 1 {
        assert(upd.drop_last() =~= pl.drop_last());
    } else {
        assert(upd.drop_last() =~= pl.drop_last().update(i, true));
        lemma_count_true_update(pl.drop_last(), i);
    }
}

/// The placed count never exceeds the number of slots.
pub proof fn lemma_count_true_le_len(pl: Seq<bool>)
    ensures
        count_true(pl) <= pl.len(),
    decreases pl.len(),
{
    if pl.len() > 0 {
        lemma_count_true_le_len(pl.drop_last());
    }
}

/// A full placed count means every slot is marked.
pub proof fn lemma_count_true_full(pl: Seq<bool>)
    requires
        count_true(pl) == pl.len(),
    ensures
        forall|i: int| 0 <= i < pl.len() ==> pl[i],
    decreases pl.len(),
{
    if pl.len() > 0 {
        lemma_count_true_le_len(pl.drop_last());
        lemma_count_true_full(pl.drop_last());
        assert(pl[pl.len() - 1] == pl.last());
        assert(forall|i: int|
            0 <= i < pl.len() - 1 ==> #[trigger] pl[i] == pl.drop_last()[i]);
    }
}

/// Marking every slot yields a full placed count.
pub proof fn lemma_count_true_all(pl: Seq<bool>)
    requires
        forall|i: int| 0 <= i < pl.len() ==> pl[i],
    ensures
        count_true(pl) == pl.len(),
    decreases pl.len(),
{
    if pl.len() > 0 {
        assert(forall|i: int| 0 <= i < pl.len() - 1 ==> #[trigger] pl.drop_last()[i] == pl[i]);
        lemma_count_true_all(pl.drop_last());
        assert(pl.last() == pl[pl.len() - 1]);
    }
}

/// Appending an unmarked slot leaves the placed count unchanged.
pub proof fn lemma_count_true_push_false(pl: Seq<bool>)
    ensures
        count_true(pl.push(false)) == count_true(pl),
{
    assert(pl.push(false).drop_last() =~= pl);
}

/// The per-tranche membership sets of an emitted tranche list.
pub open spec fn sets_of(ts: Seq<Seq<Name>>) -> Seq<Set<Name>> {
    ts.map(|_t: int, l: Seq<Name>| l.to_set())
}

/// With unique names, slot `k` waits exactly while it is unmarked.
pub proof fn lemma_remaining_membership(nm: Seq<Name>, pl: Seq<bool>, k: int)
    requires
        nm.no_duplicates(),
        pl.len() == nm.len(),
        0 <= k < nm.len(),
    ensures
        remaining_set(nm, pl).contains(nm[k]) <==> !pl[k],
{
    if remaining_set(nm, pl).contains(nm[k]) {
        let i = choose|i: int|
            0 <= i < nm.len() && i < pl.len() && (#[trigger] nm[i]) == nm[k] && !pl[i];
        if i != k {
            assert(nm[i] != nm[k]);
        }
    }
}

/// The waiting names form a finite part of the declared names.
pub proof fn lemma_remaining_subset(nm: Seq<Name>, pl: Seq<bool>)
    ensures
        remaining_set(nm, pl).subset_of(nm.to_set()),
        remaining_set(nm, pl).finite(),
{
    broadcast use vstd::seq_lib::seq_to_set_is_finite;
    broadcast use vstd::set_lib::lemma_set_subset_finite;

    assert forall|v: Name| remaining_set(nm, pl).contains(v) implies nm.to_set().contains(v) by {
        let i = choose|i: int|
            0 <= i < nm.len() && i < pl.len() && (#[trigger] nm[i]) == v && !pl[i];
        assert(nm.contains(v));
    }
    assert(remaining_set(nm, pl).subset_of(nm.to_set()));
}

/// When nothing in `s` is placeable, a walk of any requested length can be
/// grown inside `s` along dependency edges.
proof fn lemma_build_walk(m: Map<Name, Seq<Name>>, s: Set<Name>, v: Name, k: nat) -> (p: Seq<Name>)
    requires
        s.contains(v),
        frontier(m, s).is_empty(),
    ensures
        p.len() == k + 1,
        p[0] == v,
        forall|i: int| 0 <= i < p.len() ==> s.contains(#[trigger] p[i]),
        forall|i: int| 0 <= i < p.len() - 1 ==> depends_on(m, #[trigger] p[i], p[i + 1]),
    decreases k,
{
    if k == 0 {
        seq![v]
    } else {
        assert(!frontier(m, s).contains(v));
        assert(!placeable(m, s, v));
        let w = choose|w: Name| #[trigger] depends_on(m, v, w) && s.contains(w);
        let rest = lemma_build_walk(m, s, w, (k - 1) as nat);
        let p = seq![v] + rest;
        assert(forall|i: int| 1 <= i < p.len() ==> #[trigger] p[i] == rest[i - 1]);
        assert(p[0] == v);
        assert(depends_on(m, p[0], p[1]));
        p
    }
}

/// A walk longer than the finite set it stays in repeats an element.
proof fn lemma_walk_repeats(p: Seq<Name>, s: Set<Name>) -> (ij: (int, int))
    requires
        s.finite(),
        p.len() > s.len(),
        forall|i: int| 0 <= i < p.len() ==> s.contains(#[trigger] p[i]),
    ensures
        0 <= ij.0 < ij.1 < p.len(),
        p[ij.0] == p[ij.1],
{
    if p.no_duplicates() {
        p.unique_seq_to_set();
        assert(p.to_set().subset_of(s)) by {
            assert(forall|v: Name| #[trigger] p.to_set().contains(v) ==> s.contains(v));
        }
        vstd::set_lib::lemma_len_subset(p.to_set(), s);
        assert(false);
    }
    let (i, j) = choose|i: int, j: int|
        0 <= i < p.len() && 0 <= j < p.len() && i != j && #[trigger] p[i] == #[trigger] p[j];
    if i < j {
        (i, j)
    } else {
        (j, i)
    }
}

/// On an acyclic dependency relation, every nonempty set of waiting elements
/// has a placeable element: tranche generation always makes progress.
pub proof fn lemma_frontier_nonempty(m: Map<Name, Seq<Name>>, s: Set<Name>)
    requires
        s.finite(),
        !s.is_empty(),
        !has_cycle(m),
    ensures
        !frontier(m, s).is_empty(),
{
    if frontier(m, s).is_empty() {
        let v = s.choose();
        assert(s.contains(v));
        let p = lemma_build_walk(m, s, v, s.len());
        let (i, j) = lemma_walk_repeats(p, s);
        let cyc = p.subrange(i, j + 1);
        assert(is_dependency_cycle(m, cyc)) by {
            assert(cyc.len() == j + 1 - i >= 2);
            assert(cyc[0] == p[i]);
            assert(cyc[cyc.len() - 1] == p[j]);
            assert(forall|t: int| 0 <= t < cyc.len() - 1 ==> #[trigger] cyc[t] == p[i + t]
                && cyc[t + 1] == p[i + t + 1]);
        }
        assert(has_cycle(m));
    }
}

/// A cycle among node indices names a cycle among the elements.
pub proof fn lemma_index_cycle_to_name_cycle(es: Seq<(int, int)>, nm: Seq<Name>, dv: Seq<Seq<Name>>)
    requires
        arrays_wf(nm, dv),
        edge_endpoints_ok(es, nm, dv),
        index_cycle_exists(es),
    ensures
        has_cycle(dep_map_of(nm, dv)),
{
    let m = dep_map_of(nm, dv);
    let p = choose|p: Seq<int>| is_index_cycle(es, p);
    assert(forall|i: int| 0 <= i < p.len() - 1 ==> 0 <= #[trigger] p[i] < nm.len() && 0 <= p[i
        + 1] < nm.len()) by {
        assert forall|i: int| 0 <= i < p.len() - 1 implies 0 <= #[trigger] p[i] < nm.len() && 0
            <= p[i + 1] < nm.len() by {
            assert(edge_listed(es, p[i], p[i + 1]));
            let k = choose|k: int| 0 <= k < es.len() && es[k] == (p[i], p[i + 1]);
            assert(es[k].0 == p[i] && es[k].1 == p[i + 1]);
        }
    }
    let q = p.map(|_t: int, a: int| nm[a]);
    assert(is_dependency_cycle(m, q)) by {
        assert(q.len() == p.len());
        assert(q[0] == nm[p[0]]);
        assert(q[q.len() - 1] == nm[p[p.len() - 1]]);
        assert forall|i: int| 0 <= i < q.len() - 1 implies depends_on(m, #[trigger] q[i], q[i + 1]) by {
            assert(edge_listed(es, p[i], p[i + 1]));
            let k = choose|k: int| 0 <= k < es.len() && es[k] == (p[i], p[i + 1]);
            assert(dv[p[i]].contains(nm[p[i + 1]]));
            lemma_dep_map_index(nm, dv, p[i]);
            lemma_dep_map_index(nm, dv, p[i + 1]);
            assert(q[i] == nm[p[i]] && q[i + 1] == nm[p[i + 1]]);
        }
    }
}

/// A cycle among the elements shows up as a cycle among node indices.
pub proof fn lemma_name_cycle_to_index_cycle(es: Seq<(int, int)>, nm: Seq<Name>, dv: Seq<Seq<Name>>)
    requires
        arrays_wf(nm, dv),
        lists_dependency_edges(es, nm, dv),
        has_cycle(dep_map_of(nm, dv)),
    ensures
        index_cycle_exists(es),
{
    let m = dep_map_of(nm, dv);
    let q = choose|q: Seq<Name>| is_dependency_cycle(m, q);
    assert(forall|i: int| 0 <= i < q.len() ==> m.dom().contains(#[trigger] q[i])) by {
        assert forall|i: int| 0 <= i < q.len() implies m.dom().contains(#[trigger] q[i]) by {
            if i < q.len() - 1 {
                assert(depends_on(m, q[i], q[i + 1]));
            } else {
                assert(q[i] == q[0]);
                assert(depends_on(m, q[0], q[1]));
            }
        }
    }
    let p = q.map(|_t: int, x: Name| nm.index_of(x));
    assert(is_index_cycle(es, p)) by {
        assert(p.len() == q.len());
        assert forall|i: int| 0 <= i < p.len() - 1 implies edge_listed(
            es,
            #[trigger] p[i],
            p[i + 1],
        ) by {
            assert(depends_on(m, q[i], q[i + 1]));
            assert(nm.contains(q[i]) && nm.contains(q[i + 1]));
            lemma_index_of_props(nm, q[i]);
            lemma_index_of_props(nm, q[i + 1]);
            let a = nm.index_of(q[i]);
            let b = nm.index_of(q[i + 1]);
            assert(m[q[i]] == dv[a]);
            assert(dv[a].contains(nm[b]));
        }
        assert(p[0] == nm.index_of(q[0]));
        assert(p[p.len() - 1] == nm.index_of(q[q.len() - 1]));
        assert(q[0] == q[q.len() - 1]);
    }
}

/// Structure of the peeled layers: together they cover `s` exactly, each is a
/// nonempty finite part of `s`, and no element appears in two layers.
pub proof fn lemma_layers_from_props(m: Map<Name, Seq<Name>>, s: Set<Name>)
    requires
        s.finite(),
        !has_cycle(m),
    ensures
        union_of(layers_from(m, s)) == s,
        forall|i: int| 0 <= i < layers_from(m, s).len() ==> (#[trigger] layers_from(m, s)[i]).subset_of(s),
        forall|i: int| 0 <= i < layers_from(m, s).len() ==> !(#[trigger] layers_from(m, s)[i]).is_empty(),
        forall|i: int| 0 <= i < layers_from(m, s).len() ==> (#[trigger] layers_from(m, s)[i]).finite(),
        forall|i: int, j: int, v: Name|
            #![trigger layers_from(m, s)[i].contains(v), layers_from(m, s)[j].contains(v)]
            0 <= i < j < layers_from(m, s).len() && layers_from(m, s)[i].contains(v)
                ==> !layers_from(m, s)[j].contains(v),
    decreases s.len(),
{
    let ls = layers_from(m, s);
    if s.is_empty() {
        assert(union_of(ls) =~= s);
    } else {
        lemma_frontier_nonempty(m, s);
        let f = frontier(m, s);
        let rest_s = s.difference(f);
        assert(f.subset_of(s));
        broadcast use vstd::set_lib::lemma_set_subset_finite;

        assert(f.finite());
        assert(rest_s.subset_of(s));
        assert(rest_s.finite());
        let v = f.choose();
        assert(f.contains(v));
        assert(s.difference(f).subset_of(s.remove(v)));
        vstd::set_lib::lemma_len_subset(s.difference(f), s.remove(v));
        lemma_layers_from_props(m, rest_s);
        let lr = layers_from(m, rest_s);
        assert(ls == seq![f] + lr);
        assert(ls.drop_first() =~= lr);
        assert(ls[0] == f);
        assert(forall|i: int| 1 <= i < ls.len() ==> #[trigger] ls[i] == lr[i - 1]);
        assert(union_of(ls) == f.union(union_of(lr)));
        assert(union_of(ls) =~= s);
        assert forall|i: int, j: int, v2: Name|
            #![trigger ls[i].contains(v2), ls[j].contains(v2)]
            0 <= i < j < ls.len() && ls[i].contains(v2) implies !ls[j].contains(v2) by {
            if i == 0 {
                assert(ls[j] == lr[j - 1]);
                assert(lr[j - 1].subset_of(rest_s));
                assert(!rest_s.contains(v2));
            } else {
                assert(ls[i] == lr[i - 1] && ls[j] == lr[j - 1]);
            }
        }
    }
}

/// Inside the peeled layers, a dependency always sits strictly earlier than
/// the element that declares it.
pub proof fn lemma_layers_from_precedence(
    m: Map<Name, Seq<Name>>,
    s: Set<Name>,
    a: Name,
    b: Name,
    i: int,
    j: int,
)
    requires
        s.finite(),
        !has_cycle(m),
        depends_on(m, a, b),
        0 <= i < layers_from(m, s).len(),
        0 <= j < layers_from(m, s).len(),
        layers_from(m, s)[i].contains(a),
        layers_from(m, s)[j].contains(b),
    ensures
        j < i,
    decreases s.len(),
{
    let ls = layers_from(m, s);
    assert(!s.is_empty() && !frontier(m, s).is_empty());
    let f = frontier(m, s);
    let rest_s = s.difference(f);
    let v = f.choose();
    assert(f.contains(v));
    assert(s.difference(f).subset_of(s.remove(v)));
    vstd::set_lib::lemma_len_subset(s.difference(f), s.remove(v));
    broadcast use vstd::set_lib::lemma_set_subset_finite;

    assert(f.subset_of(s));
    assert(rest_s.subset_of(s));
    let lr = layers_from(m, rest_s);
    assert(ls == seq![f] + lr);
    assert(ls.drop_first() =~= lr);
    assert(ls[0] == f);
    assert(forall|t: int| 1 <= t < ls.len() ==> #[trigger] ls[t] == lr[t - 1]);
    if i == 0 {
        // a is placeable in s, so b already left s; yet every layer sits inside s.
        assert(placeable(m, s, a));
        assert(!s.contains(b));
        lemma_layers_from_props(m, s);
        assert(ls[j].subset_of(s));
        assert(false);
    } else if j == 0 {
    } else {
        lemma_layers_from_precedence(m, rest_s, a, b, i - 1, j - 1);
    }
}

} // verus!

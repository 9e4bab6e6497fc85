use vstd::prelude::*;
use crate::deps::DependenciesBuilder;
use crate::model::{
    depends_on, has_cycle, integrity_ok, layers, lemma_layers_from_precedence,
    lemma_layers_from_props, union_of, Name,
};

verus! {

/// Membership in a union of layers is membership in some layer.
proof fn lemma_union_of_membership(ls: Seq<Set<Name>>, v: Name)
    ensures
        union_of(ls).contains(v) <==> exists|i: int| 0 <= i < ls.len() && (#[trigger] ls[i]).contains(v),
    decreases ls.len(),
{
    if ls.len() > 0 {
        lemma_union_of_membership(ls.drop_first(), v);
        if union_of(ls).contains(v) {
            if ls[0].contains(v) {
                assert(0 <= 0 < ls.len() && ls[0].contains(v));
            } else {
                let i = choose|i: int|
                    0 <= i < ls.drop_first().len() && (#[trigger] ls.drop_first()[i]).contains(v);
                assert(ls[i + 1].contains(v));
            }
        }
        if exists|i: int| 0 <= i < ls.len() && (#[trigger] ls[i]).contains(v) {
            let i = choose|i: int| 0 <= i < ls.len() && (#[trigger] ls[i]).contains(v);
            if i > 0 {
                assert(ls.drop_first()[i - 1].contains(v));
            }
        }
    }
}

/// Idempotence of registration order: two builders whose registration
/// sequences produced the same final name-to-dependency-list map cannot be
/// told apart afterwards. Both validation checks and the tranche layering
/// are functions of that map alone, so validation succeeds or fails alike
/// (`build`'s contract fixes the verdict by `integrity_ok` and `has_cycle`)
/// and the emitted tranches have the same membership sets in the same order
/// (`generate_tranches`'s contract fixes them by `layers`).
pub proof fn lemma_registration_order_irrelevant(
    b1: &DependenciesBuilder,
    b2: &DependenciesBuilder,
)
    requires
        b1@ == b2@,
    ensures
        integrity_ok(b1@) == integrity_ok(b2@),
        has_cycle(b1@) == has_cycle(b2@),
        layers(b1@) == layers(b2@),
{
}

/// Tranche partition law: the tranches of a validated dependency map hold
/// every declared element exactly once — an element always lands in some
/// tranche, never in two, and no tranche is empty or strays outside the
/// declared elements.
pub proof fn lemma_tranche_partition(m: Map<Name, Seq<Name>>)
    requires
        m.dom().finite(),
        integrity_ok(m),
        !has_cycle(m),
    ensures
        union_of(layers(m)) == m.dom(),
        forall|v: Name|
            #[trigger] m.dom().contains(v) <==> exists|i: int|
                0 <= i < layers(m).len() && (#[trigger] layers(m)[i]).contains(v),
        forall|i: int, j: int, v: Name|
            #![trigger layers(m)[i].contains(v), layers(m)[j].contains(v)]
            0 <= i < j < layers(m).len() && layers(m)[i].contains(v)
                ==> !layers(m)[j].contains(v),
        forall|i: int| 0 <= i < layers(m).len() ==> !(#[trigger] layers(m)[i]).is_empty(),
        forall|i: int| 0 <= i < layers(m).len() ==> (#[trigger] layers(m)[i]).subset_of(m.dom()),
{
    lemma_layers_from_props(m, m.dom());
    assert forall|v: Name| #[trigger]
        m.dom().contains(v) <==> exists|i: int|
            0 <= i < layers(m).len() && (#[trigger] layers(m)[i]).contains(v) by {
        lemma_union_of_membership(layers(m), v);
    }
}

/// Dependency precedence law: when element `a` depends on element `b`, the
/// tranche holding `b` comes strictly before the tranche holding `a`.
pub proof fn lemma_dependency_precedence(
    m: Map<Name, Seq<Name>>,
    a: Name,
    b: Name,
    i: int,
    j: int,
)
    requires
        m.dom().finite(),
        integrity_ok(m),
        !has_cycle(m),
        depends_on(m, a, b),
        0 <= i < layers(m).len(),
        0 <= j < layers(m).len(),
        layers(m)[i].contains(a),
        layers(m)[j].contains(b),
    ensures
        j < i,
{
    lemma_layers_from_precedence(m, m.dom(), a, b, i, j);
}

} // verus!

//! The entity dependency resolver: map a collection of named entities into a
//! `DirectedGraph` with one edge per order-constraining reference, ask the
//! graph for a topological order, and translate the order back into entities.
//! Name lookup is last-wins: of entities sharing a name, the later one
//! shadows the earlier in the index map.

use vstd::prelude::*;
use crate::graph::{DirectedGraph, append_dedup, lemma_append_dedup_contains};
use crate::kahn::spec_topological_sort;
use crate::order::{edge, has_cycle, lemma_cycle_excludes_topological_order, valid_topo_order};
use crate::sobject::{
    SObject,
    SObjectView,
    LookupFieldView,
    LookupType,
    DeleteConstraint,
    constrains_delete,
    views_of,
    clone_sobject,
};

verus! {

/// Why no deletion order was produced.
#[derive(Clone, Copy, Debug, PartialEq, Eq, Structural)]
pub enum OrderError {
    /// The order-constraining references form a cycle; no linear order can
    /// satisfy them all.
    CycleDetected,
    /// An order-constraining reference names an entity that is not in the
    /// input collection.
    UnknownTarget,
}

/// The index of the last entry of `names` equal to `target`, if any.
pub open spec fn last_index_of_name(names: Seq<Seq<char>>, target: Seq<char>) -> Option<int>
    decreases names.len(),
{
    if names.len() == 0 {
        None
    } else if names.last() == target {
        Some(names.len() - 1)
    } else {
        last_index_of_name(names.drop_last(), target)
    }
}

/// What the index map answers for `name`: the position of the last entity
/// so named.
pub open spec fn name_index(s: Seq<SObjectView>, name: Seq<char>) -> Option<int> {
    last_index_of_name(s.map_values(|o: SObjectView| o.name), name)
}

/// A found index is in range and names `target`; a miss means no entry does.
pub proof fn lemma_last_index_of_name_props(names: Seq<Seq<char>>, target: Seq<char>)
    ensures
        match last_index_of_name(names, target) {
            Some(i) => 0 <= i < names.len() && names[i] == target,
            None => forall|j: int| 0 <= j < names.len() ==> #[trigger] names[j] != target,
        },
    decreases names.len(),
{
    if names.len() > 0 && names.last() != target {
        lemma_last_index_of_name_props(names.drop_last(), target);
        if last_index_of_name(names, target) is None {
            assert forall|j: int| 0 <= j < names.len() implies #[trigger] names[j] != target by {
                if j < names.len() - 1 {
                    assert(names.drop_last()[j] == names[j]);
                }
            }
        } else {
            let i = last_index_of_name(names.drop_last(), target)->Some_0;
            assert(names.drop_last()[i] == target);
        }
    }
}

/// The graph targets that one entity's reference list induces, in reference
/// order: one entry per order-constraining reference, holding the index of
/// the entity it names; no value at all when such a reference names an
/// unknown entity.
pub open spec fn field_targets(s: Seq<SObjectView>, fields: Seq<LookupFieldView>) -> Option<
    Seq<usize>,
>
    decreases fields.len(),
{
    if fields.len() == 0 {
        Some(Seq::empty())
    } else {
        match field_targets(s, fields.drop_last()) {
            None => None,
            Some(targets) => {
                let f = fields.last();
                if constrains_delete(f) {
                    match name_index(s, f.target_sobject) {
                        None => None,
                        Some(i) => Some(targets.push(i as usize)),
                    }
                } else {
                    Some(targets)
                }
            },
        }
    }
}

/// The adjacency rows of the dependency graph for the first `k` entities.
pub open spec fn build_rows(s: Seq<SObjectView>, k: int) -> Option<Seq<Seq<usize>>>
    decreases k,
{
    if k <= 0 {
        Some(Seq::empty())
    } else {
        match build_rows(s, k - 1) {
            None => None,
            Some(rows) => match field_targets(s, s[k - 1].lookup_fields) {
                None => None,
                Some(targets) => Some(rows.push(append_dedup(Seq::empty(), targets))),
            },
        }
    }
}

/// The dependency graph that a collection of entities induces, or nothing
/// when an order-constraining reference cannot be resolved.
pub open spec fn spec_to_graph(s: Seq<SObjectView>) -> Option<Seq<Seq<usize>>> {
    build_rows(s, s.len() as int)
}

/// Entity `a` carries an order-constraining reference that resolves to
/// entity `b`, so `a` must be deleted before `b`.
pub open spec fn entity_edge(s: Seq<SObjectView>, a: usize, b: usize) -> bool {
    (a as int) < s.len() && exists|k: int|
        0 <= k < s[a as int].lookup_fields.len() && constrains_delete(
            #[trigger] s[a as int].lookup_fields[k],
        ) && name_index(s, s[a as int].lookup_fields[k].target_sobject) == Some(b as int)
}

/// Some order-constraining reference names an entity outside the collection.
pub open spec fn has_unresolved_reference(s: Seq<SObjectView>) -> bool {
    exists|a: int, k: int|
        0 <= a < s.len() && 0 <= k < s[a].lookup_fields.len() && constrains_delete(
            #[trigger] s[a].lookup_fields[k],
        ) && name_index(s, s[a].lookup_fields[k].target_sobject) is None
}

/// The deletion order of a collection of entities: the topological order of
/// its dependency graph, read back as entities.
pub open spec fn spec_delete_order(s: Seq<SObjectView>) -> Result<Seq<SObjectView>, OrderError> {
    match spec_to_graph(s) {
        None => Err(OrderError::UnknownTarget),
        Some(g) => match spec_topological_sort(g) {
            None => Err(OrderError::CycleDetected),
            Some(order) => Ok(order.map_values(|i: usize| s[i as int])),
        },
    }
}

/// A target list holds an index exactly when some order-constraining
/// reference of the list resolves to it.
pub proof fn lemma_field_targets_contains(
    s: Seq<SObjectView>,
    fields: Seq<LookupFieldView>,
    targets: Seq<usize>,
    b: usize,
)
    requires
        s.len() <= usize::MAX,
        field_targets(s, fields) == Some(targets),
    ensures
        targets.contains(b) <==> exists|k: int|
            0 <= k < fields.len() && constrains_delete(#[trigger] fields[k]) && name_index(
                s,
                fields[k].target_sobject,
            ) == Some(b as int),
    decreases fields.len(),
{
    if fields.len() > 0 {
        let prev = field_targets(s, fields.drop_last())->Some_0;
        lemma_field_targets_contains(s, fields.drop_last(), prev, b);
        let f = fields.last();
        assert(forall|k: int|
            0 <= k < fields.len() - 1 ==> #[trigger] fields[k] == fields.drop_last()[k]);
        if constrains_delete(f) {
            let i = name_index(s, f.target_sobject)->Some_0;
            let pushed = prev.push(i as usize);
            assert(targets == pushed);
            assert(forall|k: int| 0 <= k < prev.len() ==> #[trigger] pushed[k] == prev[k]);
            assert(pushed[pushed.len() - 1] == i as usize);
            if targets.contains(b) {
                let k = choose|k: int| 0 <= k < pushed.len() && pushed[k] == b;
                if k < prev.len() {
                    assert(prev.contains(b));
                } else {
                    assert(b == i as usize);
                    assert(0 <= i < s.len()) by {
                        lemma_last_index_of_name_props(
                            s.map_values(|o: SObjectView| o.name),
                            f.target_sobject,
                        );
                    }
                    assert(constrains_delete(fields[fields.len() - 1]));
                    assert(name_index(s, fields[fields.len() - 1].target_sobject) == Some(
                        b as int,
                    ));
                }
            }
            if exists|k: int|
                0 <= k < fields.len() && constrains_delete(#[trigger] fields[k]) && name_index(
                    s,
                    fields[k].target_sobject,
                ) == Some(b as int) {
                let k = choose|k: int|
                    0 <= k < fields.len() && constrains_delete(#[trigger] fields[k]) && name_index(
                        s,
                        fields[k].target_sobject,
                    ) == Some(b as int);
                if k < fields.len() - 1 {
                    assert(prev.contains(b));
                    let k2 = choose|k2: int| 0 <= k2 < prev.len() && prev[k2] == b;
                    assert(pushed[k2] == b);
                } else {
                    assert(0 <= i < s.len()) by {
                        lemma_last_index_of_name_props(
                            s.map_values(|o: SObjectView| o.name),
                            f.target_sobject,
                        );
                    }
                    assert(pushed[pushed.len() - 1] == b);
                }
            }
        } else {
            if prev.contains(b) {
                let k2 = choose|k2: int| 0 <= k2 < prev.len() && prev[k2] == b;
            }
        }
    }
}

/// A reference list yields no target list exactly when one of its
/// order-constraining references is unresolved.
pub proof fn lemma_field_targets_none(s: Seq<SObjectView>, fields: Seq<LookupFieldView>)
    ensures
        (field_targets(s, fields) is None) <==> exists|k: int|
            0 <= k < fields.len() && constrains_delete(#[trigger] fields[k]) && name_index(
                s,
                fields[k].target_sobject,
            ) is None,
    decreases fields.len(),
{
    if fields.len() > 0 {
        lemma_field_targets_none(s, fields.drop_last());
        assert(forall|k: int|
            0 <= k < fields.len() - 1 ==> #[trigger] fields[k] == fields.drop_last()[k]);
        if field_targets(s, fields) is None {
            if field_targets(s, fields.drop_last()) is None {
                let k = choose|k: int|
                    0 <= k < fields.drop_last().len() && constrains_delete(
                        #[trigger] fields.drop_last()[k],
                    ) && name_index(s, fields.drop_last()[k].target_sobject) is None;
                assert(constrains_delete(fields[k]) && name_index(
                    s,
                    fields[k].target_sobject,
                ) is None);
            } else {
                assert(constrains_delete(fields[fields.len() - 1]) && name_index(
                    s,
                    fields[fields.len() - 1].target_sobject,
                ) is None);
            }
        }
        if exists|k: int|
            0 <= k < fields.len() && constrains_delete(#[trigger] fields[k]) && name_index(
                s,
                fields[k].target_sobject,
            ) is None {
            let k = choose|k: int|
                0 <= k < fields.len() && constrains_delete(#[trigger] fields[k]) && name_index(
                    s,
                    fields[k].target_sobject,
                ) is None;
            if k < fields.len() - 1 {
                assert(constrains_delete(fields.drop_last()[k]) && name_index(
                    s,
                    fields.drop_last()[k].target_sobject,
                ) is None);
                assert(field_targets(s, fields.drop_last()) is None);
            }
        }
    }
}

/// The graph build fails on the first `k` entities exactly when one of them
/// has an unresolved order-constraining reference.
pub proof fn lemma_build_rows_none(s: Seq<SObjectView>, k: int)
    ensures
        (build_rows(s, k) is None) <==> exists|a: int|
            0 <= a < k && field_targets(s, (#[trigger] s[a]).lookup_fields) is None,
    decreases k,
{
    if k > 0 {
        lemma_build_rows_none(s, k - 1);
        if build_rows(s, k) is None {
            if build_rows(s, k - 1) is None {
                let a = choose|a: int|
                    0 <= a < k - 1 && field_targets(s, (#[trigger] s[a]).lookup_fields) is None;
                assert(0 <= a < k && field_targets(s, s[a].lookup_fields) is None);
            } else {
                assert(field_targets(s, s[k - 1].lookup_fields) is None);
            }
        }
        if exists|a: int| 0 <= a < k && field_targets(s, (#[trigger] s[a]).lookup_fields) is None {
            let a = choose|a: int|
                0 <= a < k && field_targets(s, (#[trigger] s[a]).lookup_fields) is None;
            if a < k - 1 {
                assert(build_rows(s, k - 1) is None);
            }
        }
    }
}

/// No dependency graph exists exactly when some order-constraining
/// reference is unresolved.
pub proof fn lemma_spec_to_graph_none_iff(s: Seq<SObjectView>)
    ensures
        (spec_to_graph(s) is None) <==> has_unresolved_reference(s),
{
    lemma_build_rows_none(s, s.len() as int);
    if spec_to_graph(s) is None {
        let a = choose|a: int|
            0 <= a < s.len() && field_targets(s, (#[trigger] s[a]).lookup_fields) is None;
        lemma_field_targets_none(s, s[a].lookup_fields);
        let k = choose|k: int|
            0 <= k < s[a].lookup_fields.len() && constrains_delete(
                #[trigger] s[a].lookup_fields[k],
            ) && name_index(s, s[a].lookup_fields[k].target_sobject) is None;
        assert(0 <= a < s.len() && 0 <= k < s[a].lookup_fields.len() && constrains_delete(
            s[a].lookup_fields[k],
        ) && name_index(s, s[a].lookup_fields[k].target_sobject) is None);
    }
    if has_unresolved_reference(s) {
        let (a, k) = choose|a: int, k: int|
            0 <= a < s.len() && 0 <= k < s[a].lookup_fields.len() && constrains_delete(
                #[trigger] s[a].lookup_fields[k],
            ) && name_index(s, s[a].lookup_fields[k].target_sobject) is None;
        lemma_field_targets_none(s, s[a].lookup_fields);
        assert(field_targets(s, s[a].lookup_fields) is None);
    }
}

/// The values of a list of names.
pub open spec fn string_views(names: Seq<String>) -> Seq<Seq<char>> {
    names.map_values(|n: String| n@)
}

/// The name→index map, realised as the name list in entity order; lookups
/// scan it from the end, so a later entity shadows an earlier one of the
/// same name.
pub fn map_name_to_index(sobjects: &Vec<SObject>) -> (names: Vec<String>)
    ensures
        names@.len() == sobjects@.len(),
        forall|i: int| 0 <= i < names@.len() ==> (#[trigger] names@[i])@ == sobjects@[i]@.name,
{
    let mut names: Vec<String> = Vec::with_capacity(sobjects.len());
    let mut i: usize = 0;
    while i < sobjects.len()
        invariant
            i <= sobjects@.len(),
            names@.len() == i,
            forall|k: int| 0 <= k < i ==> (#[trigger] names@[k])@ == sobjects@[k]@.name,
        decreases sobjects@.len() - i,
    {
        names.push(sobjects[i].name.clone());
        i += 1;
    }
    names
}

/// Find `target` in the name list, last occurrence first.
#[verifier::loop_isolation(false)]
fn lookup_name(names: &Vec<String>, target: &String) -> (r: Option<usize>)
    ensures
        match r {
            Some(i) => (i as int) < names@.len() && last_index_of_name(
                string_views(names@),
                target@,
            ) == Some(i as int),
            None => last_index_of_name(string_views(names@), target@) is None,
        },
{
    let ghost nv = string_views(names@);
    proof {
        assert(nv.take(names@.len() as int) =~= nv);
    }
    let mut i: usize = names.len();
    while i > 0
        invariant
            i <= names@.len(),
            last_index_of_name(nv, target@) == last_index_of_name(nv.take(i as int), target@),
        decreases i,
    {
        let j = i - 1;
        proof {
            assert(nv.take(i as int).last() == nv[j as int]);
            assert(nv.take(i as int).drop_last() =~= nv.take(j as int));
        }
        if names[j].eq(target) {
            return Some(j);
        }
        i = j;
    }
    proof {
        assert(nv.take(0) =~= Seq::<Seq<char>>::empty());
    }
    None
}

/// Build the dependency graph: one edge per order-constraining reference,
/// from the referencing entity to the entity its target name resolves to.
/// The build fails exactly when such a reference names an unknown entity.
#[verifier::loop_isolation(false)]
pub fn to_graph(sobjects: &Vec<SObject>) -> (r: Result<DirectedGraph, OrderError>)
    ensures
        match r {
            Ok(graph) => {
                &&& graph.inv()
                &&& graph@.len() == sobjects@.len()
                &&& spec_to_graph(views_of(sobjects@)) == Some(graph@)
                &&& forall|a: usize, b: usize|
                    #[trigger] edge(graph@, a, b) <==> entity_edge(views_of(sobjects@), a, b)
            },
            Err(e) => e == OrderError::UnknownTarget && spec_to_graph(views_of(sobjects@)) is None,
        },
        (r is Err) <==> has_unresolved_reference(views_of(sobjects@)),
{
    let ghost s = views_of(sobjects@);
    let names = map_name_to_index(sobjects);
    proof {
        assert(string_views(names@) =~= s.map_values(|o: SObjectView| o.name));
    }
    let n = sobjects.len();
    let mut graph = DirectedGraph::new(n);
    let mut index: usize = 0;
    while index < n
        invariant
            index <= n,
            graph.inv(),
            graph@.len() == n,
            build_rows(s, index as int) == Some(graph@.take(index as int)),
            forall|u: int| index <= u < n ==> (#[trigger] graph@[u]).len() == 0,
            forall|a: usize, b: usize|
                #[trigger] edge(graph@, a, b) <==> ((a as int) < index && entity_edge(s, a, b)),
        decreases n - index,
    {
        let ghost fields = s[index as int].lookup_fields;
        let mut edges: Vec<usize> = Vec::with_capacity(sobjects[index].lookup_fields.len());
        let mut k: usize = 0;
        while k < sobjects[index].lookup_fields.len()
            invariant
                k <= fields.len(),
                field_targets(s, fields.take(k as int)) == Some(edges@),
                forall|j: int| 0 <= j < edges@.len() ==> (#[trigger] edges@[j] as int) < n,
            decreases fields.len() - k,
        {
            let field = &sobjects[index].lookup_fields[k];
            proof {
                assert(fields[k as int] == field@);
                assert(fields.take(k + 1).drop_last() =~= fields.take(k as int));
                assert(fields.take(k + 1).last() == fields[k as int]);
            }
            if field.lookup_type == LookupType::Lookup && field.delete_constraint
                == DeleteConstraint::Restrict {
                match lookup_name(&names, &field.target_sobject) {
                    None => {
                        proof {
                            assert(name_index(s, fields[k as int].target_sobject) is None);
                            assert(constrains_delete(fields[k as int]));
                            assert(has_unresolved_reference(s)) by {
                                assert(0 <= (index as int) < s.len() && 0 <= (k as int) < s[
                                    index as int
                                ].lookup_fields.len() && constrains_delete(
                                    s[index as int].lookup_fields[k as int],
                                ) && name_index(
                                    s,
                                    s[index as int].lookup_fields[k as int].target_sobject,
                                ) is None);
                            }
                            lemma_spec_to_graph_none_iff(s);
                        }
                        return Err(OrderError::UnknownTarget);
                    },
                    Some(target_index) => {
                        proof {
                            assert(constrains_delete(fields[k as int]));
                            assert(name_index(s, fields[k as int].target_sobject) == Some(
                                target_index as int,
                            ));
                        }
                        edges.push(target_index);
                    },
                }
            } else {
                proof {
                    assert(!constrains_delete(fields[k as int]));
                }
            }
            k += 1;
        }
        proof {
            assert(fields.take(fields.len() as int) =~= fields);
        }
        let ghost graph_pre = graph@;
        graph.add_edges(index, edges.as_slice());
        proof {
            assert(graph_pre[index as int] =~= Seq::<usize>::empty());
            assert(graph@[index as int] == append_dedup(Seq::empty(), edges@));
            assert(graph@.take(index as int) =~= graph_pre.take(index as int));
            assert(graph@.take(index + 1) =~= graph@.take(index as int).push(
                graph@[index as int],
            ));
            assert(build_rows(s, index + 1) == Some(graph@.take(index + 1)));
            assert forall|a: usize, b: usize| #[trigger] edge(graph@, a, b) <==> ((a as int) < index
                + 1 && entity_edge(s, a, b)) by {
                if (a as int) < n {
                    if a as int == index {
                        lemma_append_dedup_contains(Seq::empty(), edges@, b);
                        lemma_field_targets_contains(s, fields, edges@, b);
                        assert(edge(graph@, a, b) <==> edges@.contains(b));
                    } else {
                        assert(graph@[a as int] == graph_pre[a as int]);
                        assert(edge(graph@, a, b) <==> edge(graph_pre, a, b));
                    }
                }
            }
        }
        index += 1;
    }
    proof {
        assert(graph@.take(n as int) =~= graph@);
        lemma_spec_to_graph_none_iff(s);
    }
    Ok(graph)
}

/// A permutation of the entity collection in which every order-constraining
/// reference points forward: the referencing entity comes before the entity
/// it names.
pub open spec fn delete_order_respects(
    s: Seq<SObjectView>,
    perm: Seq<usize>,
    out: Seq<SObjectView>,
) -> bool {
    &&& perm.len() == s.len()
    &&& perm.no_duplicates()
    &&& forall|i: int| 0 <= i < perm.len() ==> (#[trigger] perm[i] as int) < s.len()
    &&& out.len() == perm.len()
    &&& forall|i: int| 0 <= i < perm.len() ==> out[i] == s[#[trigger] perm[i] as int]
    &&& forall|i: int, j: int|
        0 <= i < perm.len() && 0 <= j < perm.len() && entity_edge(s, perm[i], perm[j]) ==> i < j
}

/// Some permutation of the entities yields `out` while respecting every
/// order-constraining reference.
pub open spec fn is_safe_delete_order(s: Seq<SObjectView>, out: Seq<SObjectView>) -> bool {
    exists|perm: Seq<usize>| delete_order_respects(s, perm, out)
}

/// Compute a safe deletion order for `sobjects`: a permutation of the input
/// entities in which every entity precedes the entities its
/// order-constraining references name. Fails with `UnknownTarget` when such
/// a reference cannot be resolved, and with `CycleDetected` when the
/// references form a cycle; the result is a function of the input values
/// alone, so repeated calls agree.
#[verifier::loop_isolation(false)]
pub fn delete_order(sobjects: &Vec<SObject>) -> (r: Result<Vec<SObject>, OrderError>)
    ensures
        match r {
            Ok(out) => spec_delete_order(views_of(sobjects@)) == Ok::<Seq<SObjectView>, OrderError>(views_of(out@)),
            Err(e) => spec_delete_order(views_of(sobjects@)) == Err::<Seq<SObjectView>, OrderError>(e),
        },
        r == Err::<Vec<SObject>, OrderError>(OrderError::UnknownTarget)
            <==> has_unresolved_reference(views_of(sobjects@)),
        spec_to_graph(views_of(sobjects@)) matches Some(g) ==> (r == Err::<
            Vec<SObject>,
            OrderError,
        >(OrderError::CycleDetected) <==> has_cycle(g)),
        r matches Ok(out) ==> is_safe_delete_order(views_of(sobjects@), views_of(out@)),
{
    let ghost s = views_of(sobjects@);
    let delete_dependency = match to_graph(sobjects) {
        Ok(graph) => graph,
        Err(e) => {
            return Err(e);
        },
    };
    let ghost g = delete_dependency@;
    match delete_dependency.topological_sort() {
        None => Err(OrderError::CycleDetected),
        Some(sorted_indices) => {
            proof {
                assert(valid_topo_order(g, sorted_indices@));
                if has_cycle(g) {
                    lemma_cycle_excludes_topological_order(g, sorted_indices@);
                }
            }
            let mut result: Vec<SObject> = Vec::with_capacity(sorted_indices.len());
            let mut i: usize = 0;
            while i < sorted_indices.len()
                invariant
                    i <= sorted_indices@.len(),
                    sorted_indices@.len() == sobjects@.len(),
                    forall|k: int|
                        0 <= k < sorted_indices@.len() ==> (#[trigger] sorted_indices@[
                        k] as int) < sobjects@.len(),
                    result@.len() == i,
                    forall|k: int|
                        0 <= k < i ==> (#[trigger] result@[k])@ == s[sorted_indices@[k] as int],
                decreases sorted_indices@.len() - i,
            {
                let sobject_index = sorted_indices[i];
                result.push(clone_sobject(&sobjects[sobject_index]));
                i += 1;
            }
            proof {
                assert(views_of(result@) =~= sorted_indices@.map_values(
                    |idx: usize| s[idx as int],
                ));
                assert(delete_order_respects(s, sorted_indices@, views_of(result@))) by {
                    assert forall|i2: int, j2: int|
                        0 <= i2 < sorted_indices@.len() && 0 <= j2 < sorted_indices@.len()
                            && entity_edge(
                            s,
                            sorted_indices@[i2],
                            sorted_indices@[j2],
                        ) implies i2 < j2 by {
                        assert(edge(g, sorted_indices@[i2], sorted_indices@[j2]));
                    }
                }
                assert(delete_order_respects(
                    views_of(sobjects@),
                    sorted_indices@,
                    views_of(result@),
                ));
                assert(is_safe_delete_order(views_of(sobjects@), views_of(result@)));
            }
            Ok(result)
        },
    }
}

/// The deletion order is a function of the input values alone: any two
/// results that the contract of `delete_order` admits for equal inputs are
/// equal. With the purely functional contract this is immediate, and it is
/// what makes repeated calls on unchanged input idempotent.
pub proof fn lemma_delete_order_deterministic(
    s: Seq<SObjectView>,
    r1: Result<Seq<SObjectView>, OrderError>,
    r2: Result<Seq<SObjectView>, OrderError>,
)
    requires
        r1 == spec_delete_order(s),
        r2 == spec_delete_order(s),
    ensures
        r1 == r2,
{
}

} // verus!

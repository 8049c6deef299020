//! Binding nodes to their cycler modules and checking each module's entry
//! node.
use vstd::prelude::*;
use crate::field::{classify_fields, rejection, ClassificationError, Field, FieldDeclaration, Role};

verus! {

/// The classified fields of one node.
pub struct Node {
    /// Resolved once, when the node is constructed.
    pub creation_context: Vec<Field>,
    /// Resolved on every tick.
    pub cycle_context: Vec<Field>,
    pub main_outputs: Vec<Field>,
}

impl Node {
    /// Classifies the three declared field lists of a node.
    pub fn try_from_declarations(
        creation_context: &Vec<FieldDeclaration>,
        cycle_context: &Vec<FieldDeclaration>,
        main_outputs: &Vec<FieldDeclaration>,
    ) -> (r: Result<Node, ClassificationError>)
        ensures
            r is Ok <==> {
                &&& forall|i: int|
                    0 <= i < creation_context@.len() ==> (#[trigger] rejection(
                        creation_context@[i],
                    )) is None
                &&& forall|i: int|
                    0 <= i < cycle_context@.len() ==> (#[trigger] rejection(cycle_context@[i])) is None
                &&& forall|i: int|
                    0 <= i < main_outputs@.len() ==> (#[trigger] rejection(main_outputs@[i])) is None
            },
            r matches Ok(node) ==> {
                &&& node.creation_context@.len() == creation_context@.len()
                &&& node.cycle_context@.len() == cycle_context@.len()
                &&& node.main_outputs@.len() == main_outputs@.len()
                &&& forall|i: int|
                    0 <= i < creation_context@.len() ==> #[trigger] node.creation_context@[i].describes(
                        creation_context@[i],
                    )
                &&& forall|i: int|
                    0 <= i < cycle_context@.len() ==> #[trigger] node.cycle_context@[i].describes(
                        cycle_context@[i],
                    )
                &&& forall|i: int|
                    0 <= i < main_outputs@.len() ==> #[trigger] node.main_outputs@[i].describes(
                        main_outputs@[i],
                    )
            },
            r matches Err(e) ==> {
                ||| exists|i: int|
                    0 <= i < creation_context@.len() && Some(e.kind) == #[trigger] rejection(
                        creation_context@[i],
                    )
                ||| exists|i: int|
                    0 <= i < cycle_context@.len() && Some(e.kind) == #[trigger] rejection(
                        cycle_context@[i],
                    )
                ||| exists|i: int|
                    0 <= i < main_outputs@.len() && Some(e.kind) == #[trigger] rejection(
                        main_outputs@[i],
                    )
            },
    {
        let creation_context = match classify_fields(creation_context) {
            Ok(fields) => fields,
            Err(e) => {
                return Err(e);
            },
        };
        let cycle_context = match classify_fields(cycle_context) {
            Ok(fields) => fields,
            Err(e) => {
                return Err(e);
            },
        };
        let main_outputs = match classify_fields(main_outputs) {
            Ok(fields) => fields,
            Err(e) => {
                return Err(e);
            },
        };
        Ok(Node { creation_context, cycle_context, main_outputs })
    }
}

/// Roles that read data some other node must have produced first.
pub open spec fn is_forward_dependency(role: Role) -> bool {
    role is HistoricInput || role is Input || role is PerceptionInput || role is RequiredInput
}

/// Some field of `fields` reads data some other node must produce first.
pub open spec fn has_forward_dependency(fields: Seq<Field>) -> bool {
    exists|i: int| 0 <= i < fields.len() && is_forward_dependency((#[trigger] fields[i]).role())
}

/// The node may open a tick: none of its contexts reads earlier output.
pub open spec fn can_open_tick(node: Node) -> bool {
    !has_forward_dependency(node.creation_context@) && !has_forward_dependency(
        node.cycle_context@,
    )
}

/// A module whose nodes cannot be executed.
pub enum ResolutionError {
    /// No node was found for the module.
    ModuleWithoutNodes { module: String },
    /// The module's first node reads output of other nodes.
    EntryNodeDependency { module: String, field_name: String },
}

/// Whether a field reads data some other node must produce first.
pub fn is_forward_field(field: &Field) -> (r: bool)
    ensures
        r == is_forward_dependency(field.role()),
{
    match field {
        Field::HistoricInput { .. } | Field::Input { .. } | Field::PerceptionInput { .. }
        | Field::RequiredInput { .. } => true,
        _ => false,
    }
}

/// The name of a field.
pub fn field_name(field: &Field) -> (r: String)
    ensures
        r@ == field.name_view(),
{
    match field {
        Field::AdditionalOutput { name, .. } => name.clone(),
        Field::CyclerInstance { name } => name.clone(),
        Field::HardwareInterface { name } => name.clone(),
        Field::HistoricInput { name, .. } => name.clone(),
        Field::Input { name, .. } => name.clone(),
        Field::MainOutput { name, .. } => name.clone(),
        Field::Parameter { name, .. } => name.clone(),
        Field::PerceptionInput { name, .. } => name.clone(),
        Field::PersistentState { name, .. } => name.clone(),
        Field::RequiredInput { name, .. } => name.clone(),
    }
}

/// The index of the first field that reads data of other nodes, if any.
pub fn first_forward_field(fields: &Vec<Field>) -> (r: Option<usize>)
    ensures
        r is None <==> !has_forward_dependency(fields@),
        r matches Some(i) ==> i < fields@.len() && is_forward_dependency(fields@[i as int].role())
            && forall|j: int| 0 <= j < i ==> !is_forward_dependency(#[trigger] fields@[j].role()),
{
    let mut i: usize = 0;
    while i < fields.len()
        invariant
            i <= fields@.len(),
            forall|j: int| 0 <= j < i ==> !is_forward_dependency(#[trigger] fields@[j].role()),
        decreases fields@.len() - i,
    {
        if is_forward_field(&fields[i]) {
            return Some(i);
        }
        i = i + 1;
    }
    None
}

/// Checks that `module` has nodes and that the first of them, which opens
/// every tick, reads no output of other nodes. Only the first node is
/// checked.
pub fn validate_entry_node(module: &String, nodes: &Vec<Node>) -> (r: Result<(), ResolutionError>)
    ensures
        r is Ok <==> nodes@.len() > 0 && can_open_tick(nodes@[0]),
        r matches Err(ResolutionError::ModuleWithoutNodes { module: m }) ==> nodes@.len() == 0
            && m@ == module@,
        r matches Err(ResolutionError::EntryNodeDependency { module: m, field_name: f }) ==> m@
            == module@ && nodes@.len() > 0 && exists|i: int|
            {
                ||| 0 <= i < nodes@[0].creation_context@.len() && is_forward_dependency(
                    nodes@[0].creation_context@[i].role(),
                ) && nodes@[0].creation_context@[i].name_view() == f@
                ||| 0 <= i < nodes@[0].cycle_context@.len() && is_forward_dependency(
                    nodes@[0].cycle_context@[i].role(),
                ) && nodes@[0].cycle_context@[i].name_view() == f@
            },
{
    if nodes.len() == 0 {
        return Err(ResolutionError::ModuleWithoutNodes { module: module.clone() });
    }
    let entry = &nodes[0];
    if let Some(i) = first_forward_field(&entry.creation_context) {
        let field_name = field_name(&entry.creation_context[i]);
        return Err(ResolutionError::EntryNodeDependency { module: module.clone(), field_name });
    }
    if let Some(i) = first_forward_field(&entry.cycle_context) {
        let field_name = field_name(&entry.cycle_context[i]);
        return Err(ResolutionError::EntryNodeDependency { module: module.clone(), field_name });
    }
    Ok(())
}


/// Every dependency names one of the `deps.len()` nodes.
pub open spec fn dependencies_in_range(deps: Seq<Seq<usize>>) -> bool {
    forall|i: int, k: int| 0 <= i < deps.len() && 0 <= k < deps[i].len() ==> #[trigger] deps[i][k] < deps.len()
}

/// `order` lists every node exactly once, each after all nodes it depends on.
pub open spec fn is_execution_order(order: Seq<usize>, deps: Seq<Seq<usize>>) -> bool {
    &&& order.len() == deps.len()
    &&& forall|a: int| 0 <= a < order.len() ==> #[trigger] order[a] < deps.len()
    &&& forall|v: usize| v < deps.len() ==> #[trigger] order.contains(v)
    &&& forall|a: int, b: int| 0 <= a < b < order.len() ==> order[a] != order[b]
    &&& forall|a: int, k: int|
        0 <= a < order.len() && 0 <= k < deps[order[a] as int].len() ==> order.take(a).contains(
            #[trigger] deps[order[a] as int][k],
        )
}

/// The number of nodes not yet placed.
pub open spec fn count_unplaced(placed: Seq<bool>) -> nat
    decreases placed.len(),
{
    if placed.len() == 0 {
        0
    } else {
        count_unplaced(placed.drop_last()) + if placed.last() {
            0nat
        } else {
            1nat
        }
    }
}

proof fn lemma_place_one(placed: Seq<bool>, v: int)
    requires
        0 <= v < placed.len(),
        !placed[v],
    ensures
        count_unplaced(placed.update(v, true)) + 1 == count_unplaced(placed),
    decreases placed.len(),
{
    if v < placed.len() - 1 {
        assert(placed.update(v, true).drop_last() =~= placed.drop_last().update(v, true));
        lemma_place_one(placed.drop_last(), v);
    } else {
        assert(placed.update(v, true).drop_last() =~= placed.drop_last());
    }
}

/// Every node that is not placed depends on a node that is not placed.
pub open spec fn is_stuck(placed: Seq<bool>, deps: Seq<Seq<usize>>) -> bool {
    forall|v: int|
        0 <= v < placed.len() && !#[trigger] placed[v] ==> exists|k: int|
            0 <= k < deps[v].len() && !placed[deps[v][k] as int]
}

proof fn lemma_stuck_has_no_order(placed: Seq<bool>, deps: Seq<Seq<usize>>, order: Seq<usize>, w: int)
    requires
        placed.len() == deps.len(),
        deps.len() <= usize::MAX,
        dependencies_in_range(deps),
        is_stuck(placed, deps),
        0 <= w < placed.len(),
        !placed[w],
    ensures
        !is_execution_order(order, deps),
{
    if is_execution_order(order, deps) {
        assert forall|a: int| 0 <= a < order.len() implies #[trigger] placed[order[a] as int] by {
            lemma_order_prefix_placed(placed, deps, order, a);
        }
        let u = w as usize;
        assert(u < deps.len());
        assert(order.contains(u));
        let a = choose|a: int| 0 <= a < order.len() && order[a] == u;
        assert(placed[order[a] as int]);
        assert(order[a] as int == w);
    }
}

proof fn lemma_order_prefix_placed(placed: Seq<bool>, deps: Seq<Seq<usize>>, order: Seq<usize>, a: int)
    requires
        placed.len() == deps.len(),
        dependencies_in_range(deps),
        is_stuck(placed, deps),
        is_execution_order(order, deps),
        0 <= a < order.len(),
    ensures
        placed[order[a] as int],
    decreases a,
{
    let v = order[a] as int;
    if !placed[v] {
        let k = choose|k: int| 0 <= k < deps[v].len() && !placed[deps[v][k] as int];
        let d = deps[v][k];
        assert(order.take(a).contains(d));
        let b = choose|b: int| 0 <= b < order.take(a).len() && order.take(a)[b] == d;
        lemma_order_prefix_placed(placed, deps, order, b);
    }
}

/// The dependency lists as sequences.
pub open spec fn deps_view(deps: Seq<Vec<usize>>) -> Seq<Seq<usize>> {
    deps.map_values(|d: Vec<usize>| d@)
}

/// Orders the nodes so that each comes after every node it depends on
/// (`deps[i]` lists the nodes node `i` depends on); `None` when the
/// dependencies form a cycle and no such order exists.
pub fn order_nodes(deps: &Vec<Vec<usize>>) -> (r: Option<Vec<usize>>)
    requires
        dependencies_in_range(deps_view(deps@)),
    ensures
        r is None <==> forall|order: Seq<usize>| !#[trigger] is_execution_order(order, deps_view(deps@)),
        r matches Some(order) ==> is_execution_order(order@, deps_view(deps@)),
{
    let ghost dv = deps_view(deps@);
    let n = deps.len();
    let mut placed: Vec<bool> = Vec::new();
    let mut i: usize = 0;
    while i < n
        invariant
            i <= n,
            placed@.len() == i,
            forall|v: int| 0 <= v < i ==> !placed@[v],
        decreases n - i,
    {
        placed.push(false);
        i = i + 1;
    }
    let mut order: Vec<usize> = Vec::new();
    loop
        invariant
            n == deps@.len(),
            dv == deps_view(deps@),
            dependencies_in_range(dv),
            placed@.len() == n,
            forall|a: int| 0 <= a < order@.len() ==> #[trigger] order@[a] < n,
            forall|v: int| 0 <= v < n ==> (#[trigger] placed@[v] <==> order@.contains(v as usize)),
            forall|a: int, b: int| 0 <= a < b < order@.len() ==> order@[a] != order@[b],
            forall|a: int, k: int|
                0 <= a < order@.len() && 0 <= k < dv[order@[a] as int].len() ==> order@.take(
                    a,
                ).contains(#[trigger] dv[order@[a] as int][k]),
        decreases count_unplaced(placed@),
    {
        let mut any_unplaced = false;
        let mut ready: Option<usize> = None;
        let mut v: usize = 0;
        while v < n && ready.is_none()
            invariant
                n == deps@.len(),
                dv == deps_view(deps@),
                dependencies_in_range(dv),
                placed@.len() == n,
                v <= n,
                ready is None ==> (any_unplaced <==> exists|w: int| 0 <= w < v && !placed@[w]),
                ready is None ==> forall|w: int|
                    0 <= w < v && !#[trigger] placed@[w] ==> exists|k: int|
                        0 <= k < dv[w].len() && !placed@[dv[w][k] as int],
                ready matches Some(x) ==> x < n && !placed@[x as int] && forall|k: int|
                    0 <= k < dv[x as int].len() ==> #[trigger] placed@[dv[x as int][k] as int],
            decreases n - v,
        {
            if !placed[v] {
                any_unplaced = true;
                let node_deps = &deps[v];
                assert(node_deps@ == dv[v as int]);
                let mut k: usize = 0;
                let mut all_placed = true;
                while k < node_deps.len()
                    invariant
                        node_deps@ == dv[v as int],
                        dependencies_in_range(dv),
                        v < n,
                        n == dv.len(),
                        placed@.len() == n,
                        k <= node_deps@.len(),
                        all_placed ==> forall|j: int| 0 <= j < k ==> placed@[node_deps@[j] as int],
                        !all_placed ==> exists|j: int| 0 <= j < node_deps@.len() && !placed@[node_deps@[j] as int],
                    decreases node_deps@.len() - k,
                {
                    assert(node_deps@[k as int] < n);
                    if !placed[node_deps[k]] {
                        all_placed = false;
                    }
                    k = k + 1;
                }
                if all_placed {
                    ready = Some(v);
                }
            }
            v = v + 1;
        }
        match ready {
            None => {
                if !any_unplaced {
                    proof {
                        assert(v == n);
                        assert forall|w: usize| w < dv.len() implies #[trigger] order@.contains(w) by {
                            assert(placed@[w as int]);
                        }
                        assert forall|a: int, k: int|
                            0 <= a < order@.len() && 0 <= k < dv[order@[a] as int].len() implies order@.take(
                                a,
                            ).contains(#[trigger] dv[order@[a] as int][k]) by {}
                        lemma_distinct_complete_len(order@, n as nat);
                        assert(is_execution_order(order@, dv));
                    }
                    return Some(order);
                }
                proof {
                    assert(v == n);
                    let w = choose|w: int| 0 <= w < n && !placed@[w];
                    assert forall|order2: Seq<usize>| !#[trigger] is_execution_order(order2, dv) by {
                        lemma_stuck_has_no_order(placed@, dv, order2, w);
                    }
                }
                return None;
            },
            Some(v) => {
                let ghost old_placed = placed@;
                let ghost old_order = order@;
                proof {
                    lemma_place_one(placed@, v as int);
                }
                placed.set(v, true);
                order.push(v);
                proof {
                    assert(!old_order.contains(v));
                    assert forall|a: int, k: int|
                        0 <= a < order@.len() && 0 <= k < dv[order@[a] as int].len() implies order@.take(
                            a,
                        ).contains(#[trigger] dv[order@[a] as int][k]) by {
                        if a < old_order.len() {
                            assert(order@.take(a) =~= old_order.take(a));
                        } else {
                            assert(order@.take(a) =~= old_order);
                            let d = dv[v as int][k];
                            assert(old_placed[d as int]);
                        }
                    }
                    assert forall|w: int| 0 <= w < n implies (#[trigger] placed@[w] <==> order@.contains(w as usize)) by {
                        if order@.contains(w as usize) && w != v {
                            let a = choose|a: int| 0 <= a < order@.len() && order@[a] == w as usize;
                            assert(old_order[a] == w as usize);
                        }
                        if old_order.contains(w as usize) {
                            let a = choose|a: int| 0 <= a < old_order.len() && old_order[a] == w as usize;
                            assert(order@[a] == w as usize);
                        }
                        if w == v {
                            assert(order@[old_order.len() as int] == v);
                        }
                    }
                }
            },
        }
    }
}

proof fn lemma_distinct_complete_len(order: Seq<usize>, n: nat)
    requires
        n <= usize::MAX,
        forall|a: int| 0 <= a < order.len() ==> #[trigger] order[a] < n,
        forall|a: int, b: int| 0 <= a < b < order.len() ==> order[a] != order[b],
        forall|v: usize| v < n ==> #[trigger] order.contains(v),
    ensures
        order.len() == n,
{
    let s = order.to_set();
    assert(order.no_duplicates());
    order.unique_seq_to_set();
    let full = Set::new(|v: usize| v < n);
    assert forall|v: usize| #[trigger] s.contains(v) <==> full.contains(v) by {
        if v < n {
            assert(order.contains(v));
        }
    }
    assert(s =~= full);
    lemma_below_set_len(n);
}

proof fn lemma_below_set_len(n: nat)
    ensures
        Set::new(|v: usize| v < n).finite(),
        Set::new(|v: usize| v < n).len() == if n <= usize::MAX + 1 { n } else { (usize::MAX + 1) as nat },
    decreases n,
{
    if n == 0 {
        assert(Set::new(|v: usize| v < n) =~= Set::<usize>::empty());
    } else {
        lemma_below_set_len((n - 1) as nat);
        if n - 1 <= usize::MAX {
            assert(Set::new(|v: usize| v < n) =~= Set::new(|v: usize| v < n - 1).insert((n - 1) as usize));
        } else {
            assert(Set::new(|v: usize| v < n) =~= Set::new(|v: usize| v < n - 1));
        }
    }
}


/// The main output that a field reads within the same cycler and tick: the
/// first path segment of an `Input` or `RequiredInput` without a cycler
/// instance.
pub open spec fn same_tick_source(f: Field) -> Option<Seq<char>> {
    match f {
        Field::Input { cycler_instance: None, path, .. }
        | Field::RequiredInput { cycler_instance: None, path, .. } => if path@.len() > 0 {
            Some(path@[0].name@)
        } else {
            None
        },
        _ => None,
    }
}

/// The name of a main output field.
pub open spec fn output_name(f: Field) -> Option<Seq<char>> {
    match f {
        Field::MainOutput { name, .. } => Some(name@),
        _ => None,
    }
}

/// Node `reader` reads, within the same tick, a main output of `producer`.
pub open spec fn reads_output_of(reader: Node, producer: Node) -> bool {
    exists|f: int, g: int|
        0 <= f < reader.cycle_context@.len() && 0 <= g < producer.main_outputs@.len()
            && (#[trigger] same_tick_source(reader.cycle_context@[f])) is Some
            && same_tick_source(reader.cycle_context@[f]) == #[trigger] output_name(
            producer.main_outputs@[g],
        )
}

/// The main output that a field reads within the same cycler and tick.
fn same_tick_source_of(f: &Field) -> (r: Option<&String>)
    ensures
        match r {
            Some(s) => same_tick_source(*f) == Some(s@),
            None => same_tick_source(*f) is None,
        },
{
    match f {
        Field::Input { cycler_instance: None, path, .. }
        | Field::RequiredInput { cycler_instance: None, path, .. } => if path.len() > 0 {
            Some(&path[0].name)
        } else {
            None
        },
        _ => None,
    }
}

/// Whether `producer` has a main output named `name`.
fn produces(producer: &Node, name: &String) -> (r: bool)
    ensures
        r == exists|g: int|
            0 <= g < producer.main_outputs@.len() && #[trigger] output_name(producer.main_outputs@[g])
                == Some(name@),
{
    let mut g: usize = 0;
    while g < producer.main_outputs.len()
        invariant
            g <= producer.main_outputs@.len(),
            forall|h: int| 0 <= h < g ==> #[trigger] output_name(producer.main_outputs@[h]) != Some(name@),
        decreases producer.main_outputs@.len() - g,
    {
        if let Field::MainOutput { name: output, .. } = &producer.main_outputs[g] {
            if *output == *name {
                assert(output_name(producer.main_outputs@[g as int]) == Some(name@));
                return true;
            }
        }
        g = g + 1;
    }
    false
}

/// Whether `reader` reads, within the same tick, a main output of `producer`.
pub fn reads_output(reader: &Node, producer: &Node) -> (r: bool)
    ensures
        r == reads_output_of(*reader, *producer),
{
    let mut f: usize = 0;
    while f < reader.cycle_context.len()
        invariant
            f <= reader.cycle_context@.len(),
            forall|x: int, g: int|
                0 <= x < f && 0 <= g < producer.main_outputs@.len() && (#[trigger] same_tick_source(
                    reader.cycle_context@[x],
                )) is Some ==> same_tick_source(reader.cycle_context@[x]) != #[trigger] output_name(
                    producer.main_outputs@[g],
                ),
        decreases reader.cycle_context@.len() - f,
    {
        if let Some(source) = same_tick_source_of(&reader.cycle_context[f]) {
            if produces(producer, source) {
                return true;
            }
        }
        f = f + 1;
    }
    false
}

/// For each node, the nodes whose main outputs it reads within the same
/// tick, in increasing order; reads of other cyclers do not count.
pub fn dependencies_of(nodes: &Vec<Node>) -> (r: Vec<Vec<usize>>)
    ensures
        r@.len() == nodes@.len(),
        dependencies_in_range(deps_view(r@)),
        forall|i: int, j: usize|
            0 <= i < nodes@.len() && j < nodes@.len() ==> (#[trigger] deps_view(r@)[i].contains(j)
                <==> reads_output_of(nodes@[i], nodes@[j as int])),
{
    let n = nodes.len();
    let mut r: Vec<Vec<usize>> = Vec::new();
    let mut i: usize = 0;
    while i < n
        invariant
            n == nodes@.len(),
            i <= n,
            r@.len() == i,
            forall|a: int, k: int| 0 <= a < i && 0 <= k < r@[a]@.len() ==> #[trigger] r@[a]@[k] < n,
            forall|a: int, j: usize|
                0 <= a < i && j < n ==> (#[trigger] r@[a]@.contains(j) <==> reads_output_of(
                    nodes@[a],
                    nodes@[j as int],
                )),
        decreases n - i,
    {
        let mut deps: Vec<usize> = Vec::new();
        let mut j: usize = 0;
        while j < n
            invariant
                n == nodes@.len(),
                i < n,
                j <= n,
                forall|k: int| 0 <= k < deps@.len() ==> #[trigger] deps@[k] < j,
                forall|x: usize|
                    x < n ==> (#[trigger] deps@.contains(x) <==> (x < j && reads_output_of(
                        nodes@[i as int],
                        nodes@[x as int],
                    ))),
            decreases n - j,
        {
            if reads_output(&nodes[i], &nodes[j]) {
                let ghost before = deps@;
                deps.push(j);
                proof {
                    assert forall|x: usize| x < n implies (#[trigger] deps@.contains(x) <==> (x < j + 1
                        && reads_output_of(nodes@[i as int], nodes@[x as int]))) by {
                        if x == j {
                            assert(deps@[before.len() as int] == x);
                        }
                        if deps@.contains(x) && x != j {
                            let k = choose|k: int| 0 <= k < deps@.len() && deps@[k] == x;
                            assert(before[k] == x);
                        }
                        if before.contains(x) {
                            let k = choose|k: int| 0 <= k < before.len() && before[k] == x;
                            assert(deps@[k] == x);
                        }
                    }
                }
            }
            j = j + 1;
        }
        r.push(deps);
        i = i + 1;
    }
    proof {
        assert forall|a: int, k: int|
            0 <= a < deps_view(r@).len() && 0 <= k < deps_view(r@)[a].len() implies #[trigger] deps_view(
            r@,
        )[a][k] < deps_view(r@).len() by {
            assert(deps_view(r@)[a] == r@[a]@);
        }
        assert forall|a: int, j: usize|
            0 <= a < nodes@.len() && j < nodes@.len() implies (#[trigger] deps_view(r@)[a].contains(j)
            <==> reads_output_of(nodes@[a], nodes@[j as int])) by {
            assert(deps_view(r@)[a] == r@[a]@);
        }
    }
    r
}

} // verus!

//! Folding the dotted paths declared by many nodes into one tree of named
//! structs per root, with one node per distinct path prefix.
use vstd::prelude::*;
use crate::field::{Field, PathSegment, Role, SegmentView, segments_view};
use crate::resolver::Node;

verus! {

/// A path declared by some node, with the type of the value at its end.
pub struct DeclaredPath {
    pub segments: Vec<PathSegment>,
    pub data_type: String,
}

/// The mathematical content of a [`DeclaredPath`].
pub struct DeclaredPathView {
    pub segments: Seq<SegmentView>,
    pub data_type: Seq<char>,
}

impl View for DeclaredPath {
    type V = DeclaredPathView;

    open spec fn view(&self) -> DeclaredPathView {
        DeclaredPathView { segments: segments_view(self.segments@), data_type: self.data_type@ }
    }
}

/// The views of a sequence of declared paths.
pub open spec fn paths_view(ps: Seq<DeclaredPath>) -> Seq<DeclaredPathView> {
    ps.map_values(|p: DeclaredPath| p@)
}

/// What the tree holds at one prefix: whether the value there is optional,
/// and the data type for a leaf (`None` for a struct of further fields).
pub struct NodeView {
    pub is_optional: bool,
    pub data_type: Option<Seq<char>>,
}

/// Path `a` has a segment at index `b`.
pub open spec fn is_claim(ps: Seq<DeclaredPathView>, a: int, b: int) -> bool {
    0 <= a < ps.len() && 0 <= b < ps[a].segments.len()
}

/// The names of the first `b + 1` segments of path `a`.
pub open spec fn key_at(ps: Seq<DeclaredPathView>, a: int, b: int) -> Seq<Seq<char>> {
    ps[a].segments.take(b + 1).map_values(|s: SegmentView| s.name)
}

/// What path `a` says of the node at its prefix of `b + 1` segments.
pub open spec fn node_at(ps: Seq<DeclaredPathView>, a: int, b: int) -> NodeView {
    NodeView {
        is_optional: ps[a].segments[b].is_optional,
        data_type: if b == ps[a].segments.len() - 1 {
            Some(ps[a].data_type)
        } else {
            None
        },
    }
}

/// Claim `(a, b)` comes before position `(i, k)` in declaration order.
pub open spec fn comes_before(a: int, b: int, i: int, k: int) -> bool {
    a < i || (a == i && b < k)
}

/// All claims before `(i, k)` that name the same prefix say the same of it.
pub open spec fn consistent_upto(ps: Seq<DeclaredPathView>, i: int, k: int) -> bool {
    forall|a: int, b: int, c: int, d: int|
        is_claim(ps, a, b) && is_claim(ps, c, d) && comes_before(a, b, i, k) && comes_before(
            c,
            d,
            i,
            k,
        ) && #[trigger] key_at(ps, a, b) == #[trigger] key_at(ps, c, d) ==> node_at(ps, a, b)
            == node_at(ps, c, d)
}

/// Some claim before `(i, k)` names `key`.
pub open spec fn claimed_upto(ps: Seq<DeclaredPathView>, i: int, k: int, key: Seq<Seq<char>>) -> bool {
    exists|a: int, b: int| is_claim(ps, a, b) && comes_before(a, b, i, k) && key_at(ps, a, b) == key
}

/// The tree described by the claims before `(i, k)`, as a map from prefix
/// to node.
pub open spec fn tree_upto(ps: Seq<DeclaredPathView>, i: int, k: int) -> Map<
    Seq<Seq<char>>,
    NodeView,
> {
    Map::new(
        |key: Seq<Seq<char>>| claimed_upto(ps, i, k, key),
        |key: Seq<Seq<char>>|
            {
                let (a, b) = choose|a: int, b: int|
                    is_claim(ps, a, b) && comes_before(a, b, i, k) && key_at(ps, a, b) == key;
                node_at(ps, a, b)
            },
    )
}

/// No two declarations disagree about a shared prefix.
pub open spec fn consistent(ps: Seq<DeclaredPathView>) -> bool {
    consistent_upto(ps, ps.len() as int, 0)
}

/// The tree of all declarations: one node per distinct prefix.
pub open spec fn tree_of(ps: Seq<DeclaredPathView>) -> Map<Seq<Seq<char>>, NodeView> {
    tree_upto(ps, ps.len() as int, 0)
}

/// How two declarations of the same prefix disagree.
#[derive(Clone, Copy, Debug, PartialEq, Eq, Structural)]
pub enum ConflictKind {
    /// One declares the segment optional, the other does not.
    Optionality,
    /// One ends at the prefix, the other continues below it.
    Shape,
    /// Both end at the prefix, with different data types.
    DataType,
}

/// Two declarations that disagree about the prefix `path`.
pub struct MergeError {
    pub path: Vec<String>,
    pub kind: ConflictKind,
}

/// How the nodes `x` and `y` differ, when they differ.
pub open spec fn conflict_kind(x: NodeView, y: NodeView) -> ConflictKind {
    if x.is_optional != y.is_optional {
        ConflictKind::Optionality
    } else if x.data_type is Some != y.data_type is Some {
        ConflictKind::Shape
    } else {
        ConflictKind::DataType
    }
}

/// Two claims name `key` and disagree about it in the way `kind` says.
pub open spec fn conflict_at(ps: Seq<DeclaredPathView>, key: Seq<Seq<char>>, kind: ConflictKind) -> bool {
    exists|a: int, b: int, c: int, d: int|
        is_claim(ps, a, b) && is_claim(ps, c, d) && key_at(ps, a, b) == key && key_at(ps, c, d)
            == key && node_at(ps, a, b) != node_at(ps, c, d) && conflict_kind(
            node_at(ps, a, b),
            node_at(ps, c, d),
        ) == kind
}


/// The texts of a sequence of names.
pub open spec fn names_view(v: Seq<String>) -> Seq<Seq<char>> {
    v.map_values(|s: String| s@)
}

/// One node of a merged tree: its full prefix of names, whether the value
/// there is optional, and the data type of a leaf.
pub struct HierarchyNode {
    pub path: Vec<String>,
    pub is_optional: bool,
    pub data_type: Option<String>,
}

/// The data type of a leaf, as text.
pub open spec fn type_view(t: Option<String>) -> Option<Seq<char>> {
    match t {
        Some(s) => Some(s@),
        None => None,
    }
}

impl View for HierarchyNode {
    type V = NodeView;

    open spec fn view(&self) -> NodeView {
        NodeView { is_optional: self.is_optional, data_type: type_view(self.data_type) }
    }
}

/// No two nodes of `s` share a prefix.
pub open spec fn unique_paths(s: Seq<HierarchyNode>) -> bool {
    forall|i: int, j: int|
        0 <= i < s.len() && 0 <= j < s.len() && i != j ==> names_view(s[i].path@) != names_view(
            s[j].path@,
        )
}

/// The nodes of `s` as a map from prefix to node.
pub open spec fn nodes_map(s: Seq<HierarchyNode>) -> Map<Seq<Seq<char>>, NodeView> {
    Map::new(
        |key: Seq<Seq<char>>| exists|i: int| 0 <= i < s.len() && names_view(s[i].path@) == key,
        |key: Seq<Seq<char>>|
            s[choose|i: int| 0 <= i < s.len() && names_view(s[i].path@) == key]@,
    )
}

/// A tree of named structs, optional values and typed leaves, stored as
/// one node per distinct prefix.
pub struct StructHierarchy {
    pub nodes: Vec<HierarchyNode>,
}

impl View for StructHierarchy {
    type V = Map<Seq<Seq<char>>, NodeView>;

    open spec fn view(&self) -> Map<Seq<Seq<char>>, NodeView> {
        nodes_map(self.nodes@)
    }
}

impl StructHierarchy {
    /// Each prefix appears at most once.
    pub open spec fn wf(&self) -> bool {
        unique_paths(self.nodes@)
    }
}

proof fn lemma_nodes_map_at(s: Seq<HierarchyNode>, i: int)
    requires
        unique_paths(s),
        0 <= i < s.len(),
    ensures
        nodes_map(s).contains_key(names_view(s[i].path@)),
        nodes_map(s)[names_view(s[i].path@)] == s[i]@,
{
    let key = names_view(s[i].path@);
    assert(exists|j: int| 0 <= j < s.len() && names_view(s[j].path@) == key);
}

proof fn lemma_tree_value(ps: Seq<DeclaredPathView>, i: int, k: int, a: int, b: int)
    requires
        consistent_upto(ps, i, k),
        is_claim(ps, a, b),
        comes_before(a, b, i, k),
    ensures
        tree_upto(ps, i, k).contains_key(key_at(ps, a, b)),
        tree_upto(ps, i, k)[key_at(ps, a, b)] == node_at(ps, a, b),
{
    let key = key_at(ps, a, b);
    assert(claimed_upto(ps, i, k, key));
    let (c, d) = choose|c: int, d: int|
        is_claim(ps, c, d) && comes_before(c, d, i, k) && key_at(ps, c, d) == key;
    assert(node_at(ps, a, b) == node_at(ps, c, d));
}

proof fn lemma_next_path(ps: Seq<DeclaredPathView>, i: int)
    requires
        0 <= i < ps.len(),
        consistent_upto(ps, i, ps[i].segments.len() as int),
    ensures
        tree_upto(ps, i, ps[i].segments.len() as int) == tree_upto(ps, i + 1, 0),
        consistent_upto(ps, i + 1, 0),
{
    let n = ps[i].segments.len() as int;
    assert forall|a: int, b: int| is_claim(ps, a, b) implies comes_before(a, b, i, n)
        == comes_before(a, b, i + 1, 0) by {}
    assert forall|key: Seq<Seq<char>>| #[trigger] claimed_upto(ps, i, n, key) implies tree_upto(
        ps,
        i,
        n,
    )[key] == tree_upto(ps, i + 1, 0)[key] by {
        let (a, b) = choose|a: int, b: int|
            is_claim(ps, a, b) && comes_before(a, b, i, n) && key_at(ps, a, b) == key;
        lemma_tree_value(ps, i, n, a, b);
        lemma_tree_value(ps, i + 1, 0, a, b);
    }
    assert(tree_upto(ps, i, n) =~= tree_upto(ps, i + 1, 0));
}

proof fn lemma_key_step(ps: Seq<DeclaredPathView>, i: int, k: int)
    requires
        is_claim(ps, i, k),
    ensures
        key_at(ps, i, k) == ps[i].segments.take(k).map_values(|s: SegmentView| s.name).push(
            ps[i].segments[k].name,
        ),
{
    assert(key_at(ps, i, k) =~= ps[i].segments.take(k).map_values(|s: SegmentView| s.name).push(
        ps[i].segments[k].name,
    ));
}

/// Adds claim `(i, k)` whose prefix is already in the tree with the same node.
proof fn lemma_claim_known(ps: Seq<DeclaredPathView>, i: int, k: int)
    requires
        is_claim(ps, i, k),
        consistent_upto(ps, i, k),
        tree_upto(ps, i, k).contains_key(key_at(ps, i, k)),
        tree_upto(ps, i, k)[key_at(ps, i, k)] == node_at(ps, i, k),
    ensures
        consistent_upto(ps, i, k + 1),
        tree_upto(ps, i, k + 1) == tree_upto(ps, i, k),
{
    let key = key_at(ps, i, k);
    let (c, d) = choose|c: int, d: int|
        is_claim(ps, c, d) && comes_before(c, d, i, k) && key_at(ps, c, d) == key;
    assert forall|a: int, b: int, e: int, f: int|
        is_claim(ps, a, b) && is_claim(ps, e, f) && comes_before(a, b, i, k + 1) && comes_before(
            e,
            f,
            i,
            k + 1,
        ) && #[trigger] key_at(ps, a, b) == #[trigger] key_at(ps, e, f) implies node_at(ps, a, b)
        == node_at(ps, e, f) by {
        if a == i && b == k {
            if !(e == i && f == k) {
                assert(node_at(ps, e, f) == node_at(ps, c, d));
            }
        } else if e == i && f == k {
            assert(node_at(ps, a, b) == node_at(ps, c, d));
        }
    }
    assert forall|key2: Seq<Seq<char>>| #[trigger] claimed_upto(ps, i, k + 1, key2) implies claimed_upto(
        ps,
        i,
        k,
        key2,
    ) by {
        let (a, b) = choose|a: int, b: int|
            is_claim(ps, a, b) && comes_before(a, b, i, k + 1) && key_at(ps, a, b) == key2;
        if a == i && b == k {
            assert(is_claim(ps, c, d) && comes_before(c, d, i, k) && key_at(ps, c, d) == key2);
        }
    }
    assert forall|key2: Seq<Seq<char>>| #[trigger] claimed_upto(ps, i, k, key2) implies tree_upto(
        ps,
        i,
        k + 1,
    )[key2] == tree_upto(ps, i, k)[key2] by {
        let (a, b) = choose|a: int, b: int|
            is_claim(ps, a, b) && comes_before(a, b, i, k) && key_at(ps, a, b) == key2;
        lemma_tree_value(ps, i, k, a, b);
        lemma_tree_value(ps, i, k + 1, a, b);
    }
    assert(tree_upto(ps, i, k + 1) =~= tree_upto(ps, i, k));
}

/// Adds claim `(i, k)` whose prefix is not yet in the tree.
proof fn lemma_claim_new(ps: Seq<DeclaredPathView>, i: int, k: int)
    requires
        is_claim(ps, i, k),
        consistent_upto(ps, i, k),
        !tree_upto(ps, i, k).contains_key(key_at(ps, i, k)),
    ensures
        consistent_upto(ps, i, k + 1),
        tree_upto(ps, i, k + 1) == tree_upto(ps, i, k).insert(key_at(ps, i, k), node_at(ps, i, k)),
{
    let key = key_at(ps, i, k);
    assert forall|a: int, b: int, e: int, f: int|
        is_claim(ps, a, b) && is_claim(ps, e, f) && comes_before(a, b, i, k + 1) && comes_before(
            e,
            f,
            i,
            k + 1,
        ) && #[trigger] key_at(ps, a, b) == #[trigger] key_at(ps, e, f) implies node_at(ps, a, b)
        == node_at(ps, e, f) by {
        if a == i && b == k {
            if !(e == i && f == k) {
                assert(claimed_upto(ps, i, k, key));
            }
        } else if e == i && f == k {
            assert(claimed_upto(ps, i, k, key));
        }
    }
    let expected = tree_upto(ps, i, k).insert(key, node_at(ps, i, k));
    assert forall|key2: Seq<Seq<char>>| #[trigger] claimed_upto(ps, i, k + 1, key2) <==> expected.contains_key(key2) by {
        if claimed_upto(ps, i, k + 1, key2) && key2 != key {
            let (a, b) = choose|a: int, b: int|
                is_claim(ps, a, b) && comes_before(a, b, i, k + 1) && key_at(ps, a, b) == key2;
            assert(comes_before(a, b, i, k));
        }
        if key2 == key {
            assert(comes_before(i, k, i, k + 1));
        }
        if claimed_upto(ps, i, k, key2) {
            let (a, b) = choose|a: int, b: int|
                is_claim(ps, a, b) && comes_before(a, b, i, k) && key_at(ps, a, b) == key2;
            assert(comes_before(a, b, i, k + 1));
        }
    }
    assert forall|key2: Seq<Seq<char>>| #[trigger] expected.contains_key(key2) implies tree_upto(
        ps,
        i,
        k + 1,
    )[key2] == expected[key2] by {
        if key2 == key {
            lemma_tree_value(ps, i, k + 1, i, k);
        } else {
            let (a, b) = choose|a: int, b: int|
                is_claim(ps, a, b) && comes_before(a, b, i, k) && key_at(ps, a, b) == key2;
            lemma_tree_value(ps, i, k, a, b);
            lemma_tree_value(ps, i, k + 1, a, b);
        }
    }
    assert(tree_upto(ps, i, k + 1) =~= expected);
}


/// Whether two sequences of names are equal.
fn names_equal(a: &Vec<String>, b: &Vec<String>) -> (r: bool)
    ensures
        r == (names_view(a@) == names_view(b@)),
{
    if a.len() != b.len() {
        return false;
    }
    let mut i: usize = 0;
    while i < a.len()
        invariant
            a@.len() == b@.len(),
            i <= a@.len(),
            forall|j: int| 0 <= j < i ==> a@[j]@ == b@[j]@,
        decreases a@.len() - i,
    {
        if a[i] != b[i] {
            assert(names_view(a@)[i as int] != names_view(b@)[i as int]);
            return false;
        }
        i = i + 1;
    }
    assert(names_view(a@) =~= names_view(b@));
    true
}

/// A copy of a sequence of names.
fn copy_names(a: &Vec<String>) -> (r: Vec<String>)
    ensures
        names_view(r@) == names_view(a@),
{
    let mut r: Vec<String> = Vec::new();
    let mut i: usize = 0;
    while i < a.len()
        invariant
            i <= a@.len(),
            names_view(r@) =~= names_view(a@.take(i as int)),
        decreases a@.len() - i,
    {
        let ghost before = r@;
        r.push(a[i].clone());
        proof {
            assert(a@.take(i + 1) =~= a@.take(i as int).push(a@[i as int]));
            assert(names_view(r@) =~= names_view(before).push(a@[i as int]@));
            assert(names_view(a@.take(i + 1)) =~= names_view(a@.take(i as int)).push(a@[i as int]@));
        }
        i = i + 1;
    }
    assert(a@.take(a@.len() as int) =~= a@);
    r
}

/// The index of the node at prefix `key`, if there is one.
fn find_node(nodes: &Vec<HierarchyNode>, key: &Vec<String>) -> (r: Option<usize>)
    requires
        unique_paths(nodes@),
    ensures
        r is None <==> !nodes_map(nodes@).contains_key(names_view(key@)),
        r matches Some(j) ==> j < nodes@.len() && names_view(nodes@[j as int].path@) == names_view(
            key@,
        ),
{
    let mut j: usize = 0;
    while j < nodes.len()
        invariant
            j <= nodes@.len(),
            forall|l: int| 0 <= l < j ==> names_view(nodes@[l].path@) != names_view(key@),
        decreases nodes@.len() - j,
    {
        if names_equal(&nodes[j].path, key) {
            return Some(j);
        }
        j = j + 1;
    }
    None
}

/// A copy of an optional data type.
fn copy_type(t: &Option<String>) -> (r: Option<String>)
    ensures
        type_view(r) == type_view(*t),
{
    match t {
        Some(s) => Some(s.clone()),
        None => None,
    }
}

/// Whether two optional data types are equal.
fn types_equal(a: &Option<String>, b: &Option<String>) -> (r: bool)
    ensures
        r == (type_view(*a) == type_view(*b)),
{
    match (a, b) {
        (Some(x), Some(y)) => *x == *y,
        (None, None) => true,
        _ => false,
    }
}

/// Merges all declared paths into one tree, or reports a prefix on which
/// two declarations disagree.
pub fn merge(paths: &Vec<DeclaredPath>) -> (r: Result<StructHierarchy, MergeError>)
    ensures
        r is Ok <==> consistent(paths_view(paths@)),
        r matches Ok(h) ==> h.wf() && h@ == tree_of(paths_view(paths@)),
        r matches Err(e) ==> conflict_at(paths_view(paths@), names_view(e.path@), e.kind),
{
    let ghost ps = paths_view(paths@);
    let mut nodes: Vec<HierarchyNode> = Vec::new();
    let mut i: usize = 0;
    assert(nodes_map(nodes@) =~= tree_upto(ps, 0, 0));
    while i < paths.len()
        invariant
            ps == paths_view(paths@),
            i <= paths@.len(),
            unique_paths(nodes@),
            nodes_map(nodes@) == tree_upto(ps, i as int, 0),
            consistent_upto(ps, i as int, 0),
        decreases paths@.len() - i,
    {
        let segments = &paths[i].segments;
        let data_type = &paths[i].data_type;
        assert(ps[i as int].segments == segments_view(segments@));
        let mut key: Vec<String> = Vec::new();
        let mut k: usize = 0;
        assert(names_view(key@) =~= ps[i as int].segments.take(0).map_values(
            |s: SegmentView| s.name,
        ));
        while k < segments.len()
            invariant
                ps == paths_view(paths@),
                i < paths@.len(),
                segments == paths@[i as int].segments,
                ps[i as int].segments == segments_view(segments@),
                ps[i as int].data_type == data_type@,
                k <= segments@.len(),
                unique_paths(nodes@),
                nodes_map(nodes@) == tree_upto(ps, i as int, k as int),
                consistent_upto(ps, i as int, k as int),
                names_view(key@) == ps[i as int].segments.take(k as int).map_values(
                    |s: SegmentView| s.name,
                ),
            decreases segments@.len() - k,
        {
            proof {
                lemma_key_step(ps, i as int, k as int);
            }
            let ghost before = key@;
            key.push(segments[k].name.clone());
            proof {
                assert(key@ == before.push(segments@[k as int].name));
                assert(names_view(key@) =~= names_view(before).push(segments@[k as int].name@));
                assert(segments_view(segments@)[k as int] == segments@[k as int]@);
            }
            let is_optional = segments[k].is_optional;
            let node_type = if k + 1 == segments.len() {
                Some(data_type.clone())
            } else {
                None
            };
            let ghost node = NodeView { is_optional, data_type: type_view(node_type) };
            assert(node == node_at(ps, i as int, k as int));
            match find_node(&nodes, &key) {
                Some(j) => {
                    proof {
                        lemma_nodes_map_at(nodes@, j as int);
                    }
                    let same_optionality = nodes[j].is_optional == is_optional;
                    let same_type = types_equal(&nodes[j].data_type, &node_type);
                    if !same_optionality || !same_type {
                        let kind = if !same_optionality {
                            ConflictKind::Optionality
                        } else if nodes[j].data_type.is_some() != node_type.is_some() {
                            ConflictKind::Shape
                        } else {
                            ConflictKind::DataType
                        };
                        proof {
                            let key_view = names_view(key@);
                            assert(claimed_upto(ps, i as int, k as int, key_view));
                            let (c, d) = choose|c: int, d: int|
                                is_claim(ps, c, d) && comes_before(c, d, i as int, k as int)
                                    && key_at(ps, c, d) == key_view;
                            lemma_tree_value(ps, i as int, k as int, c, d);
                            assert(node_at(ps, c, d) == nodes@[j as int]@);
                            assert(conflict_kind(node_at(ps, c, d), node_at(ps, i as int, k as int)) == kind);
                            assert(conflict_at(ps, key_view, kind));
                            assert(!consistent(ps)) by {
                                assert(comes_before(c, d, paths@.len() as int, 0));
                                assert(comes_before(i as int, k as int, paths@.len() as int, 0));
                            }
                        }
                        return Err(MergeError { path: key, kind });
                    }
                    proof {
                        lemma_claim_known(ps, i as int, k as int);
                    }
                },
                None => {
                    let ghost old_nodes = nodes@;
                    let path = copy_names(&key);
                    nodes.push(HierarchyNode { path, is_optional, data_type: node_type });
                    proof {
                        lemma_claim_new(ps, i as int, k as int);
                        let key_view = names_view(key@);
                        assert(unique_paths(nodes@)) by {
                            assert forall|a: int| 0 <= a < old_nodes.len() implies names_view(
                                #[trigger] old_nodes[a].path@,
                            ) != key_view by {
                                lemma_nodes_map_at(old_nodes, a);
                            }
                        }
                        assert forall|key2: Seq<Seq<char>>| #[trigger] nodes_map(nodes@).contains_key(key2)
                            <==> nodes_map(old_nodes).insert(key_view, node).contains_key(key2) by {
                            if nodes_map(nodes@).contains_key(key2) {
                                let a = choose|a: int| 0 <= a < nodes@.len() && names_view(nodes@[a].path@) == key2;
                                if a < old_nodes.len() {
                                    assert(names_view(old_nodes[a].path@) == key2);
                                }
                            }
                            if nodes_map(old_nodes).contains_key(key2) {
                                let a = choose|a: int| 0 <= a < old_nodes.len() && names_view(old_nodes[a].path@) == key2;
                                assert(names_view(nodes@[a].path@) == key2);
                            }
                            if key2 == key_view {
                                assert(names_view(nodes@[old_nodes.len() as int].path@) == key2);
                            }
                        }
                        assert forall|key2: Seq<Seq<char>>| #[trigger] nodes_map(nodes@).contains_key(key2)
                            implies nodes_map(nodes@)[key2] == nodes_map(old_nodes).insert(key_view, node)[key2] by {
                            let a = choose|a: int| 0 <= a < nodes@.len() && names_view(nodes@[a].path@) == key2;
                            lemma_nodes_map_at(nodes@, a);
                            if a < old_nodes.len() {
                                assert(nodes@[a] == old_nodes[a]);
                                lemma_nodes_map_at(old_nodes, a);
                            }
                        }
                        assert(nodes_map(nodes@) =~= nodes_map(old_nodes).insert(key_view, node));
                    }
                },
            }
            k = k + 1;
            proof {
                assert(ps[i as int].segments.take(k as int).map_values(|s: SegmentView| s.name)
                    =~= ps[i as int].segments.take(k - 1).map_values(|s: SegmentView| s.name).push(
                    ps[i as int].segments[k - 1].name,
                ));
            }
        }
        proof {
            lemma_next_path(ps, i as int);
        }
        i = i + 1;
    }
    Ok(StructHierarchy { nodes })
}


/// Some declaration has `key` as one of its prefixes.
pub open spec fn is_declared_prefix(ps: Seq<DeclaredPathView>, key: Seq<Seq<char>>) -> bool {
    exists|a: int, b: int| is_claim(ps, a, b) && key_at(ps, a, b) == key
}

/// When the declarations agree on every shared prefix, the merged tree has
/// exactly one node for each distinct declared prefix, and that node is
/// what every declaration through it says of it.
pub proof fn lemma_one_node_per_prefix(ps: Seq<DeclaredPathView>)
    requires
        consistent(ps),
    ensures
        tree_of(ps).dom() == Set::new(|key: Seq<Seq<char>>| is_declared_prefix(ps, key)),
        forall|a: int, b: int|
            is_claim(ps, a, b) ==> #[trigger] tree_of(ps)[key_at(ps, a, b)] == node_at(ps, a, b),
{
    assert forall|key: Seq<Seq<char>>| #[trigger] tree_of(ps).dom().contains(key)
        <==> is_declared_prefix(ps, key) by {
        if is_declared_prefix(ps, key) {
            let (a, b) = choose|a: int, b: int| is_claim(ps, a, b) && key_at(ps, a, b) == key;
            assert(comes_before(a, b, ps.len() as int, 0));
        }
    }
    assert(tree_of(ps).dom() =~= Set::new(|key: Seq<Seq<char>>| is_declared_prefix(ps, key)));
    assert forall|a: int, b: int| is_claim(ps, a, b) implies #[trigger] tree_of(ps)[key_at(
        ps,
        a,
        b,
    )] == node_at(ps, a, b) by {
        lemma_tree_value(ps, ps.len() as int, 0, a, b);
    }
}

/// Two lists that hold the same declarations, in whatever order, merge
/// alike: both fail, or both give the same tree.
pub proof fn lemma_merge_ignores_order(ps: Seq<DeclaredPathView>, qs: Seq<DeclaredPathView>)
    requires
        forall|i: int| 0 <= i < ps.len() ==> qs.contains(#[trigger] ps[i]),
        forall|j: int| 0 <= j < qs.len() ==> ps.contains(#[trigger] qs[j]),
    ensures
        consistent(ps) <==> consistent(qs),
        consistent(ps) ==> tree_of(ps) == tree_of(qs),
{
    if consistent(qs) {
        lemma_consistent_transfers(ps, qs);
    }
    if consistent(ps) {
        lemma_consistent_transfers(qs, ps);
        lemma_one_node_per_prefix(ps);
        lemma_one_node_per_prefix(qs);
        assert forall|key: Seq<Seq<char>>| is_declared_prefix(ps, key) <==> is_declared_prefix(qs, key) by {
            if is_declared_prefix(ps, key) {
                let (a, b) = choose|a: int, b: int| is_claim(ps, a, b) && key_at(ps, a, b) == key;
                let j = choose|j: int| 0 <= j < qs.len() && qs[j] == ps[a];
                assert(is_claim(qs, j, b) && key_at(qs, j, b) == key);
            }
            if is_declared_prefix(qs, key) {
                let (a, b) = choose|a: int, b: int| is_claim(qs, a, b) && key_at(qs, a, b) == key;
                let j = choose|j: int| 0 <= j < ps.len() && ps[j] == qs[a];
                assert(is_claim(ps, j, b) && key_at(ps, j, b) == key);
            }
        }
        assert(tree_of(ps).dom() =~= tree_of(qs).dom());
        assert forall|key: Seq<Seq<char>>| #[trigger] tree_of(ps).contains_key(key) implies tree_of(ps)[key]
            == tree_of(qs)[key] by {
            let (a, b) = choose|a: int, b: int| is_claim(ps, a, b) && key_at(ps, a, b) == key;
            let j = choose|j: int| 0 <= j < qs.len() && qs[j] == ps[a];
            assert(is_claim(qs, j, b) && key_at(qs, j, b) == key && node_at(qs, j, b) == node_at(ps, a, b));
        }
        assert(tree_of(ps) =~= tree_of(qs));
    }
}

proof fn lemma_consistent_transfers(ps: Seq<DeclaredPathView>, qs: Seq<DeclaredPathView>)
    requires
        forall|i: int| 0 <= i < ps.len() ==> qs.contains(#[trigger] ps[i]),
        consistent(qs),
    ensures
        consistent(ps),
{
    assert forall|a: int, b: int, c: int, d: int|
        is_claim(ps, a, b) && is_claim(ps, c, d) && comes_before(a, b, ps.len() as int, 0)
            && comes_before(c, d, ps.len() as int, 0) && #[trigger] key_at(ps, a, b)
            == #[trigger] key_at(ps, c, d) implies node_at(ps, a, b) == node_at(ps, c, d) by {
        let x = choose|j: int| 0 <= j < qs.len() && qs[j] == ps[a];
        let y = choose|j: int| 0 <= j < qs.len() && qs[j] == ps[c];
        assert(key_at(qs, x, b) == key_at(ps, a, b));
        assert(key_at(qs, y, d) == key_at(ps, c, d));
        assert(comes_before(x, b, qs.len() as int, 0));
        assert(comes_before(y, d, qs.len() as int, 0));
        assert(node_at(qs, x, b) == node_at(ps, a, b));
        assert(node_at(qs, y, d) == node_at(ps, c, d));
    }
}

/// A prefix that one declaration marks optional and another does not makes
/// the merge fail.
pub proof fn lemma_optionality_conflict_fails(
    ps: Seq<DeclaredPathView>,
    a: int,
    b: int,
    c: int,
    d: int,
)
    requires
        is_claim(ps, a, b),
        is_claim(ps, c, d),
        key_at(ps, a, b) == key_at(ps, c, d),
        ps[a].segments[b].is_optional != ps[c].segments[d].is_optional,
    ensures
        !consistent(ps),
{
    assert(comes_before(a, b, ps.len() as int, 0));
    assert(comes_before(c, d, ps.len() as int, 0));
    assert(node_at(ps, a, b) != node_at(ps, c, d));
}


/// The path that field `f` declares under the root of `role`: the path of a
/// parameter, persistent state or additional output, or the name of a main
/// output as a single segment.
pub open spec fn declared_path_of(f: Field, role: Role) -> Option<DeclaredPathView> {
    if f.role() != role {
        None
    } else {
        match f {
            Field::Parameter { data_type, path, .. }
            | Field::PersistentState { data_type, path, .. }
            | Field::AdditionalOutput { data_type, path, .. } => Some(
                DeclaredPathView { segments: segments_view(path@), data_type: data_type@ },
            ),
            Field::MainOutput { data_type, name } => Some(
                DeclaredPathView {
                    segments: seq![SegmentView { name: name@, is_optional: false, is_variable: false }],
                    data_type: data_type@,
                },
            ),
            _ => None,
        }
    }
}

/// The paths that `fields` declare under the root of `role`, in order.
pub open spec fn paths_in_fields(fields: Seq<Field>, role: Role) -> Seq<DeclaredPathView>
    decreases fields.len(),
{
    if fields.len() == 0 {
        Seq::empty()
    } else {
        paths_in_fields(fields.drop_last(), role) + match declared_path_of(fields.last(), role) {
            Some(p) => seq![p],
            None => Seq::empty(),
        }
    }
}

/// The paths that `nodes` declare under the root of `role`: node by node,
/// creation context, then cycle context, then main outputs.
pub open spec fn paths_in_nodes(nodes: Seq<Node>, role: Role) -> Seq<DeclaredPathView>
    decreases nodes.len(),
{
    if nodes.len() == 0 {
        Seq::empty()
    } else {
        let node = nodes.last();
        paths_in_nodes(nodes.drop_last(), role) + paths_in_fields(node.creation_context@, role)
            + paths_in_fields(node.cycle_context@, role) + paths_in_fields(node.main_outputs@, role)
    }
}

/// A copy of a path.
fn copy_segments(path: &Vec<PathSegment>) -> (r: Vec<PathSegment>)
    ensures
        segments_view(r@) == segments_view(path@),
{
    let mut r: Vec<PathSegment> = Vec::new();
    let mut i: usize = 0;
    while i < path.len()
        invariant
            i <= path@.len(),
            segments_view(r@) =~= segments_view(path@.take(i as int)),
        decreases path@.len() - i,
    {
        let segment = &path[i];
        let ghost before = r@;
        r.push(
            PathSegment {
                name: segment.name.clone(),
                is_optional: segment.is_optional,
                is_variable: segment.is_variable,
            },
        );
        proof {
            assert(segments_view(r@) =~= segments_view(before).push(path@[i as int]@));
            assert(segments_view(path@.take(i + 1)) =~= segments_view(path@.take(i as int)).push(
                path@[i as int]@,
            ));
        }
        i = i + 1;
    }
    assert(path@.take(path@.len() as int) =~= path@);
    r
}

/// The path that `field` declares under the root of `role`.
fn path_of_field(field: &Field, role: Role) -> (r: Option<DeclaredPath>)
    ensures
        match r {
            Some(p) => declared_path_of(*field, role) == Some(p@),
            None => declared_path_of(*field, role) is None,
        },
{
    match (field, role) {
        (Field::Parameter { data_type, path, .. }, Role::Parameter)
        | (Field::PersistentState { data_type, path, .. }, Role::PersistentState)
        | (Field::AdditionalOutput { data_type, path, .. }, Role::AdditionalOutput) => Some(
            DeclaredPath { segments: copy_segments(path), data_type: data_type.clone() },
        ),
        (Field::MainOutput { data_type, name }, Role::MainOutput) => {
            let segment = PathSegment { name: name.clone(), is_optional: false, is_variable: false };
            let segments = vec![segment];
            assert(segments_view(segments@) =~= seq![segment@]);
            Some(DeclaredPath { segments, data_type: data_type.clone() })
        },
        _ => None,
    }
}

/// Appends the paths that `fields` declare under the root of `role`.
fn collect_paths(fields: &Vec<Field>, role: Role, out: &mut Vec<DeclaredPath>)
    ensures
        paths_view(final(out)@) == paths_view(old(out)@) + paths_in_fields(fields@, role),
{
    let ghost start = paths_view(out@);
    let mut i: usize = 0;
    while i < fields.len()
        invariant
            i <= fields@.len(),
            paths_view(out@) == start + paths_in_fields(fields@.take(i as int), role),
        decreases fields@.len() - i,
    {
        proof {
            assert(fields@.take(i + 1).drop_last() =~= fields@.take(i as int));
        }
        match path_of_field(&fields[i], role) {
            Some(path) => {
                let ghost before = out@;
                out.push(path);
                proof {
                    assert(paths_view(out@) =~= paths_view(before).push(path@));
                    assert(start + paths_in_fields(fields@.take(i + 1), role) =~= paths_view(before).push(path@));
                }
            },
            None => {
                proof {
                    assert(start + paths_in_fields(fields@.take(i + 1), role) =~= start + paths_in_fields(
                        fields@.take(i as int),
                        role,
                    ));
                }
            },
        }
        i = i + 1;
    }
    assert(fields@.take(fields@.len() as int) =~= fields@);
}

/// The paths that `nodes` declare under the root of `role`, ready to be
/// merged into that root's tree.
pub fn declared_paths(nodes: &Vec<Node>, role: Role) -> (r: Vec<DeclaredPath>)
    ensures
        paths_view(r@) == paths_in_nodes(nodes@, role),
{
    let mut r: Vec<DeclaredPath> = Vec::new();
    let mut i: usize = 0;
    assert(paths_view(r@) =~= Seq::<DeclaredPathView>::empty());
    while i < nodes.len()
        invariant
            i <= nodes@.len(),
            paths_view(r@) == paths_in_nodes(nodes@.take(i as int), role),
        decreases nodes@.len() - i,
    {
        proof {
            assert(nodes@.take(i + 1).drop_last() =~= nodes@.take(i as int));
        }
        let node = &nodes[i];
        collect_paths(&node.creation_context, role, &mut r);
        collect_paths(&node.cycle_context, role, &mut r);
        collect_paths(&node.main_outputs, role, &mut r);
        i = i + 1;
    }
    assert(nodes@.take(nodes@.len() as int) =~= nodes@);
    r
}


/// The tree of the root of `role` (configuration parameters, persistent
/// state, main outputs or additional outputs) over all paths `nodes` declare.
pub fn hierarchy_of(nodes: &Vec<Node>, role: Role) -> (r: Result<StructHierarchy, MergeError>)
    ensures
        r is Ok <==> consistent(paths_in_nodes(nodes@, role)),
        r matches Ok(h) ==> h.wf() && h@ == tree_of(paths_in_nodes(nodes@, role)),
        r matches Err(e) ==> conflict_at(paths_in_nodes(nodes@, role), names_view(e.path@), e.kind),
{
    let paths = declared_paths(nodes, role);
    merge(&paths)
}

} // verus!

//! Templates: a node tree, listed in document order, with the places of its
//! named references recorded as traversal distances.

use vstd::hash_map::StringHashMap;
use vstd::prelude::*;

verus! {

/// The character that marks a reference.
pub const SIGIL: char = '#';

/// What kind of node a node is.
#[derive(Clone, Copy, Debug, PartialEq, Eq)]
pub enum NodeKind {
    Element,
    Text,
    /// A comment, a processing instruction, and the like.
    Other,
}

/// What the scanner reads of a node of the host tree.
#[derive(Clone, Debug, PartialEq, Eq)]
pub struct Node {
    pub kind: NodeKind,
    /// The node's name: an element's tag.
    pub name: String,
    /// The names of an element's attributes, in the order in which the host
    /// lists them.
    pub attributes: Vec<String>,
    /// The node's value: a text node's text.
    pub value: Option<String>,
}

/// Whether `text` opens with the sigil.
pub open spec fn is_marker(text: Seq<char>) -> bool {
    text.len() > 0 && text[0] == SIGIL
}

/// The name that a marker gives: what follows its sigil. A text that is no
/// marker is given back as it is.
pub open spec fn reference_name(text: Seq<char>) -> Seq<char> {
    if is_marker(text) {
        text.drop_first()
    } else {
        text
    }
}

/// The index of the first of `attributes` that is a marker, or their number
/// where none is.
pub open spec fn first_marker(attributes: Seq<String>) -> int
    decreases attributes.len(),
{
    if attributes.len() == 0 {
        0
    } else if is_marker(attributes[0]@) {
        0
    } else {
        1 + first_marker(attributes.drop_first())
    }
}

impl Node {
    /// The reference that the node is marked with, if any: by the first of an
    /// element's attributes that is a marker, or by a text node's value.
    pub open spec fn mark(self) -> Option<Seq<char>> {
        match self.kind {
            NodeKind::Element => if first_marker(self.attributes@) < self.attributes@.len() {
                Some(reference_name(self.attributes@[first_marker(self.attributes@)]@))
            } else {
                None
            },
            NodeKind::Text => match self.value {
                Some(text) => if is_marker(text@) {
                    Some(reference_name(text@))
                } else {
                    None
                },
                None => None,
            },
            NodeKind::Other => None,
        }
    }

    /// Whether `self` is what a scan leaves of `before`: a marked element has
    /// lost the attribute that marked it, a marked text node has an empty
    /// value, and nothing else has changed.
    pub open spec fn scanned_from(self, before: Node) -> bool {
        &&& self.kind == before.kind
        &&& self.name == before.name
        &&& match before.kind {
            NodeKind::Element => {
                &&& self.value == before.value
                &&& self.attributes@ == if before.mark() is Some {
                    before.attributes@.remove(first_marker(before.attributes@))
                } else {
                    before.attributes@
                }
            },
            NodeKind::Text => {
                &&& self.attributes == before.attributes
                &&& if before.mark() is Some {
                    self.value is Some && self.value->0@ == Seq::<char>::empty()
                } else {
                    self.value == before.value
                }
            },
            NodeKind::Other => self.attributes == before.attributes && self.value == before.value,
        }
    }
}

/// The first marker stands within the attributes or just past them; no
/// attribute before it is a marker, and the one at its place is.
proof fn lemma_first_marker(attributes: Seq<String>)
    ensures
        0 <= first_marker(attributes) <= attributes.len(),
        forall|k: int| 0 <= k < first_marker(attributes) ==> !is_marker(#[trigger] attributes[k]@),
        first_marker(attributes) < attributes.len() ==> is_marker(attributes[first_marker(attributes)]@),
    decreases attributes.len(),
{
    if attributes.len() > 0 && !is_marker(attributes[0]@) {
        let rest = attributes.drop_first();
        lemma_first_marker(rest);
        assert forall|k: int| 0 <= k < first_marker(attributes) implies !is_marker(#[trigger] attributes[k]@) by {
            if k > 0 {
                assert(attributes[k] == rest[k - 1]);
            }
        }
        if first_marker(attributes) < attributes.len() {
            assert(attributes[first_marker(attributes)] == rest[first_marker(rest)]);
        }
    }
}

/// An index with no marker before it is the first marker if it is one, and
/// is followed by the first marker if it is none.
proof fn lemma_first_marker_at(attributes: Seq<String>, at: int)
    requires
        0 <= at <= attributes.len(),
        forall|k: int| 0 <= k < at ==> !is_marker(#[trigger] attributes[k]@),
    ensures
        at <= first_marker(attributes),
        at < attributes.len() && is_marker(attributes[at]@) ==> first_marker(attributes) == at,
        at == attributes.len() ==> first_marker(attributes) == at,
{
    lemma_first_marker(attributes);
    if first_marker(attributes) < at {
        assert(!is_marker(attributes[first_marker(attributes)]@));
    }
}

/// Says whether `text` opens with the sigil.
fn opens_with_sigil(text: &str) -> (marked: bool)
    ensures
        marked == is_marker(text@),
{
    text.unicode_len() > 0 && text.get_char(0) == SIGIL
}

/// Gives the name of a marker: `text` without the sigil that it opens with.
fn without_sigil(text: &str) -> (name: String)
    ensures
        name@ == reference_name(text@),
{
    if opens_with_sigil(text) {
        let len: usize = text.unicode_len();
        proof {
            assert(text@.subrange(1, len as int) =~= text@.drop_first());
        }
        text.substring_char(1, len).to_owned()
    } else {
        text.to_owned()
    }
}

/// Finds the first of `attributes` that is a marker.
fn find_marker(attributes: &Vec<String>) -> (at: usize)
    ensures
        at == first_marker(attributes@),
        at <= attributes@.len(),
{
    let count: usize = attributes.len();
    let mut at: usize = 0;
    while at < count && !opens_with_sigil(attributes[at].as_str())
        invariant
            count == attributes@.len(),
            at <= count,
            forall|k: int| 0 <= k < at ==> !is_marker(#[trigger] attributes@[k]@),
        decreases count - at,
    {
        at += 1;
    }
    proof {
        lemma_first_marker_at(attributes@, at as int);
    }
    at
}

impl Node {
    /// The index of the attribute that marks the node, where the node is an
    /// element with a marker.
    pub fn marker_attribute(&self) -> (at: Option<usize>)
        ensures
            at == if self.kind == NodeKind::Element && first_marker(self.attributes@) < self.attributes@.len() {
                Some(first_marker(self.attributes@) as usize)
            } else {
                None
            },
    {
        match self.kind {
            NodeKind::Element => {
                let at = find_marker(&self.attributes);
                if at < self.attributes.len() {
                    Some(at)
                } else {
                    None
                }
            },
            _ => None,
        }
    }

    /// Whether the node is marked with a reference.
    pub fn is_marked(&self) -> (marked: bool)
        ensures
            marked == self.mark() is Some,
    {
        match self.kind {
            NodeKind::Element => find_marker(&self.attributes) < self.attributes.len(),
            NodeKind::Text => match &self.value {
                Some(text) => opens_with_sigil(text.as_str()),
                None => false,
            },
            NodeKind::Other => false,
        }
    }
}

/// Scans one node for a reference marker.
///
/// An element is marked by the first of its attributes whose name opens with
/// the sigil; that attribute is taken off it. A text node is marked by a
/// value that opens with the sigil; its value is emptied. The result is the
/// marker without its sigil, or nothing where the node has no marker, in
/// which case the node is left as it was.
pub fn collector(node: &mut Node) -> (found: Option<String>)
    ensures
        final(node).scanned_from(*old(node)),
        match found {
            Some(name) => old(node).mark() == Some(name@),
            None => old(node).mark() is None,
        },
{
    match node.kind {
        NodeKind::Element => {
            let at: usize = find_marker(&node.attributes);
            if at < node.attributes.len() {
                let attribute: String = node.attributes.remove(at);
                Some(without_sigil(attribute.as_str()))
            } else {
                None
            }
        },
        NodeKind::Text => {
            let marked: bool = match &node.value {
                Some(text) => opens_with_sigil(text.as_str()),
                None => false,
            };
            if marked {
                let name: String = match &node.value {
                    Some(text) => without_sigil(text.as_str()),
                    None => String::new(),
                };
                node.value = Some(String::new());
                Some(name)
            } else {
                None
            }
        },
        NodeKind::Other => None,
    }
}

/// The place of one reference: the number of the traversal steps that lead to
/// it from the reference before it, plus one, and its name. For the first
/// reference the steps are counted from the root.
#[derive(Clone, Debug, PartialEq, Eq)]
pub struct Ref {
    pub step: usize,
    pub name: String,
}

/// Where a cursor stands, in document order, after it was set on the root and
/// then advanced as the first `count` of `paths` say.
pub open spec fn reach(paths: Seq<Ref>, count: int) -> int
    decreases count,
{
    if count <= 0 {
        0
    } else {
        reach(paths, count - 1) + paths[count - 1].step - 1
    }
}

/// The number of marked nodes among the first `upto` of `nodes`.
pub open spec fn marks_before(nodes: Seq<Node>, upto: int) -> int
    decreases upto,
{
    if upto <= 0 {
        0
    } else {
        marks_before(nodes, upto - 1) + if nodes[upto - 1].mark() is Some {
            1int
        } else {
            0int
        }
    }
}

/// Whether `paths` lead to the marked ones among the first `upto` of `nodes`
/// and to no others: there is one path for each marked node, in document
/// order, and replaying the paths reaches each marked node in turn and finds
/// its name there.
pub open spec fn locates(paths: Seq<Ref>, nodes: Seq<Node>, upto: int) -> bool {
    &&& paths.len() == marks_before(nodes, upto)
    &&& forall|k: int|
        0 <= k < paths.len() ==> (#[trigger] paths[k]).step >= 1 && 0 <= reach(paths, k + 1) < upto
    &&& forall|i: int|
        0 <= i < upto && (#[trigger] nodes[i]).mark() is Some ==> {
            &&& reach(paths, marks_before(nodes, i) + 1) == i
            &&& nodes[i].mark() == Some(paths[marks_before(nodes, i)].name@)
        }
}

/// The names bound by the first `count` of `paths`, each to the place that
/// its path leads to. Of two paths with one name the later one counts.
pub open spec fn bindings(paths: Seq<Ref>, count: int) -> Map<Seq<char>, usize>
    decreases count,
{
    if count <= 0 {
        Map::empty()
    } else {
        bindings(paths, count - 1).insert(paths[count - 1].name@, reach(paths, count) as usize)
    }
}

proof fn lemma_marks_before(nodes: Seq<Node>, upto: int)
    requires
        0 <= upto,
    ensures
        0 <= marks_before(nodes, upto) <= upto,
    decreases upto,
{
    if upto > 0 {
        lemma_marks_before(nodes, upto - 1);
    }
}

proof fn lemma_marks_rise(nodes: Seq<Node>, lower: int, upper: int)
    requires
        0 <= lower <= upper,
    ensures
        marks_before(nodes, lower) <= marks_before(nodes, upper),
        lower < upper && nodes[lower].mark() is Some ==> marks_before(nodes, lower) < marks_before(nodes, upper),
    decreases upper - lower,
{
    if lower < upper {
        lemma_marks_rise(nodes, lower, upper - 1);
    }
}

/// Further paths do not change where the earlier ones lead.
proof fn lemma_reach_push(paths: Seq<Ref>, path: Ref, count: int)
    requires
        0 <= count <= paths.len(),
    ensures
        reach(paths.push(path), count) == reach(paths, count),
    decreases count,
{
    if count > 0 {
        lemma_reach_push(paths, path, count - 1);
    }
}

/// Scans every node of a tree, given in document order, and records where the
/// references are.
///
/// Each node is left as a scan leaves it. The paths lead to the nodes that
/// were marked, in document order: replayed on a tree of the same shape they
/// reach each of those nodes in turn.
pub fn gen_path(nodes: &mut Vec<Node>) -> (paths: Vec<Ref>)
    ensures
        final(nodes)@.len() == old(nodes)@.len(),
        forall|i: int| 0 <= i < old(nodes)@.len() ==> (#[trigger] final(nodes)@[i]).scanned_from(old(nodes)@[i]),
        locates(paths@, old(nodes)@, old(nodes)@.len() as int),
{
    let ghost before = nodes@;
    let mut paths: Vec<Ref> = Vec::new();
    let mut idx: usize = 0;
    let mut i: usize = 0;
    while i < nodes.len()
        invariant
            nodes@.len() == before.len(),
            i <= nodes@.len(),
            forall|t: int| 0 <= t < i ==> (#[trigger] nodes@[t]).scanned_from(before[t]),
            forall|t: int| i <= t < nodes@.len() ==> nodes@[t] == before[t],
            locates(paths@, before, i as int),
            idx == i - reach(paths@, paths@.len() as int),
            0 <= reach(paths@, paths@.len() as int) <= i,
        decreases nodes@.len() - i,
    {
        let ghost found = paths@;
        let ghost marks = marks_before(before, i as int);
        proof {
            lemma_marks_before(before, i as int);
        }
        match collector(&mut nodes[i]) {
            Some(name) => {
                let path = Ref { step: idx + 1, name };
                paths.push(path);
                idx = 1;
                proof {
                    assert(marks_before(before, i + 1) == marks + 1);
                    assert(paths@.drop_last() =~= found);
                    lemma_reach_push(found, path, found.len() as int);
                    assert(reach(paths@, paths@.len() as int) == i);
                    assert forall|k: int| 0 <= k < paths@.len() implies (#[trigger] paths@[k]).step >= 1 && 0
                        <= reach(paths@, k + 1) < i + 1 by {
                        if k < found.len() {
                            assert(paths@[k] == found[k]);
                            lemma_reach_push(found, path, k + 1);
                        }
                    }
                    assert forall|t: int| 0 <= t < i + 1 && (#[trigger] before[t]).mark() is Some implies reach(
                        paths@,
                        marks_before(before, t) + 1,
                    ) == t && before[t].mark() == Some(paths@[marks_before(before, t)].name@) by {
                        if t < i {
                            lemma_marks_before(before, t);
                            lemma_marks_rise(before, t, i as int);
                            lemma_reach_push(found, path, marks_before(before, t) + 1);
                        }
                    }
                }
            },
            None => {
                idx += 1;
            },
        }
        i += 1;
    }
    paths
}

/// Why a template could not be made.
#[derive(Clone, Copy, Debug, PartialEq, Eq)]
pub enum TemplateError {
    /// The fragment holds no node.
    NoContent,
}

/// The places of a template's references by name, each place counted in
/// document order from the root, which is at 0.
pub struct RefMap {
    places: StringHashMap<usize>,
}

impl View for RefMap {
    type V = Map<Seq<char>, usize>;

    closed spec fn view(&self) -> Map<Seq<char>, usize> {
        self.places@
    }
}

impl RefMap {
    /// The map that binds no name.
    pub fn new() -> (refs: RefMap)
        ensures
            refs@ == Map::<Seq<char>, usize>::empty(),
    {
        RefMap { places: StringHashMap::new() }
    }

    /// Binds `name` to `place`, in place of what it was bound to.
    pub fn insert(&mut self, name: String, place: usize)
        ensures
            final(self)@ == old(self)@.insert(name@, place),
    {
        self.places.insert(name, place);
    }

    /// The place that `name` is bound to, or nothing where it is not bound.
    pub fn get(&self, name: &str) -> (place: Option<usize>)
        ensures
            place == if self@.contains_key(name@) {
                Some(self@[name@])
            } else {
                None
            },
    {
        match self.places.get(name) {
            Some(place) => Some(*place),
            None => None,
        }
    }

    /// Whether `name` is bound.
    pub fn contains_key(&self, name: &str) -> (bound: bool)
        ensures
            bound == self@.contains_key(name@),
    {
        self.places.contains_key(name)
    }

    /// The number of names bound.
    pub fn len(&self) -> (count: usize)
        ensures
            count == self@.len(),
    {
        self.places.len()
    }

    /// Whether no name is bound.
    pub fn is_empty(&self) -> (empty: bool)
        ensures
            empty == self@.is_empty(),
    {
        self.places.is_empty()
    }
}

/// A scanned tree, listed in document order, with the paths to its
/// references.
pub struct Template {
    nodes: Vec<Node>,
    ref_paths: Vec<Ref>,
}

impl Template {
    /// Every path leads to a node of the tree.
    #[verifier::type_invariant]
    spec fn paths_stay_inside(self) -> bool {
        forall|k: int|
            0 <= k < self.ref_paths@.len() ==> (#[trigger] self.ref_paths@[k]).step >= 1 && 0 <= reach(
                self.ref_paths@,
                k + 1,
            ) < self.nodes@.len()
    }

    /// The nodes of the tree, in document order.
    pub closed spec fn tree(self) -> Seq<Node> {
        self.nodes@
    }

    /// The paths to the references, in document order.
    pub closed spec fn paths(self) -> Seq<Ref> {
        self.ref_paths@
    }

    /// The nodes of the tree, in document order, as the scan left them.
    pub fn nodes(&self) -> (nodes: &Vec<Node>)
        ensures
            nodes@ == self.tree(),
    {
        &self.nodes
    }

    /// The paths to the references, in document order.
    pub fn ref_paths(&self) -> (paths: &Vec<Ref>)
        ensures
            paths@ == self.paths(),
    {
        &self.ref_paths
    }

    /// The place that each path leads to, counted in document order from the
    /// root at 0: for each path in turn, where replaying the paths up to it
    /// arrives. Every place is a place of the tree.
    pub fn places(&self) -> (places: Vec<usize>)
        ensures
            places@.len() == self.paths().len(),
            forall|k: int|
                0 <= k < places@.len() ==> #[trigger] places@[k] == reach(self.paths(), k + 1) && places@[k]
                    < self.tree().len(),
    {
        proof {
            use_type_invariant(self);
        }
        let mut places: Vec<usize> = Vec::new();
        let size: usize = self.nodes.len();
        let mut place: usize = 0;
        let mut k: usize = 0;
        while k < self.ref_paths.len()
            invariant
                size == self.nodes@.len(),
                k <= self.ref_paths@.len(),
                forall|t: int|
                    0 <= t < self.ref_paths@.len() ==> (#[trigger] self.ref_paths@[t]).step >= 1 && 0 <= reach(
                        self.ref_paths@,
                        t + 1,
                    ) < self.nodes@.len(),
                place == reach(self.ref_paths@, k as int),
                places@.len() == k,
                forall|t: int|
                    0 <= t < k ==> #[trigger] places@[t] == reach(self.ref_paths@, t + 1) && places@[t]
                        < self.nodes@.len(),
            decreases self.ref_paths@.len() - k,
        {
            assert(self.ref_paths@[k as int].step >= 1 && reach(self.ref_paths@, k + 1) < self.nodes@.len());
            assert(reach(self.ref_paths@, k + 1) == reach(self.ref_paths@, k as int) + self.ref_paths@[k as int].step
                - 1);
            place = place + (self.ref_paths[k].step - 1);
            places.push(place);
            k += 1;
        }
        places
    }

    /// Finds the references of a tree that has the template's shape: replays
    /// the paths from the root and binds each name to the place reached.
    ///
    /// Every place is a place of the tree. Of two references with one name
    /// the later one is bound.
    pub fn collect(&self) -> (refs: RefMap)
        ensures
            refs@ == bindings(self.paths(), self.paths().len() as int),
            forall|name: Seq<char>| #[trigger] refs@.contains_key(name) ==> refs@[name] < self.tree().len(),
    {
        let places = self.places();
        let mut refs = RefMap::new();
        let mut k: usize = 0;
        while k < self.ref_paths.len()
            invariant
                k <= self.ref_paths@.len(),
                places@.len() == self.ref_paths@.len(),
                forall|t: int|
                    0 <= t < places@.len() ==> #[trigger] places@[t] == reach(self.ref_paths@, t + 1) && places@[t]
                        < self.nodes@.len(),
                refs@ == bindings(self.ref_paths@, k as int),
                forall|name: Seq<char>| #[trigger] refs@.contains_key(name) ==> refs@[name] < self.nodes@.len(),
            decreases self.ref_paths@.len() - k,
        {
            refs.insert(self.ref_paths[k].name.clone(), places[k]);
            k += 1;
        }
        refs
    }
}

/// Compiles a tree, given as its nodes in document order: scans every node
/// and records where the references are.
///
/// The template holds the nodes as the scan leaves them, the markers taken
/// off, and paths that lead to the nodes that were marked.
pub fn compile(nodes: Vec<Node>) -> (template: Template)
    ensures
        template.tree().len() == nodes@.len(),
        forall|i: int| 0 <= i < nodes@.len() ==> (#[trigger] template.tree()[i]).scanned_from(nodes@[i]),
        locates(template.paths(), nodes@, nodes@.len() as int),
{
    let mut nodes = nodes;
    let ref_paths = gen_path(&mut nodes);
    Template { nodes, ref_paths }
}

/// Compiles the content of a fragment, given as its nodes in document order.
///
/// An empty fragment has no root and gives `NoContent`; any other is
/// compiled as [`compile`] does.
pub fn h(fragment: Vec<Node>) -> (made: Result<Template, TemplateError>)
    ensures
        fragment@.len() == 0 <==> made is Err,
        made matches Err(error) ==> error == TemplateError::NoContent,
        made matches Ok(template) ==> {
            &&& template.tree().len() == fragment@.len()
            &&& forall|i: int|
                0 <= i < fragment@.len() ==> (#[trigger] template.tree()[i]).scanned_from(fragment@[i])
            &&& locates(template.paths(), fragment@, fragment@.len() as int)
        },
{
    if fragment.len() == 0 {
        Err(TemplateError::NoContent)
    } else {
        Ok(compile(fragment))
    }
}

/// A marked node whose name no later marked node has is found again by its
/// name: compiling and then collecting binds the name to the node's place.
/// Every name bound is the name of a marked node.
pub proof fn lemma_round_trip(nodes: Seq<Node>, paths: Seq<Ref>)
    requires
        nodes.len() <= usize::MAX,
        locates(paths, nodes, nodes.len() as int),
    ensures
        forall|i: int|
            0 <= i < nodes.len() && (#[trigger] nodes[i]).mark() is Some && (forall|later: int|
                i < later < nodes.len() ==> nodes[later].mark() != nodes[i].mark()) ==> {
                &&& bindings(paths, paths.len() as int).contains_key(nodes[i].mark()->0)
                &&& bindings(paths, paths.len() as int)[nodes[i].mark()->0] == i
            },
        forall|name: Seq<char>| #[trigger]
            bindings(paths, paths.len() as int).contains_key(name) ==> exists|i: int|
                0 <= i < nodes.len() && (#[trigger] nodes[i]).mark() == Some(name),
{
    let all = paths.len() as int;
    assert forall|i: int|
        0 <= i < nodes.len() && (#[trigger] nodes[i]).mark() is Some && (forall|later: int|
            i < later < nodes.len() ==> nodes[later].mark() != nodes[i].mark()) implies bindings(
        paths,
        all,
    ).contains_key(nodes[i].mark()->0) && bindings(paths, all)[nodes[i].mark()->0] == i by {
        let k = marks_before(nodes, i);
        lemma_marks_before(nodes, i);
        lemma_marks_rise(nodes, i, nodes.len() as int);
        lemma_bound_last(nodes, paths, k, all);
    }
    assert forall|name: Seq<char>| #[trigger] bindings(paths, all).contains_key(name) implies exists|i: int|
        0 <= i < nodes.len() && (#[trigger] nodes[i]).mark() == Some(name) by {
        lemma_bound_names(paths, all, name);
        let k = choose|k: int| 0 <= k < all && paths[k].name@ == name;
        lemma_path_leads_to_mark(nodes, paths, k, nodes.len() as int);
    }
}

/// A name that is bound is the name of one of the paths.
proof fn lemma_bound_names(paths: Seq<Ref>, count: int, name: Seq<char>)
    requires
        0 <= count <= paths.len(),
        bindings(paths, count).contains_key(name),
    ensures
        exists|k: int| 0 <= k < count && (#[trigger] paths[k]).name@ == name,
    decreases count,
{
    if count > 0 {
        if paths[count - 1].name@ != name {
            lemma_bound_names(paths, count - 1, name);
        }
    }
}

/// Every path leads to a marked node and has that node's name.
proof fn lemma_path_leads_to_mark(nodes: Seq<Node>, paths: Seq<Ref>, k: int, upto: int)
    requires
        0 <= upto <= nodes.len(),
        0 <= k < marks_before(nodes, upto),
        forall|i: int|
            0 <= i < nodes.len() && (#[trigger] nodes[i]).mark() is Some ==> nodes[i].mark() == Some(
                paths[marks_before(nodes, i)].name@,
            ),
    ensures
        exists|i: int| 0 <= i < upto && (#[trigger] nodes[i]).mark() == Some(paths[k].name@),
    decreases upto,
{
    if upto > 0 {
        if nodes[upto - 1].mark() is Some && marks_before(nodes, upto - 1) == k {
            assert(nodes[upto - 1].mark() == Some(paths[k].name@));
        } else {
            lemma_marks_before(nodes, upto - 1);
            lemma_path_leads_to_mark(nodes, paths, k, upto - 1);
        }
    }
}

/// The path of a marked node whose name no later path has stays bound to the
/// node's place, however many further paths are bound.
proof fn lemma_bound_last(nodes: Seq<Node>, paths: Seq<Ref>, k: int, count: int)
    requires
        nodes.len() <= usize::MAX,
        locates(paths, nodes, nodes.len() as int),
        0 <= k < count <= paths.len(),
        forall|later: int|
            0 <= later < nodes.len() && reach(paths, k + 1) < later ==> (#[trigger] nodes[later]).mark() != Some(
                paths[k].name@,
            ),
    ensures
        bindings(paths, count).contains_key(paths[k].name@),
        bindings(paths, count)[paths[k].name@] == reach(paths, k + 1),
    decreases count,
{
    assert(paths[k].step >= 1 && 0 <= reach(paths, k + 1) < nodes.len());
    if count > k + 1 {
        lemma_bound_last(nodes, paths, k, count - 1);
        // the path bound last leads to a later node, which has another name
        let last = count - 1;
        assert(paths[last].step >= 1 && 0 <= reach(paths, last + 1) < nodes.len());
        lemma_reach_rises(paths, k + 1, last + 1);
        lemma_path_place(nodes, paths, last, nodes.len() as int);
        let place = reach(paths, last + 1);
        assert(nodes[place].mark() == Some(paths[last].name@));
        lemma_path_place(nodes, paths, k, nodes.len() as int);
        if place == reach(paths, k + 1) {
            assert(marks_before(nodes, place) == last);
            assert(marks_before(nodes, place) == k);
        }
    }
}

/// Where steps are at least one, replaying more paths leads no further back.
proof fn lemma_reach_rises(paths: Seq<Ref>, fewer: int, more: int)
    requires
        0 <= fewer <= more <= paths.len(),
        forall|k: int| 0 <= k < paths.len() ==> (#[trigger] paths[k]).step >= 1,
    ensures
        reach(paths, fewer) <= reach(paths, more),
    decreases more - fewer,
{
    if fewer < more {
        lemma_reach_rises(paths, fewer, more - 1);
        assert(paths[more - 1].step >= 1);
    }
}

/// The path with the number `k` leads to the marked node that has `k`
/// marked nodes before it.
proof fn lemma_path_place(nodes: Seq<Node>, paths: Seq<Ref>, k: int, upto: int)
    requires
        0 <= upto <= nodes.len(),
        0 <= k < marks_before(nodes, upto),
        forall|i: int|
            0 <= i < nodes.len() && (#[trigger] nodes[i]).mark() is Some ==> {
                &&& reach(paths, marks_before(nodes, i) + 1) == i
                &&& nodes[i].mark() == Some(paths[marks_before(nodes, i)].name@)
            },
    ensures
        0 <= reach(paths, k + 1) < upto,
        nodes[reach(paths, k + 1)].mark() == Some(paths[k].name@),
        marks_before(nodes, reach(paths, k + 1)) == k,
    decreases upto,
{
    if upto > 0 {
        if nodes[upto - 1].mark() is Some && marks_before(nodes, upto - 1) == k {
        } else {
            lemma_marks_before(nodes, upto - 1);
            lemma_path_place(nodes, paths, k, upto - 1);
        }
    }
}

/// A scan is not repeated: a scanned node that had at most one marker has
/// none, so that a second scan finds nothing on it. A text node never has
/// more than one; of an element this asks that no attribute but the one that
/// marked it is a marker.
pub proof fn lemma_scan_once(before: Node, after: Node)
    requires
        after.scanned_from(before),
        before.kind == NodeKind::Element ==> forall|k: int|
            0 <= k < before.attributes@.len() && k != first_marker(before.attributes@) ==> !is_marker(
                #[trigger] before.attributes@[k]@,
            ),
    ensures
        after.mark() is None,
{
    match before.kind {
        NodeKind::Element => {
            lemma_first_marker(before.attributes@);
            let first = first_marker(before.attributes@);
            assert forall|k: int| 0 <= k < after.attributes@.len() implies !is_marker(
                #[trigger] after.attributes@[k]@,
            ) by {
                if before.mark() is Some {
                    if k < first {
                        assert(after.attributes@[k] == before.attributes@[k]);
                    } else {
                        assert(after.attributes@[k] == before.attributes@[k + 1]);
                    }
                } else {
                    assert(after.attributes@[k] == before.attributes@[k]);
                }
            }
            lemma_first_marker_at(after.attributes@, after.attributes@.len() as int);
        },
        NodeKind::Text => {},
        NodeKind::Other => {},
    }
}

/// Whether a character counts as white space for `str::trim`: whether it has
/// the Unicode property White_Space.
pub uninterp spec fn white_space(c: char) -> bool;

/// `text` without the white space that it opens with.
pub open spec fn without_leading_space(text: Seq<char>) -> Seq<char>
    decreases text.len(),
{
    if text.len() > 0 && white_space(text[0]) {
        without_leading_space(text.drop_first())
    } else {
        text
    }
}

/// `text` without the white space that it ends with.
pub open spec fn without_trailing_space(text: Seq<char>) -> Seq<char>
    decreases text.len(),
{
    if text.len() > 0 && white_space(text.last()) {
        without_trailing_space(text.drop_last())
    } else {
        text
    }
}

/// Calls `str::trim`, which gives the slice of `text` that is left when the
/// white space at both ends is taken off. The contract says so, and that the
/// slice neither opens nor ends with white space.
#[verifier::external_body]
fn trim(text: &str) -> (inner: &str)
    ensures
        inner@ == without_trailing_space(without_leading_space(text@)),
        inner@.len() > 0 ==> !white_space(inner@[0]) && !white_space(inner@.last()),
{
    text.trim()
}

/// The markup that the host is to parse for a template: `value` without the
/// white space around it.
pub fn markup(value: &str) -> (inner: &str)
    ensures
        inner@ == without_trailing_space(without_leading_space(value@)),
{
    trim(value)
}

} // verus!

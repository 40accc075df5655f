//! The knowledge graph over the whole vault: one node per note, a direct edge
//! per link that resolves to a note, and concept edges between notes that
//! share a link to a page that does not exist.

use vstd::prelude::*;
use vstd::string::*;
use crate::text::{
    label_of, label_of_path, lemma_lex_irreflexive, lex_lt, lemma_lex_total, lemma_lex_transitive, str_lt,
    strictly_sorted, strip_md, view_all, with_md, with_md_suffix,
};

verus! {

/// Whether an edge stands for a link or for a shared concept.
#[derive(Debug, Clone, Copy, PartialEq, Eq, Structural)]
pub enum EdgeType {
    /// A link from one note to another note that exists.
    Direct,
    /// Two notes link to the same page, and that page does not exist.
    Concept,
}

/// A note in the graph.
#[derive(Debug, Clone)]
pub struct GraphNode {
    pub id: String,
    pub label: String,
    pub path: String,
    pub connections: usize,
    pub node_type: String,
}

/// An edge of the graph; `concept` names the shared page of a concept edge.
#[derive(Debug, Clone)]
pub struct GraphEdge {
    pub source: String,
    pub target: String,
    pub edge_type: EdgeType,
    pub concept: Option<String>,
}

/// A link target without a page, and the notes that link to it.
#[derive(Debug, Clone)]
pub struct ConceptInfo {
    pub name: String,
    pub count: usize,
    pub notes: Vec<String>,
}

/// Nodes, edges and concepts.
#[derive(Debug, Clone)]
pub struct GraphData {
    pub nodes: Vec<GraphNode>,
    pub edges: Vec<GraphEdge>,
    pub concepts: Vec<ConceptInfo>,
}

/// What a `GraphNode` holds.
pub struct NodeModel {
    pub id: Seq<char>,
    pub label: Seq<char>,
    pub path: Seq<char>,
    pub connections: nat,
    pub node_type: Seq<char>,
}

/// What a `GraphEdge` holds.
pub struct EdgeModel {
    pub source: Seq<char>,
    pub target: Seq<char>,
    pub edge_type: EdgeType,
    pub concept: Option<Seq<char>>,
}

/// What a `ConceptInfo` holds.
pub struct ConceptModel {
    pub name: Seq<char>,
    pub count: nat,
    pub notes: Seq<Seq<char>>,
}

/// What a `GraphData` holds.
pub struct GraphModel {
    pub nodes: Seq<NodeModel>,
    pub edges: Seq<EdgeModel>,
    pub concepts: Seq<ConceptModel>,
}

impl View for GraphNode {
    type V = NodeModel;

    open spec fn view(&self) -> NodeModel {
        NodeModel {
            id: self.id@,
            label: self.label@,
            path: self.path@,
            connections: self.connections as nat,
            node_type: self.node_type@,
        }
    }
}

impl View for GraphEdge {
    type V = EdgeModel;

    open spec fn view(&self) -> EdgeModel {
        EdgeModel {
            source: self.source@,
            target: self.target@,
            edge_type: self.edge_type,
            concept: match self.concept {
                Some(c) => Some(c@),
                None => None,
            },
        }
    }
}

impl View for ConceptInfo {
    type V = ConceptModel;

    open spec fn view(&self) -> ConceptModel {
        ConceptModel {
            name: self.name@,
            count: self.count as nat,
            notes: view_all(self.notes@),
        }
    }
}

impl View for GraphData {
    type V = GraphModel;

    open spec fn view(&self) -> GraphModel {
        GraphModel {
            nodes: view_all(self.nodes@),
            edges: view_all(self.edges@),
            concepts: view_all(self.concepts@),
        }
    }
}

/// The views of a sequence of (source, target) links.
pub open spec fn pair_views(s: Seq<(String, String)>) -> Seq<(Seq<char>, Seq<char>)> {
    Seq::new(s.len(), |i: int| (s[i].0@, s[i].1@))
}

/// The node type of every note: `note`.
pub open spec fn note_kind() -> Seq<char> {
    seq!['n', 'o', 't', 'e']
}

/// A link target resolves when a note has that path, or that path with `.md`
/// appended.
pub open spec fn resolves(notes: Seq<Seq<char>>, target: Seq<char>) -> bool {
    notes.contains(target) || notes.contains(with_md(target))
}

/// The targets of `raw` that do not resolve, each once, in the order in which
/// they first occur.
pub open spec fn concept_names(notes: Seq<Seq<char>>, raw: Seq<(Seq<char>, Seq<char>)>) -> Seq<
    Seq<char>,
>
    decreases raw.len(),
{
    if raw.len() == 0 {
        Seq::empty()
    } else {
        let rest = concept_names(notes, raw.drop_last());
        let t = raw.last().1;
        if resolves(notes, t) || rest.contains(t) {
            rest
        } else {
            rest.push(t)
        }
    }
}

/// The notes that link to `name`.
pub open spec fn sources_of(raw: Seq<(Seq<char>, Seq<char>)>, name: Seq<char>) -> Set<Seq<char>> {
    Set::new(|s: Seq<char>| raw.contains((s, name)))
}

/// `c` is the concept `name` of the links `raw`: its notes are the sources of
/// the links to `name`, each once, in ascending order.
pub open spec fn is_concept(c: ConceptModel, name: Seq<char>, raw: Seq<(Seq<char>, Seq<char>)>) -> bool {
    &&& c.name == name
    &&& c.count == c.notes.len()
    &&& strictly_sorted(c.notes)
    &&& c.notes.to_set() =~= sources_of(raw, name)
}

/// The note that a resolving target stands for: the target itself where a
/// note has that path, else the target with `.md`.
pub open spec fn resolved_path(notes: Seq<Seq<char>>, target: Seq<char>) -> Seq<char> {
    if notes.contains(target) {
        target
    } else {
        with_md(target)
    }
}

/// The two ends of each link whose target resolves: its source and the note
/// that its target stands for. Links that do not resolve have no ends.
pub open spec fn resolved_ends(notes: Seq<Seq<char>>, links: Seq<(Seq<char>, Seq<char>)>) -> Seq<
    (Seq<char>, Seq<char>),
>
    decreases links.len(),
{
    if links.len() == 0 {
        Seq::empty()
    } else {
        let rest = resolved_ends(notes, links.drop_last());
        let l = links.last();
        if resolves(notes, l.1) {
            rest.push((l.0, resolved_path(notes, l.1)))
        } else {
            rest
        }
    }
}

/// How often `p` is one of the two ends of a pair of `ends`.
pub open spec fn endpoint_count(links: Seq<(Seq<char>, Seq<char>)>, p: Seq<char>) -> nat
    decreases links.len(),
{
    if links.len() == 0 {
        0
    } else {
        endpoint_count(links.drop_last(), p) + (if links.last().0 == p {
            1nat
        } else {
            0nat
        }) + (if links.last().1 == p {
            1nat
        } else {
            0nat
        })
    }
}

/// For each concept that `p` shares with at least one other note, the number
/// of those other notes.
pub open spec fn concept_bonus(cs: Seq<ConceptModel>, p: Seq<char>) -> nat
    decreases cs.len(),
{
    if cs.len() == 0 {
        0
    } else {
        concept_bonus(cs.drop_last(), p) + (if cs.last().notes.len() > 1 && cs.last().notes.contains(p) {
            (cs.last().notes.len() - 1) as nat
        } else {
            0nat
        })
    }
}

/// `n`, or the largest `usize` where `n` is above it.
pub open spec fn saturate(n: nat) -> nat {
    if n > usize::MAX {
        usize::MAX as nat
    } else {
        n
    }
}

/// The node of the note at `path` with the given number of connections.
pub open spec fn note_node(path: Seq<char>, connections: nat) -> NodeModel {
    NodeModel { id: path, label: label_of(path), path, connections, node_type: note_kind() }
}

/// The direct edge from `source` to `target`.
pub open spec fn direct_edge(source: Seq<char>, target: Seq<char>) -> EdgeModel {
    EdgeModel { source, target, edge_type: EdgeType::Direct, concept: None }
}

/// The concept edge between `source` and `target` for the concept `name`.
pub open spec fn concept_edge(source: Seq<char>, target: Seq<char>, name: Seq<char>) -> EdgeModel {
    EdgeModel { source, target, edge_type: EdgeType::Concept, concept: Some(name) }
}

/// One direct edge for each link whose target resolves, in the order of the
/// links.
pub open spec fn direct_edges(notes: Seq<Seq<char>>, links: Seq<(Seq<char>, Seq<char>)>) -> Seq<
    EdgeModel,
>
    decreases links.len(),
{
    if links.len() == 0 {
        Seq::empty()
    } else {
        let rest = direct_edges(notes, links.drop_last());
        let l = links.last();
        if resolves(notes, l.1) {
            rest.push(direct_edge(l.0, l.1))
        } else {
            rest
        }
    }
}

/// The concept edges from `src[i]` to `src[j]` for `i < j < hi`, by `j`.
pub open spec fn pairs_from(src: Seq<Seq<char>>, i: int, hi: int, name: Seq<char>) -> Seq<EdgeModel>
    decreases hi - i,
{
    if hi <= i + 1 {
        Seq::empty()
    } else {
        pairs_from(src, i, hi - 1, name).push(concept_edge(src[i], src[hi - 1], name))
    }
}

/// The concept edges between `src[i]` and `src[j]` for `i < n` and
/// `i < j < src.len()`, by `i` and then by `j`.
pub open spec fn pair_edges(src: Seq<Seq<char>>, n: int, name: Seq<char>) -> Seq<EdgeModel>
    decreases n,
{
    if n <= 0 {
        Seq::empty()
    } else {
        pair_edges(src, n - 1, name) + pairs_from(src, n - 1, src.len() as int, name)
    }
}

/// For each concept in turn, one edge for each unordered pair of its notes.
pub open spec fn concept_edges(cs: Seq<ConceptModel>) -> Seq<EdgeModel>
    decreases cs.len(),
{
    if cs.len() == 0 {
        Seq::empty()
    } else {
        concept_edges(cs.drop_last()) + pair_edges(
            cs.last().notes,
            cs.last().notes.len() as int,
            cs.last().name,
        )
    }
}

/// `g` is the graph of the notes `notes`, the links `links` and the raw links
/// `raw`.
pub open spec fn is_global_graph(
    g: GraphModel,
    notes: Seq<Seq<char>>,
    links: Seq<(Seq<char>, Seq<char>)>,
    raw: Seq<(Seq<char>, Seq<char>)>,
) -> bool {
    &&& g.nodes.len() == notes.len()
    &&& forall|i: int|
        0 <= i < notes.len() ==> #[trigger] g.nodes[i] == note_node(
            notes[i],
            saturate(
                endpoint_count(resolved_ends(notes, links), notes[i]) + concept_bonus(
                    g.concepts,
                    notes[i],
                ),
            ),
        )
    &&& g.concepts.len() == concept_names(notes, raw).len()
    &&& forall|j: int|
        0 <= j < g.concepts.len() ==> is_concept(
            #[trigger] g.concepts[j],
            concept_names(notes, raw)[j],
            raw,
        )
    &&& g.edges == direct_edges(notes, links) + concept_edges(g.concepts)
}

/// Whether `s` is among `v`.
pub fn contains_string(v: &Vec<String>, s: &String) -> (r: bool)
    ensures
        r == view_all(v@).contains(s@),
{
    let mut i: usize = 0;
    while i < v.len()
        invariant
            i <= v.len(),
            forall|j: int| 0 <= j < i ==> v[j]@ != s@,
        decreases v.len() - i,
    {
        if v[i] == *s {
            assert(view_all(v@)[i as int] == s@);
            return true;
        }
        i += 1;
    }
    false
}

/// Whether the link target `target` resolves to one of `notes`.
pub fn resolves_in(notes: &Vec<String>, target: &String) -> (r: bool)
    ensures
        r == resolves(view_all(notes@), target@),
{
    if contains_string(notes, target) {
        true
    } else {
        let m = with_md_suffix(target.as_str());
        contains_string(notes, &m)
    }
}

/// Adds `b` to `a`, stopping at the largest `usize`.
fn add_saturating(a: usize, b: usize) -> (r: usize)
    ensures
        r == saturate((a + b) as nat),
{
    if a > usize::MAX - b {
        usize::MAX
    } else {
        a + b
    }
}

/// Puts `x` into the ascending sequence `v`, unless it is there already.
fn insert_sorted(v: &mut Vec<String>, x: String)
    requires
        strictly_sorted(view_all(old(v)@)),
    ensures
        strictly_sorted(view_all(final(v)@)),
        view_all(final(v)@).to_set() =~= view_all(old(v)@).to_set().insert(x@),
{
    let mut i: usize = 0;
    while i < v.len() && str_lt(v[i].as_str(), x.as_str())
        invariant
            i <= v.len(),
            *v == *old(v),
            forall|j: int| 0 <= j < i ==> lex_lt(v[j]@, x@),
        decreases v.len() - i,
    {
        i += 1;
    }
    let ghost before = view_all(v@);
    if i < v.len() && v[i] == x {
        assert(before[i as int] == x@);
        assert(before.to_set() =~= before.to_set().insert(x@));
    } else {
        proof {
            if i < v.len() {
                lemma_lex_total(v[i as int]@, x@);
                assert forall|j: int| i <= j < v.len() implies lex_lt(x@, #[trigger] v[j]@) by {
                    if j > i {
                        assert(lex_lt(before[i as int], before[j]));
                        lemma_lex_transitive(x@, v[i as int]@, v[j]@);
                    }
                }
            }
        }
        let ghost xv = x@;
        v.insert(i, x);
        let ghost after = view_all(v@);
        assert(after =~= before.insert(i as int, xv));
        assert forall|a: int, b: int| 0 <= a < b < after.len() implies lex_lt(
            #[trigger] after[a],
            #[trigger] after[b],
        ) by {
            if a < i && b == i {
                assert(after[a] == before[a]);
            } else if a < i && b > i {
                assert(lex_lt(before[a], before[b - 1]));
            } else if a == i {
                assert(after[b] == before[b - 1]);
            } else if a > i {
                assert(lex_lt(before[a - 1], before[b - 1]));
            } else {
                assert(lex_lt(before[a], before[b]));
            }
        }
        assert forall|s: Seq<char>| after.to_set().contains(s) <==> before.to_set().insert(
            xv,
        ).contains(s) by {
            if after.contains(s) {
                let k = choose|k: int| 0 <= k < after.len() && after[k] == s;
                if k < i {
                    assert(before[k] == s);
                } else if k > i {
                    assert(before[k - 1] == s);
                }
            }
            if before.contains(s) {
                let k = choose|k: int| 0 <= k < before.len() && before[k] == s;
                if k < i {
                    assert(after[k] == s);
                } else {
                    assert(after[k + 1] == s);
                }
            }
            if s == xv {
                assert(after[i as int] == s);
            }
        }
    }
}

/// Taking one more link adds its source to the sources of its target, and to
/// no other name's.
pub proof fn lemma_sources_step(raw: Seq<(Seq<char>, Seq<char>)>, k: int, name: Seq<char>)
    requires
        0 <= k < raw.len(),
    ensures
        raw[k].1 == name ==> sources_of(raw.take(k + 1), name) =~= sources_of(
            raw.take(k),
            name,
        ).insert(raw[k].0),
        raw[k].1 != name ==> sources_of(raw.take(k + 1), name) =~= sources_of(raw.take(k), name),
{
    let a = raw.take(k);
    let b = raw.take(k + 1);
    assert(b =~= a.push(raw[k]));
    assert forall|s: Seq<char>| b.contains((s, name)) <==> (a.contains((s, name)) || raw[k] == (
        s,
        name,
    )) by {
        if a.contains((s, name)) {
            let i = choose|i: int| 0 <= i < a.len() && a[i] == (s, name);
            assert(b[i] == (s, name));
        }
        if raw[k] == (s, name) {
            assert(b[k] == (s, name));
        }
    }
}

/// The targets of `raw` that do not resolve to one of `notes`, each once, in
/// the order in which they first occur.
pub fn collect_concept_names(notes: &Vec<String>, raw: &Vec<(String, String)>) -> (names: Vec<String>)
    ensures
        view_all(names@) == concept_names(view_all(notes@), pair_views(raw@)),
{
    let mut names: Vec<String> = Vec::new();
    let ghost nv = view_all(notes@);
    let ghost rv = pair_views(raw@);
    let mut k: usize = 0;
    assert(rv.take(0) =~= Seq::empty());
    assert(view_all(names@) =~= Seq::empty());
    while k < raw.len()
        invariant
            k <= raw.len(),
            nv == view_all(notes@),
            rv == pair_views(raw@),
            view_all(names@) == concept_names(nv, rv.take(k as int)),
        decreases raw.len() - k,
    {
        proof {
            assert(rv.take(k + 1).drop_last() =~= rv.take(k as int));
            assert(rv.take(k + 1).last() == rv[k as int]);
        }
        let ghost before = view_all(names@);
        if !resolves_in(notes, &raw[k].1) && !contains_string(&names, &raw[k].1) {
            names.push(raw[k].1.clone());
            assert(view_all(names@) =~= before.push(rv[k as int].1));
        }
        k += 1;
    }
    assert(rv.take(raw.len() as int) =~= rv);
    names
}

/// The sources of the links of `raw` to `name`, each once, in ascending order.
pub fn collect_sources(raw: &Vec<(String, String)>, name: &String) -> (srcs: Vec<String>)
    ensures
        strictly_sorted(view_all(srcs@)),
        view_all(srcs@).to_set() =~= sources_of(pair_views(raw@), name@),
{
    let mut srcs: Vec<String> = Vec::new();
    let ghost rv = pair_views(raw@);
    let mut k: usize = 0;
    assert(rv.take(0) =~= Seq::empty());
    assert(view_all(srcs@).to_set() =~= sources_of(rv.take(0), name@));
    while k < raw.len()
        invariant
            k <= raw.len(),
            rv == pair_views(raw@),
            strictly_sorted(view_all(srcs@)),
            view_all(srcs@).to_set() =~= sources_of(rv.take(k as int), name@),
        decreases raw.len() - k,
    {
        proof {
            lemma_sources_step(rv, k as int, name@);
        }
        if raw[k].1 == *name {
            insert_sorted(&mut srcs, raw[k].0.clone());
        }
        k += 1;
    }
    assert(rv.take(raw.len() as int) =~= rv);
    srcs
}

/// The concepts of the raw links `raw`: one for each target that does not
/// resolve to one of `notes`, with the notes that link to it.
pub fn collect_concepts(notes: &Vec<String>, raw: &Vec<(String, String)>) -> (concepts: Vec<
    ConceptInfo,
>)
    ensures
        concepts.len() == concept_names(view_all(notes@), pair_views(raw@)).len(),
        forall|j: int|
            0 <= j < concepts.len() ==> is_concept(
                #[trigger] view_all(concepts@)[j],
                concept_names(view_all(notes@), pair_views(raw@))[j],
                pair_views(raw@),
            ),
{
    let names = collect_concept_names(notes, raw);
    let ghost nm = concept_names(view_all(notes@), pair_views(raw@));
    let mut concepts: Vec<ConceptInfo> = Vec::new();
    let mut c: usize = 0;
    while c < names.len()
        invariant
            c <= names.len(),
            concepts.len() == c,
            view_all(names@) == nm,
            forall|j: int|
                0 <= j < c ==> is_concept(#[trigger] view_all(concepts@)[j], nm[j], pair_views(raw@)),
        decreases names.len() - c,
    {
        let srcs = collect_sources(raw, &names[c]);
        let ghost before = view_all(concepts@);
        let info = ConceptInfo { name: names[c].clone(), count: srcs.len(), notes: srcs };
        assert(nm[c as int] == names[c as int]@);
        assert(is_concept(info@, nm[c as int], pair_views(raw@)));
        concepts.push(info);
        assert(view_all(concepts@) =~= before.push(info@));
        c += 1;
    }
    concepts
}

/// The note that the resolving target `target` stands for.
pub fn resolved_path_of(notes: &Vec<String>, target: &String) -> (r: String)
    ensures
        r@ == resolved_path(view_all(notes@), target@),
{
    if contains_string(notes, target) {
        target.clone()
    } else {
        with_md_suffix(target.as_str())
    }
}

/// The two ends of each of `links` whose target resolves to one of `notes`.
pub fn resolve_ends(notes: &Vec<String>, links: &Vec<(String, String)>) -> (ends: Vec<
    (String, String),
>)
    ensures
        pair_views(ends@) == resolved_ends(view_all(notes@), pair_views(links@)),
{
    let ghost nv = view_all(notes@);
    let ghost lv = pair_views(links@);
    let mut ends: Vec<(String, String)> = Vec::new();
    let mut k: usize = 0;
    assert(lv.take(0) =~= Seq::empty());
    assert(pair_views(ends@) =~= Seq::empty());
    while k < links.len()
        invariant
            k <= links.len(),
            nv == view_all(notes@),
            lv == pair_views(links@),
            pair_views(ends@) == resolved_ends(nv, lv.take(k as int)),
        decreases links.len() - k,
    {
        proof {
            assert(lv.take(k + 1).drop_last() =~= lv.take(k as int));
            assert(lv.take(k + 1).last() == lv[k as int]);
        }
        let ghost before = pair_views(ends@);
        if resolves_in(notes, &links[k].1) {
            let note = resolved_path_of(notes, &links[k].1);
            ends.push((links[k].0.clone(), note));
            assert(pair_views(ends@) =~= before.push(
                (lv[k as int].0, resolved_path(nv, lv[k as int].1)),
            ));
        }
        k += 1;
    }
    assert(lv.take(links.len() as int) =~= lv);
    ends
}

/// How often `p` is an end of one of `links`, up to the largest `usize`.
pub fn count_endpoints(links: &Vec<(String, String)>, p: &String) -> (n: usize)
    ensures
        n == saturate(endpoint_count(pair_views(links@), p@)),
{
    let ghost lv = pair_views(links@);
    let mut n: usize = 0;
    let mut k: usize = 0;
    assert(lv.take(0) =~= Seq::empty());
    while k < links.len()
        invariant
            k <= links.len(),
            lv == pair_views(links@),
            n == saturate(endpoint_count(lv.take(k as int), p@)),
        decreases links.len() - k,
    {
        proof {
            assert(lv.take(k + 1).drop_last() =~= lv.take(k as int));
            assert(lv.take(k + 1).last() == lv[k as int]);
        }
        if links[k].0 == *p {
            n = add_saturating(n, 1);
        }
        if links[k].1 == *p {
            n = add_saturating(n, 1);
        }
        k += 1;
    }
    assert(lv.take(links.len() as int) =~= lv);
    n
}

/// The connections that `p` has through shared concepts, up to the largest
/// `usize`.
pub fn count_concept_bonus(concepts: &Vec<ConceptInfo>, p: &String) -> (n: usize)
    ensures
        n == saturate(concept_bonus(view_all(concepts@), p@)),
{
    let ghost cv = view_all(concepts@);
    let mut n: usize = 0;
    let mut k: usize = 0;
    assert(cv.take(0) =~= Seq::empty());
    while k < concepts.len()
        invariant
            k <= concepts.len(),
            cv == view_all(concepts@),
            n == saturate(concept_bonus(cv.take(k as int), p@)),
        decreases concepts.len() - k,
    {
        proof {
            assert(cv.take(k + 1).drop_last() =~= cv.take(k as int));
            assert(cv.take(k + 1).last() == cv[k as int]);
            assert(cv[k as int].notes == view_all(concepts[k as int].notes@));
        }
        if concepts[k].notes.len() > 1 && contains_string(&concepts[k].notes, p) {
            n = add_saturating(n, concepts[k].notes.len() - 1);
        }
        k += 1;
    }
    assert(cv.take(concepts.len() as int) =~= cv);
    n
}

/// One direct edge for each of `links` whose target resolves to one of
/// `notes`.
pub fn collect_direct_edges(notes: &Vec<String>, links: &Vec<(String, String)>) -> (edges: Vec<
    GraphEdge,
>)
    ensures
        view_all(edges@) == direct_edges(view_all(notes@), pair_views(links@)),
{
    let ghost nv = view_all(notes@);
    let ghost lv = pair_views(links@);
    let mut edges: Vec<GraphEdge> = Vec::new();
    let mut k: usize = 0;
    assert(lv.take(0) =~= Seq::empty());
    assert(view_all(edges@) =~= Seq::empty());
    while k < links.len()
        invariant
            k <= links.len(),
            nv == view_all(notes@),
            lv == pair_views(links@),
            view_all(edges@) == direct_edges(nv, lv.take(k as int)),
        decreases links.len() - k,
    {
        proof {
            assert(lv.take(k + 1).drop_last() =~= lv.take(k as int));
            assert(lv.take(k + 1).last() == lv[k as int]);
        }
        let ghost before = view_all(edges@);
        if resolves_in(notes, &links[k].1) {
            let e = GraphEdge {
                source: links[k].0.clone(),
                target: links[k].1.clone(),
                edge_type: EdgeType::Direct,
                concept: None,
            };
            edges.push(e);
            assert(view_all(edges@) =~= before.push(direct_edge(lv[k as int].0, lv[k as int].1)));
        }
        k += 1;
    }
    assert(lv.take(links.len() as int) =~= lv);
    edges
}

/// Appends to `edges` one concept edge for each unordered pair of the notes of
/// each concept.
pub fn push_concept_edges(edges: &mut Vec<GraphEdge>, concepts: &Vec<ConceptInfo>)
    ensures
        view_all(final(edges)@) == view_all(old(edges)@) + concept_edges(view_all(concepts@)),
{
    let ghost start = view_all(edges@);
    let ghost cv = view_all(concepts@);
    let mut c: usize = 0;
    assert(cv.take(0) =~= Seq::empty());
    assert(view_all(edges@) =~= start + concept_edges(cv.take(0)));
    while c < concepts.len()
        invariant
            c <= concepts.len(),
            cv == view_all(concepts@),
            view_all(edges@) == start + concept_edges(cv.take(c as int)),
        decreases concepts.len() - c,
    {
        let info = &concepts[c];
        let n = info.notes.len();
        let ghost base = view_all(edges@);
        let ghost src = view_all(info.notes@);
        let ghost name = info.name@;
        proof {
            assert(cv.take(c + 1).drop_last() =~= cv.take(c as int));
            assert(cv.take(c + 1).last() == cv[c as int]);
            assert(cv[c as int].notes == src);
            assert(cv[c as int].name == name);
            assert(base =~= base + pair_edges(src, 0, name));
        }
        let mut i: usize = 0;
        while i < n
            invariant
                i <= n,
                n == info.notes.len(),
                src == view_all(info.notes@),
                name == info.name@,
                view_all(edges@) == base + pair_edges(src, i as int, name),
            decreases n - i,
        {
            let ghost base_i = view_all(edges@);
            let mut j: usize = i + 1;
            assert(base_i =~= base_i + pairs_from(src, i as int, i + 1, name));
            while j < n
                invariant
                    i < n,
                    i + 1 <= j <= n,
                    n == info.notes.len(),
                    src == view_all(info.notes@),
                    name == info.name@,
                    view_all(edges@) == base_i + pairs_from(src, i as int, j as int, name),
                decreases n - j,
            {
                let ghost before = view_all(edges@);
                let e = GraphEdge {
                    source: info.notes[i].clone(),
                    target: info.notes[j].clone(),
                    edge_type: EdgeType::Concept,
                    concept: Some(info.name.clone()),
                };
                assert(e@ == concept_edge(src[i as int], src[j as int], name));
                edges.push(e);
                assert(view_all(edges@) =~= before.push(e@));
                assert(pairs_from(src, i as int, j + 1, name) =~= pairs_from(
                    src,
                    i as int,
                    j as int,
                    name,
                ).push(concept_edge(src[i as int], src[j as int], name)));
                j += 1;
            }
            assert(view_all(edges@) =~= base + pair_edges(src, i + 1, name));
            i += 1;
        }
        assert(view_all(edges@) =~= start + concept_edges(cv.take(c + 1)));
        c += 1;
    }
    assert(cv.take(concepts.len() as int) =~= cv);
}

/// The node of the note at `path`.
pub fn make_node(path: &String, connections: usize) -> (node: GraphNode)
    ensures
        node@ == note_node(path@, connections as nat),
{
    proof {
        reveal_strlit("note");
    }
    let node_type = String::from_str("note");
    assert(node_type@ =~= note_kind());
    GraphNode {
        id: path.clone(),
        label: label_of_path(path.as_str()),
        path: path.clone(),
        connections,
        node_type,
    }
}

/// Builds the graph of the whole vault from the paths of its notes, its links
/// and its raw links.
///
/// Every note becomes a node that counts the ends of resolving links that it
/// is, as a source or as the note that a target stands for, and the notes it
/// shares a concept with. Every link whose target resolves
/// becomes a direct edge. Every raw target that does not resolve becomes a
/// concept, and every two notes of a concept are joined by a concept edge.
pub fn build_graph_data(
    note_paths: &Vec<String>,
    links: &Vec<(String, String)>,
    raw_links: &Vec<(String, String)>,
) -> (g: GraphData)
    ensures
        is_global_graph(g@, view_all(note_paths@), pair_views(links@), pair_views(raw_links@)),
{
    let concepts = collect_concepts(note_paths, raw_links);
    let ends = resolve_ends(note_paths, links);
    let ghost nv = view_all(note_paths@);
    let ghost lv = resolved_ends(nv, pair_views(links@));
    let ghost cv = view_all(concepts@);
    let mut nodes: Vec<GraphNode> = Vec::new();
    let mut i: usize = 0;
    while i < note_paths.len()
        invariant
            i <= note_paths.len(),
            nodes.len() == i,
            nv == view_all(note_paths@),
            lv == pair_views(ends@),
            cv == view_all(concepts@),
            forall|k: int|
                0 <= k < i ==> #[trigger] view_all(nodes@)[k] == note_node(
                    nv[k],
                    saturate(endpoint_count(lv, nv[k]) + concept_bonus(cv, nv[k])),
                ),
        decreases note_paths.len() - i,
    {
        let a = count_endpoints(&ends, &note_paths[i]);
        let b = count_concept_bonus(&concepts, &note_paths[i]);
        let node = make_node(&note_paths[i], add_saturating(a, b));
        let ghost before = view_all(nodes@);
        nodes.push(node);
        assert(view_all(nodes@) =~= before.push(node@));
        i += 1;
    }
    let mut edges = collect_direct_edges(note_paths, links);
    push_concept_edges(&mut edges, &concepts);
    GraphData { nodes, edges, concepts }
}

/// A concept name does not resolve.
pub proof fn lemma_names_unresolved(
    notes: Seq<Seq<char>>,
    raw: Seq<(Seq<char>, Seq<char>)>,
    n: Seq<char>,
)
    requires
        concept_names(notes, raw).contains(n),
    ensures
        !resolves(notes, n),
    decreases raw.len(),
{
    if raw.len() > 0 {
        let rest = concept_names(notes, raw.drop_last());
        if rest.contains(n) {
            lemma_names_unresolved(notes, raw.drop_last(), n);
        } else {
            let names = concept_names(notes, raw);
            let k = choose|k: int| 0 <= k < names.len() && names[k] == n;
            if k < rest.len() {
                assert(rest[k] == n);
            }
        }
    }
}

/// No concept name occurs twice.
pub proof fn lemma_names_distinct(notes: Seq<Seq<char>>, raw: Seq<(Seq<char>, Seq<char>)>)
    ensures
        concept_names(notes, raw).no_duplicates(),
    decreases raw.len(),
{
    if raw.len() > 0 {
        lemma_names_distinct(notes, raw.drop_last());
        let rest = concept_names(notes, raw.drop_last());
        let names = concept_names(notes, raw);
        assert forall|i: int, j: int| 0 <= i < names.len() && 0 <= j < names.len() && i != j implies names[i]
            != names[j] by {
            if i < rest.len() && j < rest.len() {
                assert(rest[i] != rest[j]);
            } else if i < rest.len() {
                assert(rest.contains(rest[i]));
            } else if j < rest.len() {
                assert(rest.contains(rest[j]));
            }
        }
    }
}

/// Every raw target that does not resolve is a concept name.
pub proof fn lemma_names_complete(notes: Seq<Seq<char>>, raw: Seq<(Seq<char>, Seq<char>)>, i: int)
    requires
        0 <= i < raw.len(),
        !resolves(notes, raw[i].1),
    ensures
        concept_names(notes, raw).contains(raw[i].1),
    decreases raw.len(),
{
    let rest = concept_names(notes, raw.drop_last());
    let names = concept_names(notes, raw);
    let t = raw.last().1;
    if i < raw.len() - 1 {
        lemma_names_complete(notes, raw.drop_last(), i);
        let k = choose|k: int| 0 <= k < rest.len() && rest[k] == raw[i].1;
        assert(names[k] == raw[i].1);
    } else if rest.contains(t) {
    } else {
        assert(names[rest.len() as int] == t);
    }
}

/// Every link whose target resolves has its direct edge.
pub proof fn lemma_direct_complete(notes: Seq<Seq<char>>, links: Seq<(Seq<char>, Seq<char>)>, i: int)
    requires
        0 <= i < links.len(),
        resolves(notes, links[i].1),
    ensures
        direct_edges(notes, links).contains(direct_edge(links[i].0, links[i].1)),
    decreases links.len(),
{
    let rest = direct_edges(notes, links.drop_last());
    let all = direct_edges(notes, links);
    let e = direct_edge(links[i].0, links[i].1);
    if i < links.len() - 1 {
        lemma_direct_complete(notes, links.drop_last(), i);
        let k = choose|k: int| 0 <= k < rest.len() && rest[k] == e;
        assert(all[k] == e);
    } else {
        assert(all[rest.len() as int] == e);
    }
}

/// Every direct edge is of type `Direct` and leads to a target that resolves.
pub proof fn lemma_direct_sound(
    notes: Seq<Seq<char>>,
    links: Seq<(Seq<char>, Seq<char>)>,
    e: EdgeModel,
)
    requires
        direct_edges(notes, links).contains(e),
    ensures
        e.edge_type == EdgeType::Direct,
        resolves(notes, e.target),
    decreases links.len(),
{
    if links.len() > 0 {
        let rest = direct_edges(notes, links.drop_last());
        let all = direct_edges(notes, links);
        let k = choose|k: int| 0 <= k < all.len() && all[k] == e;
        if k < rest.len() {
            assert(rest[k] == e);
            lemma_direct_sound(notes, links.drop_last(), e);
        }
    }
}

/// The edges between one note and the later ones are of type `Concept`.
pub proof fn lemma_pairs_from_kind(
    src: Seq<Seq<char>>,
    i: int,
    hi: int,
    name: Seq<char>,
    e: EdgeModel,
)
    requires
        pairs_from(src, i, hi, name).contains(e),
    ensures
        e.edge_type == EdgeType::Concept,
    decreases hi - i,
{
    if hi > i + 1 {
        let rest = pairs_from(src, i, hi - 1, name);
        let all = pairs_from(src, i, hi, name);
        let k = choose|k: int| 0 <= k < all.len() && all[k] == e;
        if k < rest.len() {
            assert(rest[k] == e);
            lemma_pairs_from_kind(src, i, hi - 1, name, e);
        }
    }
}

/// The edges among the notes of one concept are of type `Concept`.
pub proof fn lemma_pair_edges_kind(src: Seq<Seq<char>>, n: int, name: Seq<char>, e: EdgeModel)
    requires
        pair_edges(src, n, name).contains(e),
    ensures
        e.edge_type == EdgeType::Concept,
    decreases n,
{
    if n > 0 {
        let rest = pair_edges(src, n - 1, name);
        let tail = pairs_from(src, n - 1, src.len() as int, name);
        let all = pair_edges(src, n, name);
        let k = choose|k: int| 0 <= k < all.len() && all[k] == e;
        if k < rest.len() {
            assert(rest[k] == e);
            lemma_pair_edges_kind(src, n - 1, name, e);
        } else {
            assert(tail[k - rest.len()] == e);
            lemma_pairs_from_kind(src, n - 1, src.len() as int, name, e);
        }
    }
}

/// Every concept edge is of type `Concept`.
pub proof fn lemma_concept_edges_kind(cs: Seq<ConceptModel>, e: EdgeModel)
    requires
        concept_edges(cs).contains(e),
    ensures
        e.edge_type == EdgeType::Concept,
    decreases cs.len(),
{
    if cs.len() > 0 {
        let rest = concept_edges(cs.drop_last());
        let tail = pair_edges(cs.last().notes, cs.last().notes.len() as int, cs.last().name);
        let all = concept_edges(cs);
        let k = choose|k: int| 0 <= k < all.len() && all[k] == e;
        if k < rest.len() {
            assert(rest[k] == e);
            lemma_concept_edges_kind(cs.drop_last(), e);
        } else {
            assert(tail[k - rest.len()] == e);
            lemma_pair_edges_kind(cs.last().notes, cs.last().notes.len() as int, cs.last().name, e);
        }
    }
}

/// A note path whose name without `.md` is `t` makes `t` resolve.
pub proof fn lemma_stripped_path_resolves(notes: Seq<Seq<char>>, p: Seq<char>, t: Seq<char>)
    requires
        notes.contains(p),
        strip_md(p) == t,
    ensures
        resolves(notes, t),
{
    if p != t {
        assert(with_md(t) =~= p);
    }
}

/// In the graph of the whole vault a raw link's target is a link target or a
/// concept, never both. Where the target resolves, and the raw link is among
/// the links, its direct edge is in the graph and no concept has the target's
/// name. Where it does not resolve, exactly one concept has its name and no
/// direct edge leads to it.
pub proof fn lemma_concept_partition(
    g: GraphModel,
    notes: Seq<Seq<char>>,
    links: Seq<(Seq<char>, Seq<char>)>,
    raw: Seq<(Seq<char>, Seq<char>)>,
    i: int,
)
    requires
        is_global_graph(g, notes, links, raw),
        0 <= i < raw.len(),
    ensures
        resolves(notes, raw[i].1) && links.contains(raw[i]) ==> g.edges.contains(
            direct_edge(raw[i].0, raw[i].1),
        ),
        resolves(notes, raw[i].1) ==> forall|j: int|
            0 <= j < g.concepts.len() ==> (#[trigger] g.concepts[j]).name != raw[i].1,
        !resolves(notes, raw[i].1) ==> exists|j: int|
            0 <= j < g.concepts.len() && (#[trigger] g.concepts[j]).name == raw[i].1,
        forall|j: int, k: int|
            0 <= j < g.concepts.len() && 0 <= k < g.concepts.len() && (#[trigger] g.concepts[j]).name
                == (#[trigger] g.concepts[k]).name ==> j == k,
        !resolves(notes, raw[i].1) ==> forall|k: int|
            0 <= k < g.edges.len() && (#[trigger] g.edges[k]).edge_type == EdgeType::Direct
                ==> g.edges[k].target != raw[i].1,
{
    let names = concept_names(notes, raw);
    let t = raw[i].1;
    let direct = direct_edges(notes, links);
    let shared = concept_edges(g.concepts);
    lemma_names_distinct(notes, raw);
    assert forall|j: int, k: int|
        0 <= j < g.concepts.len() && 0 <= k < g.concepts.len() && (#[trigger] g.concepts[j]).name == (
        #[trigger] g.concepts[k]).name implies j == k by {
        assert(is_concept(g.concepts[j], names[j], raw));
        assert(is_concept(g.concepts[k], names[k], raw));
    }
    if resolves(notes, t) {
        if links.contains(raw[i]) {
            let m = choose|m: int| 0 <= m < links.len() && links[m] == raw[i];
            lemma_direct_complete(notes, links, m);
            let e = direct_edge(raw[i].0, t);
            let k = choose|k: int| 0 <= k < direct.len() && direct[k] == e;
            assert(g.edges[k] == e);
        }
        assert forall|j: int| 0 <= j < g.concepts.len() implies (#[trigger] g.concepts[j]).name
            != t by {
            assert(is_concept(g.concepts[j], names[j], raw));
            if names[j] == t {
                assert(names.contains(t));
                lemma_names_unresolved(notes, raw, t);
            }
        }
    } else {
        lemma_names_complete(notes, raw, i);
        let j = choose|j: int| 0 <= j < names.len() && names[j] == t;
        assert(is_concept(g.concepts[j], names[j], raw));
        assert forall|k: int|
            0 <= k < g.edges.len() && (#[trigger] g.edges[k]).edge_type
                == EdgeType::Direct implies g.edges[k].target != t by {
            if k < direct.len() {
                assert(direct[k] == g.edges[k]);
                assert(direct.contains(g.edges[k]));
                lemma_direct_sound(notes, links, g.edges[k]);
            } else {
                assert(shared[k - direct.len()] == g.edges[k]);
                assert(shared.contains(g.edges[k]));
                lemma_concept_edges_kind(g.concepts, g.edges[k]);
            }
        }
    }
}

/// How many of `raw` lead to `name`.
pub open spec fn count_target(raw: Seq<(Seq<char>, Seq<char>)>, name: Seq<char>) -> nat
    decreases raw.len(),
{
    if raw.len() == 0 {
        0
    } else {
        count_target(raw.drop_last(), name) + (if raw.last().1 == name {
            1nat
        } else {
            0nat
        })
    }
}

/// How many of `raw` lead to one of `names`, counted name by name.
pub open spec fn count_targets(names: Seq<Seq<char>>, raw: Seq<(Seq<char>, Seq<char>)>) -> nat
    decreases names.len(),
{
    if names.len() == 0 {
        0
    } else {
        count_targets(names.drop_last(), raw) + count_target(raw, names.last())
    }
}

/// The notes of all concepts, counted concept by concept.
pub open spec fn total_notes(cs: Seq<ConceptModel>) -> nat
    decreases cs.len(),
{
    if cs.len() == 0 {
        0
    } else {
        total_notes(cs.drop_last()) + cs.last().notes.len()
    }
}

/// No more links resolve than there are links.
pub proof fn lemma_resolved_ends_bound(notes: Seq<Seq<char>>, links: Seq<(Seq<char>, Seq<char>)>)
    ensures
        resolved_ends(notes, links).len() <= links.len(),
    decreases links.len(),
{
    if links.len() > 0 {
        lemma_resolved_ends_bound(notes, links.drop_last());
    }
}

/// A note is an end of at most two ends of each link.
pub proof fn lemma_endpoint_bound(links: Seq<(Seq<char>, Seq<char>)>, p: Seq<char>)
    ensures
        endpoint_count(links, p) <= 2 * links.len(),
    decreases links.len(),
{
    if links.len() > 0 {
        lemma_endpoint_bound(links.drop_last(), p);
    }
}

/// The sources of the links to a name are no more than these links.
pub proof fn lemma_sources_bound(raw: Seq<(Seq<char>, Seq<char>)>, name: Seq<char>)
    ensures
        sources_of(raw, name).finite(),
        sources_of(raw, name).len() <= count_target(raw, name),
    decreases raw.len(),
{
    broadcast use vstd::set::group_set_axioms;

    if raw.len() == 0 {
        assert(sources_of(raw, name) =~= Set::empty());
    } else {
        let k = raw.len() - 1;
        lemma_sources_bound(raw.drop_last(), name);
        lemma_sources_step(raw, k, name);
        assert(raw.take(k + 1) =~= raw);
        assert(raw.take(k) =~= raw.drop_last());
    }
}

/// A concept has no more notes than links lead to its name.
pub proof fn lemma_concept_size(c: ConceptModel, name: Seq<char>, raw: Seq<(Seq<char>, Seq<char>)>)
    requires
        is_concept(c, name, raw),
    ensures
        c.notes.len() <= count_target(raw, name),
{
    assert forall|i: int, j: int| 0 <= i < c.notes.len() && 0 <= j < c.notes.len() && i != j implies c.notes[i]
        != c.notes[j] by {
        if i < j {
            assert(lex_lt(c.notes[i], c.notes[j]));
        } else {
            assert(lex_lt(c.notes[j], c.notes[i]));
        }
        lemma_lex_irreflexive(c.notes[i]);
    }
    c.notes.unique_seq_to_set();
    lemma_sources_bound(raw, name);
}

/// A target that is not among `names` adds to none of their counts.
pub proof fn lemma_count_targets_step(
    names: Seq<Seq<char>>,
    raw: Seq<(Seq<char>, Seq<char>)>,
)
    requires
        raw.len() > 0,
        names.no_duplicates(),
    ensures
        count_targets(names, raw) <= count_targets(names, raw.drop_last()) + 1,
        !names.contains(raw.last().1) ==> count_targets(names, raw) == count_targets(
            names,
            raw.drop_last(),
        ),
    decreases names.len(),
{
    if names.len() > 0 {
        let rest = names.drop_last();
        assert forall|i: int, j: int| 0 <= i < rest.len() && 0 <= j < rest.len() && i != j implies rest[i]
            != rest[j] by {
            assert(rest[i] == names[i] && rest[j] == names[j]);
        }
        lemma_count_targets_step(rest, raw);
        if names.last() == raw.last().1 {
            if rest.contains(raw.last().1) {
                let i = choose|i: int| 0 <= i < rest.len() && rest[i] == raw.last().1;
                assert(names[i] == names[names.len() - 1]);
            }
        } else {
            if rest.contains(raw.last().1) {
                let i = choose|i: int| 0 <= i < rest.len() && rest[i] == raw.last().1;
                assert(names[i] == raw.last().1);
            }
            if names.contains(raw.last().1) {
                let i = choose|i: int| 0 <= i < names.len() && names[i] == raw.last().1;
                assert(rest[i] == raw.last().1);
            }
        }
    }
}

/// The links to names that differ are no more than all links.
pub proof fn lemma_count_targets_bound(names: Seq<Seq<char>>, raw: Seq<(Seq<char>, Seq<char>)>)
    requires
        names.no_duplicates(),
    ensures
        count_targets(names, raw) <= raw.len(),
    decreases raw.len(),
{
    if raw.len() == 0 {
        assert(raw =~= Seq::empty());
        lemma_count_targets_none(names);
    } else {
        lemma_count_targets_bound(names, raw.drop_last());
        lemma_count_targets_step(names, raw);
    }
}

/// Without links nothing is counted.
pub proof fn lemma_count_targets_none(names: Seq<Seq<char>>)
    ensures
        count_targets(names, Seq::empty()) == 0,
    decreases names.len(),
{
    if names.len() > 0 {
        lemma_count_targets_none(names.drop_last());
    }
}

/// The concepts of the raw links have no more notes than there are links.
pub proof fn lemma_total_notes_bound(
    cs: Seq<ConceptModel>,
    names: Seq<Seq<char>>,
    raw: Seq<(Seq<char>, Seq<char>)>,
)
    requires
        cs.len() == names.len(),
        forall|j: int| 0 <= j < cs.len() ==> is_concept(#[trigger] cs[j], names[j], raw),
    ensures
        total_notes(cs) <= count_targets(names, raw),
    decreases cs.len(),
{
    if cs.len() > 0 {
        assert forall|j: int| 0 <= j < cs.drop_last().len() implies is_concept(
            #[trigger] cs.drop_last()[j],
            names.drop_last()[j],
            raw,
        ) by {
            assert(is_concept(cs[j], names[j], raw));
        }
        lemma_total_notes_bound(cs.drop_last(), names.drop_last(), raw);
        assert(is_concept(cs[cs.len() - 1], names[cs.len() - 1], raw));
        lemma_concept_size(cs.last(), names.last(), raw);
    }
}

/// What a note gains through shared concepts is no more than the notes of all
/// concepts.
pub proof fn lemma_bonus_bound(cs: Seq<ConceptModel>, p: Seq<char>)
    ensures
        concept_bonus(cs, p) <= total_notes(cs),
    decreases cs.len(),
{
    if cs.len() > 0 {
        lemma_bonus_bound(cs.drop_last(), p);
    }
}

/// The connections of a node are counted in full wherever twice the number of
/// links and the number of raw links together fit a `usize`: every node of the
/// graph of the whole vault then holds the number of ends of resolving links
/// that its note is, and of the notes that it shares a concept with.
pub proof fn lemma_connections_exact(
    g: GraphModel,
    notes: Seq<Seq<char>>,
    links: Seq<(Seq<char>, Seq<char>)>,
    raw: Seq<(Seq<char>, Seq<char>)>,
    i: int,
)
    requires
        is_global_graph(g, notes, links, raw),
        0 <= i < notes.len(),
        2 * links.len() + raw.len() <= usize::MAX,
    ensures
        g.nodes[i].connections == endpoint_count(resolved_ends(notes, links), notes[i])
            + concept_bonus(g.concepts, notes[i]),
{
    let names = concept_names(notes, raw);
    lemma_resolved_ends_bound(notes, links);
    lemma_endpoint_bound(resolved_ends(notes, links), notes[i]);
    lemma_bonus_bound(g.concepts, notes[i]);
    lemma_total_notes_bound(g.concepts, names, raw);
    lemma_names_distinct(notes, raw);
    lemma_count_targets_bound(names, raw);
    assert(g.nodes[i] == note_node(
        notes[i],
        saturate(
            endpoint_count(resolved_ends(notes, links), notes[i]) + concept_bonus(
                g.concepts,
                notes[i],
            ),
        ),
    ));
}

} // verus!

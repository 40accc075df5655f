//! The graph around one note, built step by step.
//!
//! The walk decides which note to look at next and what the answers of the
//! store add to the graph; the caller asks the store for the links of each
//! note that the walk names.

use std::collections::VecDeque;
use vstd::prelude::*;
use vstd::string::*;
use crate::graph::{
    collect_concepts, concept_bonus, concept_edges, concept_names, contains_string,
    count_concept_bonus, direct_edge, is_concept, make_node, note_node, pair_views,
    push_concept_edges, resolved_path, resolved_path_of, resolves, resolves_in, saturate, ConceptInfo, ConceptModel, EdgeModel,
    GraphData, GraphEdge, GraphNode, EdgeType,
};
use crate::records::{link_paths, LinkInfo};
use crate::text::view_all;

verus! {

/// The state of a walk around a center note.
pub struct LocalGraphWalk {
    /// How many links away from the center the walk goes.
    pub depth: usize,
    /// The paths of the notes that exist.
    pub notes: Vec<String>,
    /// The concepts of the whole vault.
    pub concepts: Vec<ConceptInfo>,
    /// The notes looked at so far.
    pub visited: Vec<String>,
    /// The notes still to look at, each with its distance from the center;
    /// the first one is taken first.
    pub worklist: VecDeque<(String, usize)>,
    /// The nodes found so far.
    pub nodes: Vec<GraphNode>,
    /// The direct edges found so far.
    pub edges: Vec<GraphEdge>,
}

/// The views of a worklist.
pub open spec fn work_views(s: Seq<(String, usize)>) -> Seq<(Seq<char>, nat)> {
    Seq::new(s.len(), |i: int| (s[i].0@, s[i].1 as nat))
}

/// An entry can be taken: it is within `depth` and its note is not visited.
pub open spec fn takeable(entry: (Seq<char>, nat), visited: Seq<Seq<char>>, depth: nat) -> bool {
    entry.1 <= depth && !visited.contains(entry.0)
}

/// The index of the entry that the walk takes next: the first one that can be
/// taken; -1 where there is none.
pub open spec fn next_index(work: Seq<(Seq<char>, nat)>, visited: Seq<Seq<char>>, depth: nat) -> int
    decreases work.len(),
{
    if work.len() == 0 {
        -1
    } else if takeable(work[0], visited, depth) {
        0
    } else {
        let r = next_index(work.skip(1), visited, depth);
        if r < 0 {
            -1
        } else {
            r + 1
        }
    }
}

/// An index into what stands behind the first `k` entries, as an index into
/// the whole.
pub open spec fn shifted(r: int, k: int) -> int {
    if r < 0 {
        -1
    } else {
        r + k
    }
}

/// One direct edge from each backlink's source to `path`.
pub open spec fn backlink_edges(sources: Seq<Seq<char>>, path: Seq<char>) -> Seq<EdgeModel> {
    Seq::new(sources.len(), |i: int| direct_edge(sources[i], path))
}

/// Each of `paths` at distance `d + 1`.
pub open spec fn work_at(paths: Seq<Seq<char>>, d: nat) -> Seq<(Seq<char>, nat)> {
    Seq::new(paths.len(), |i: int| (paths[i], d + 1))
}

/// The targets among `targets` that resolve, in order.
pub open spec fn resolving(notes: Seq<Seq<char>>, targets: Seq<Seq<char>>) -> Seq<Seq<char>>
    decreases targets.len(),
{
    if targets.len() == 0 {
        Seq::empty()
    } else {
        let rest = resolving(notes, targets.drop_last());
        if resolves(notes, targets.last()) {
            rest.push(targets.last())
        } else {
            rest
        }
    }
}

/// One direct edge from `path` to each of `targets`.
pub open spec fn outgoing_edges(path: Seq<char>, targets: Seq<Seq<char>>) -> Seq<EdgeModel> {
    Seq::new(targets.len(), |i: int| direct_edge(path, targets[i]))
}

/// The notes that each of `targets` stands for.
pub open spec fn resolved_all(notes: Seq<Seq<char>>, targets: Seq<Seq<char>>) -> Seq<Seq<char>> {
    Seq::new(targets.len(), |i: int| resolved_path(notes, targets[i]))
}

/// The elements of `s` other than `x`, in order.
pub open spec fn without(s: Seq<Seq<char>>, x: Seq<char>) -> Seq<Seq<char>>
    decreases s.len(),
{
    if s.len() == 0 {
        Seq::empty()
    } else if s.last() == x {
        without(s.drop_last(), x)
    } else {
        without(s.drop_last(), x).push(s.last())
    }
}

/// The notes that share a concept with `path`, concept by concept.
pub open spec fn concept_neighbours(cs: Seq<ConceptModel>, path: Seq<char>) -> Seq<Seq<char>>
    decreases cs.len(),
{
    if cs.len() == 0 {
        Seq::empty()
    } else {
        concept_neighbours(cs.drop_last(), path) + (if cs.last().notes.len() > 1
            && cs.last().notes.contains(path) {
            without(cs.last().notes, path)
        } else {
            Seq::empty()
        })
    }
}

/// The elements of `s` that are among `visited`, in order.
pub open spec fn keep_visited(s: Seq<Seq<char>>, visited: Seq<Seq<char>>) -> Seq<Seq<char>>
    decreases s.len(),
{
    if s.len() == 0 {
        Seq::empty()
    } else if visited.contains(s.last()) {
        keep_visited(s.drop_last(), visited).push(s.last())
    } else {
        keep_visited(s.drop_last(), visited)
    }
}

/// Each concept with its notes restricted to those visited.
pub open spec fn restricted(cs: Seq<ConceptModel>, visited: Seq<Seq<char>>) -> Seq<ConceptModel> {
    Seq::new(
        cs.len(),
        |i: int|
            ConceptModel {
                name: cs[i].name,
                count: keep_visited(cs[i].notes, visited).len(),
                notes: keep_visited(cs[i].notes, visited),
            },
    )
}

/// The concepts with at least one visited note, in order.
pub open spec fn touched(cs: Seq<ConceptModel>, visited: Seq<Seq<char>>) -> Seq<ConceptModel>
    decreases cs.len(),
{
    if cs.len() == 0 {
        Seq::empty()
    } else if keep_visited(cs.last().notes, visited).len() > 0 {
        touched(cs.drop_last(), visited).push(cs.last())
    } else {
        touched(cs.drop_last(), visited)
    }
}

/// Two edges with the same source, target and type.
pub open spec fn same_key(a: EdgeModel, b: EdgeModel) -> bool {
    a.source == b.source && a.target == b.target && a.edge_type == b.edge_type
}

/// Some edge of `es` has the key of `e`.
pub open spec fn has_key(es: Seq<EdgeModel>, e: EdgeModel) -> bool {
    exists|i: int| 0 <= i < es.len() && same_key(#[trigger] es[i], e)
}

/// The edges of `es` without those whose key an earlier edge has.
pub open spec fn dedup_edges(es: Seq<EdgeModel>) -> Seq<EdgeModel>
    decreases es.len(),
{
    if es.len() == 0 {
        Seq::empty()
    } else {
        let rest = dedup_edges(es.drop_last());
        if has_key(rest, es.last()) {
            rest
        } else {
            rest.push(es.last())
        }
    }
}

/// Copies a list of strings.
pub fn clone_strings(v: &Vec<String>) -> (r: Vec<String>)
    ensures
        view_all(r@) == view_all(v@),
{
    let mut r: Vec<String> = Vec::new();
    let mut i: usize = 0;
    while i < v.len()
        invariant
            i <= v.len(),
            r.len() == i,
            forall|j: int| 0 <= j < i ==> r[j]@ == v[j]@,
        decreases v.len() - i,
    {
        r.push(v[i].clone());
        i += 1;
    }
    assert(view_all(r@) =~= view_all(v@));
    r
}

/// The elements of `s` that are among `visited`.
pub fn keep_visited_of(s: &Vec<String>, visited: &Vec<String>) -> (r: Vec<String>)
    ensures
        view_all(r@) == keep_visited(view_all(s@), view_all(visited@)),
{
    let ghost sv = view_all(s@);
    let mut r: Vec<String> = Vec::new();
    let mut i: usize = 0;
    assert(sv.take(0) =~= Seq::empty());
    assert(view_all(r@) =~= Seq::empty());
    while i < s.len()
        invariant
            i <= s.len(),
            sv == view_all(s@),
            view_all(r@) == keep_visited(sv.take(i as int), view_all(visited@)),
        decreases s.len() - i,
    {
        proof {
            assert(sv.take(i + 1).drop_last() =~= sv.take(i as int));
            assert(sv.take(i + 1).last() == sv[i as int]);
        }
        let ghost before = view_all(r@);
        if contains_string(visited, &s[i]) {
            r.push(s[i].clone());
            assert(view_all(r@) =~= before.push(sv[i as int]));
        }
        i += 1;
    }
    assert(sv.take(s.len() as int) =~= sv);
    r
}

/// The elements of `s` other than `x`.
pub fn without_of(s: &Vec<String>, x: &String) -> (r: Vec<String>)
    ensures
        view_all(r@) == without(view_all(s@), x@),
{
    let ghost sv = view_all(s@);
    let mut r: Vec<String> = Vec::new();
    let mut i: usize = 0;
    assert(sv.take(0) =~= Seq::empty());
    assert(view_all(r@) =~= Seq::empty());
    while i < s.len()
        invariant
            i <= s.len(),
            sv == view_all(s@),
            view_all(r@) == without(sv.take(i as int), x@),
        decreases s.len() - i,
    {
        proof {
            assert(sv.take(i + 1).drop_last() =~= sv.take(i as int));
            assert(sv.take(i + 1).last() == sv[i as int]);
        }
        let ghost before = view_all(r@);
        if s[i] != *x {
            r.push(s[i].clone());
            assert(view_all(r@) =~= before.push(sv[i as int]));
        }
        i += 1;
    }
    assert(sv.take(s.len() as int) =~= sv);
    r
}

/// The notes that share a concept with `path`.
pub fn concept_neighbours_of(concepts: &Vec<ConceptInfo>, path: &String) -> (r: Vec<String>)
    ensures
        view_all(r@) == concept_neighbours(view_all(concepts@), path@),
{
    let ghost cv = view_all(concepts@);
    let mut r: Vec<String> = Vec::new();
    let mut i: usize = 0;
    assert(cv.take(0) =~= Seq::empty());
    assert(view_all(r@) =~= Seq::empty());
    while i < concepts.len()
        invariant
            i <= concepts.len(),
            cv == view_all(concepts@),
            view_all(r@) == concept_neighbours(cv.take(i as int), path@),
        decreases concepts.len() - i,
    {
        proof {
            assert(cv.take(i + 1).drop_last() =~= cv.take(i as int));
            assert(cv.take(i + 1).last() == cv[i as int]);
            assert(cv[i as int].notes == view_all(concepts[i as int].notes@));
        }
        let ghost before = view_all(r@);
        if concepts[i].notes.len() > 1 && contains_string(&concepts[i].notes, path) {
            let mut others = without_of(&concepts[i].notes, path);
            let ghost ov = view_all(others@);
            r.append(&mut others);
            assert(view_all(r@) =~= before + ov);
        } else {
            assert(view_all(r@) =~= before + Seq::<Seq<char>>::empty());
        }
        i += 1;
    }
    assert(cv.take(concepts.len() as int) =~= cv);
    r
}

/// The targets among the paths of `links` that resolve to one of `notes`.
pub fn resolving_of(notes: &Vec<String>, links: &Vec<LinkInfo>) -> (r: Vec<String>)
    ensures
        view_all(r@) == resolving(view_all(notes@), link_paths(links@)),
{
    let ghost lv = link_paths(links@);
    let mut r: Vec<String> = Vec::new();
    let mut i: usize = 0;
    assert(lv.take(0) =~= Seq::empty());
    assert(view_all(r@) =~= Seq::empty());
    while i < links.len()
        invariant
            i <= links.len(),
            lv == link_paths(links@),
            view_all(r@) == resolving(view_all(notes@), lv.take(i as int)),
        decreases links.len() - i,
    {
        proof {
            assert(lv.take(i + 1).drop_last() =~= lv.take(i as int));
            assert(lv.take(i + 1).last() == lv[i as int]);
        }
        let ghost before = view_all(r@);
        if resolves_in(notes, &links[i].path) {
            r.push(links[i].path.clone());
            assert(view_all(r@) =~= before.push(lv[i as int]));
        }
        i += 1;
    }
    assert(lv.take(links.len() as int) =~= lv);
    r
}

/// Whether one of `edges` has the source, target and type of `e`.
pub fn has_edge_key(edges: &Vec<GraphEdge>, e: &GraphEdge) -> (r: bool)
    ensures
        r == has_key(view_all(edges@), e@),
{
    let mut i: usize = 0;
    while i < edges.len()
        invariant
            i <= edges.len(),
            forall|j: int| 0 <= j < i ==> !same_key(#[trigger] view_all(edges@)[j], e@),
        decreases edges.len() - i,
    {
        if edges[i].source == e.source && edges[i].target == e.target && edges[i].edge_type
            == e.edge_type {
            assert(same_key(view_all(edges@)[i as int], e@));
            return true;
        }
        assert(!same_key(view_all(edges@)[i as int], e@));
        i += 1;
    }
    false
}

impl LocalGraphWalk {
    /// Starts a walk at `center` that goes `depth` links far, over the notes
    /// `note_paths` and the raw links `raw_links`.
    pub fn new(
        center: &str,
        depth: usize,
        note_paths: Vec<String>,
        raw_links: &Vec<(String, String)>,
    ) -> (walk: Self)
        ensures
            walk.depth == depth,
            walk.notes == note_paths,
            work_views(walk.worklist@) == seq![(center@, 0nat)],
            walk.visited@.len() == 0,
            walk.nodes@.len() == 0,
            walk.edges@.len() == 0,
            walk.concepts.len() == concept_names(view_all(note_paths@), pair_views(raw_links@)).len(),
            forall|j: int|
                0 <= j < walk.concepts.len() ==> is_concept(
                    #[trigger] view_all(walk.concepts@)[j],
                    concept_names(view_all(note_paths@), pair_views(raw_links@))[j],
                    pair_views(raw_links@),
                ),
    {
        let concepts = collect_concepts(&note_paths, raw_links);
        let mut worklist: VecDeque<(String, usize)> = VecDeque::new();
        worklist.push_back((String::from_str(center), 0));
        assert(work_views(worklist@) =~= seq![(center@, 0nat)]);
        LocalGraphWalk {
            depth,
            notes: note_paths,
            concepts,
            visited: Vec::new(),
            worklist,
            nodes: Vec::new(),
            edges: Vec::new(),
        }
    }

    /// Takes the next note to look at off the worklist, with its distance from
    /// the center, and marks it visited: the first entry that is within the
    /// depth and not visited. The entries before it are dropped, and what
    /// stood behind it stays. `None` ends the walk.
    pub fn next(&mut self) -> (r: Option<(String, usize)>)
        ensures
            final(self).depth == old(self).depth,
            final(self).notes == old(self).notes,
            final(self).concepts == old(self).concepts,
            final(self).nodes == old(self).nodes,
            final(self).edges == old(self).edges,
            ({
                let work = work_views(old(self).worklist@);
                let seen = view_all(old(self).visited@);
                let i = next_index(work, seen, old(self).depth as nat);
                if i < 0 {
                    &&& r is None
                    &&& final(self).worklist@.len() == 0
                    &&& view_all(final(self).visited@) == seen
                } else {
                    &&& r is Some
                    &&& r.unwrap().0@ == work[i].0
                    &&& r.unwrap().1 as nat == work[i].1
                    &&& work_views(final(self).worklist@) == work.skip(i + 1)
                    &&& view_all(final(self).visited@) == seen.push(work[i].0)
                }
            }),
    {
        let ghost work = work_views(self.worklist@);
        let ghost seen = view_all(self.visited@);
        let ghost k: int = 0;
        assert(work.skip(0) =~= work);
        loop
            invariant
                self.depth == old(self).depth,
                self.notes == old(self).notes,
                self.concepts == old(self).concepts,
                self.nodes == old(self).nodes,
                self.edges == old(self).edges,
                self.visited == old(self).visited,
                work == work_views(old(self).worklist@),
                seen == view_all(old(self).visited@),
                0 <= k <= work.len(),
                work_views(self.worklist@) == work.skip(k),
                next_index(work, seen, self.depth as nat) == shifted(
                    next_index(work.skip(k), seen, self.depth as nat),
                    k,
                ),
            decreases self.worklist.len(),
        {
            let ghost cur = work_views(self.worklist@);
            match self.worklist.pop_front() {
                None => {
                    return None;
                },
                Some(entry) => {
                    assert(cur[0] == (entry.0@, entry.1 as nat));
                    assert(work_views(self.worklist@) =~= cur.skip(1));
                    assert(cur.skip(1) =~= work.skip(k + 1));
                    assert(cur[0] == work[k]);
                    if entry.1 <= self.depth && !contains_string(&self.visited, &entry.0) {
                        let ghost before = view_all(self.visited@);
                        self.visited.push(entry.0.clone());
                        assert(view_all(self.visited@) =~= before.push(entry.0@));
                        return Some(entry);
                    }
                    proof {
                        k = k + 1;
                    }
                },
            }
        }
    }

    /// Adds what the store reported of `path`, a note at distance `d` that
    /// `next` handed out: its node, a direct edge from each backlink and to
    /// each outgoing target that resolves, and, while `d` is below the depth,
    /// the notes to look at from here: the backlinks' sources, the notes that
    /// the resolving targets stand for, and the notes that share a concept
    /// with `path`.
    pub fn expand(&mut self, path: &String, d: usize, backlinks: &Vec<LinkInfo>, outgoing: &Vec<LinkInfo>)
        ensures
            final(self).depth == old(self).depth,
            final(self).notes == old(self).notes,
            final(self).concepts == old(self).concepts,
            final(self).visited == old(self).visited,
            view_all(final(self).nodes@) == view_all(old(self).nodes@).push(
                note_node(
                    path@,
                    saturate(
                        (backlinks.len() + outgoing.len() + concept_bonus(
                            view_all(old(self).concepts@),
                            path@,
                        )) as nat,
                    ),
                ),
            ),
            view_all(final(self).edges@) == view_all(old(self).edges@) + backlink_edges(
                link_paths(backlinks@),
                path@,
            ) + outgoing_edges(path@, resolving(view_all(old(self).notes@), link_paths(outgoing@))),
            d >= old(self).depth ==> work_views(final(self).worklist@) == work_views(
                old(self).worklist@,
            ),
            d < old(self).depth ==> work_views(final(self).worklist@) == work_views(
                old(self).worklist@,
            ) + work_at(link_paths(backlinks@), d as nat) + work_at(
                resolved_all(
                    view_all(old(self).notes@),
                    resolving(view_all(old(self).notes@), link_paths(outgoing@)),
                ),
                d as nat,
            ) + work_at(concept_neighbours(view_all(old(self).concepts@), path@), d as nat),
    {
        let bonus = count_concept_bonus(&self.concepts, path);
        let ends = if backlinks.len() > usize::MAX - outgoing.len() {
            usize::MAX
        } else {
            backlinks.len() + outgoing.len()
        };
        let total = if ends > usize::MAX - bonus {
            usize::MAX
        } else {
            ends + bonus
        };
        let node = make_node(path, total);
        let ghost nodes0 = view_all(self.nodes@);
        self.nodes.push(node);
        assert(view_all(self.nodes@) =~= nodes0.push(node@));

        let ghost edges0 = view_all(self.edges@);
        let ghost work0 = work_views(self.worklist@);
        let ghost bl = link_paths(backlinks@);
        let targets = resolving_of(&self.notes, outgoing);
        let ghost tv = view_all(targets@);
        let ghost nv = view_all(self.notes@);
        let wide = d < self.depth;

        let mut i: usize = 0;
        while i < backlinks.len()
            invariant
                i <= backlinks.len(),
                self.depth == old(self).depth,
                self.notes == old(self).notes,
                self.concepts == old(self).concepts,
                self.visited == old(self).visited,
                view_all(self.nodes@) == nodes0.push(node@),
                wide == (d < self.depth),
                bl == link_paths(backlinks@),
                view_all(self.edges@) == edges0 + backlink_edges(bl.take(i as int), path@),
                !wide ==> work_views(self.worklist@) == work0,
                wide ==> work_views(self.worklist@) == work0 + work_at(bl.take(i as int), d as nat),
            decreases backlinks.len() - i,
        {
            let ghost e0 = view_all(self.edges@);
            let ghost w0 = work_views(self.worklist@);
            let e = GraphEdge {
                source: backlinks[i].path.clone(),
                target: path.clone(),
                edge_type: EdgeType::Direct,
                concept: None,
            };
            self.edges.push(e);
            assert(view_all(self.edges@) =~= e0.push(direct_edge(bl[i as int], path@)));
            assert(backlink_edges(bl.take(i + 1), path@) =~= backlink_edges(
                bl.take(i as int),
                path@,
            ).push(direct_edge(bl[i as int], path@)));
            if wide {
                self.worklist.push_back((backlinks[i].path.clone(), d + 1));
                assert(work_views(self.worklist@) =~= w0.push((bl[i as int], (d + 1) as nat)));
                assert(work_at(bl.take(i + 1), d as nat) =~= work_at(bl.take(i as int), d as nat).push(
                    (bl[i as int], (d + 1) as nat),
                ));
            }
            i += 1;
        }
        assert(bl.take(backlinks.len() as int) =~= bl);

        let ghost edges1 = view_all(self.edges@);
        let ghost work1 = work_views(self.worklist@);
        let mut k: usize = 0;
        while k < targets.len()
            invariant
                k <= targets.len(),
                self.depth == old(self).depth,
                self.notes == old(self).notes,
                self.concepts == old(self).concepts,
                self.visited == old(self).visited,
                view_all(self.nodes@) == nodes0.push(node@),
                wide == (d < self.depth),
                tv == view_all(targets@),
                nv == view_all(self.notes@),
                view_all(self.edges@) == edges1 + outgoing_edges(path@, tv.take(k as int)),
                !wide ==> work_views(self.worklist@) == work1,
                wide ==> work_views(self.worklist@) == work1 + work_at(
                    resolved_all(nv, tv.take(k as int)),
                    d as nat,
                ),
            decreases targets.len() - k,
        {
            let ghost e0 = view_all(self.edges@);
            let ghost w0 = work_views(self.worklist@);
            let e = GraphEdge {
                source: path.clone(),
                target: targets[k].clone(),
                edge_type: EdgeType::Direct,
                concept: None,
            };
            self.edges.push(e);
            assert(view_all(self.edges@) =~= e0.push(direct_edge(path@, tv[k as int])));
            assert(outgoing_edges(path@, tv.take(k + 1)) =~= outgoing_edges(
                path@,
                tv.take(k as int),
            ).push(direct_edge(path@, tv[k as int])));
            if wide {
                let p = resolved_path_of(&self.notes, &targets[k]);
                self.worklist.push_back((p, d + 1));
                assert(work_views(self.worklist@) =~= w0.push(
                    (resolved_path(nv, tv[k as int]), (d + 1) as nat),
                ));
                assert(work_at(resolved_all(nv, tv.take(k + 1)), d as nat) =~= work_at(
                    resolved_all(nv, tv.take(k as int)),
                    d as nat,
                ).push((resolved_path(nv, tv[k as int]), (d + 1) as nat)));
            }
            k += 1;
        }
        assert(tv.take(targets.len() as int) =~= tv);

        if wide {
            let others = concept_neighbours_of(&self.concepts, path);
            let ghost ov = view_all(others@);
            let ghost work2 = work_views(self.worklist@);
            let mut m: usize = 0;
            while m < others.len()
                invariant
                    m <= others.len(),
                    self.depth == old(self).depth,
                    self.notes == old(self).notes,
                    self.concepts == old(self).concepts,
                    self.visited == old(self).visited,
                    view_all(self.nodes@) == nodes0.push(node@),
                    view_all(self.edges@) == edges1 + outgoing_edges(path@, tv),
                    d < self.depth,
                    ov == view_all(others@),
                    work_views(self.worklist@) == work2 + work_at(ov.take(m as int), d as nat),
                decreases others.len() - m,
            {
                let ghost w0 = work_views(self.worklist@);
                self.worklist.push_back((others[m].clone(), d + 1));
                assert(work_views(self.worklist@) =~= w0.push((ov[m as int], (d + 1) as nat)));
                assert(work_at(ov.take(m + 1), d as nat) =~= work_at(ov.take(m as int), d as nat).push(
                    (ov[m as int], (d + 1) as nat),
                ));
                m += 1;
            }
            assert(ov.take(others.len() as int) =~= ov);
        }
    }

    /// Ends the walk: adds a concept edge for each pair of visited notes that
    /// share a concept, drops each edge whose source, target and type an
    /// earlier edge has, and keeps the concepts that a visited note links to.
    pub fn finish(self) -> (g: GraphData)
        ensures
            g.nodes == self.nodes,
            view_all(g.edges@) == dedup_edges(
                view_all(self.edges@) + concept_edges(
                    restricted(view_all(self.concepts@), view_all(self.visited@)),
                ),
            ),
            view_all(g.concepts@) == touched(view_all(self.concepts@), view_all(self.visited@)),
    {
        let ghost cv = view_all(self.concepts@);
        let ghost seen = view_all(self.visited@);
        let mut narrowed: Vec<ConceptInfo> = Vec::new();
        let mut kept: Vec<ConceptInfo> = Vec::new();
        let mut c: usize = 0;
        assert(cv.take(0) =~= Seq::empty());
        assert(view_all(kept@) =~= Seq::empty());
        while c < self.concepts.len()
            invariant
                c <= self.concepts.len(),
                cv == view_all(self.concepts@),
                seen == view_all(self.visited@),
                narrowed.len() == c,
                forall|j: int| 0 <= j < c ==> #[trigger] view_all(narrowed@)[j] == restricted(cv, seen)[j],
                view_all(kept@) == touched(cv.take(c as int), seen),
            decreases self.concepts.len() - c,
        {
            proof {
                assert(cv.take(c + 1).drop_last() =~= cv.take(c as int));
                assert(cv.take(c + 1).last() == cv[c as int]);
                assert(cv[c as int].notes == view_all(self.concepts[c as int].notes@));
            }
            let info = &self.concepts[c];
            let seen_notes = keep_visited_of(&info.notes, &self.visited);
            let ghost before_kept = view_all(kept@);
            if seen_notes.len() > 0 {
                let copy = ConceptInfo {
                    name: info.name.clone(),
                    count: info.count,
                    notes: clone_strings(&info.notes),
                };
                assert(copy@ == cv[c as int]);
                kept.push(copy);
                assert(view_all(kept@) =~= before_kept.push(cv[c as int]));
            }
            let ghost before = view_all(narrowed@);
            let part = ConceptInfo { name: info.name.clone(), count: seen_notes.len(), notes: seen_notes };
            narrowed.push(part);
            assert(view_all(narrowed@) =~= before.push(part@));
            c += 1;
        }
        assert(cv.take(self.concepts.len() as int) =~= cv);
        assert(view_all(narrowed@) =~= restricted(cv, seen));

        let mut all = self.edges;
        push_concept_edges(&mut all, &narrowed);
        let ghost av = view_all(all@);
        let mut edges: Vec<GraphEdge> = Vec::new();
        let mut i: usize = 0;
        assert(av.take(0) =~= Seq::empty());
        assert(view_all(edges@) =~= Seq::empty());
        while i < all.len()
            invariant
                i <= all.len(),
                av == view_all(all@),
                view_all(edges@) == dedup_edges(av.take(i as int)),
            decreases all.len() - i,
        {
            proof {
                assert(av.take(i + 1).drop_last() =~= av.take(i as int));
                assert(av.take(i + 1).last() == av[i as int]);
            }
            let ghost before = view_all(edges@);
            if !has_edge_key(&edges, &all[i]) {
                let e = GraphEdge {
                    source: all[i].source.clone(),
                    target: all[i].target.clone(),
                    edge_type: all[i].edge_type,
                    concept: match &all[i].concept {
                        Some(name) => Some(name.clone()),
                        None => None,
                    },
                };
                assert(e@ == av[i as int]);
                edges.push(e);
                assert(view_all(edges@) =~= before.push(av[i as int]));
            }
            i += 1;
        }
        assert(av.take(all.len() as int) =~= av);
        GraphData { nodes: self.nodes, edges, concepts: kept }
    }
}

/// A walk as far as it has come: the entries still to look at, the notes
/// looked at, and the distance at which each of them was taken.
pub struct WalkState {
    pub work: Seq<(Seq<char>, nat)>,
    pub visited: Seq<Seq<char>>,
    pub taken_at: Seq<nat>,
}

/// A walk before its first step: only the center waits, at distance 0.
pub open spec fn walk_start(center: Seq<char>) -> WalkState {
    WalkState { work: seq![(center, 0nat)], visited: Seq::empty(), taken_at: Seq::empty() }
}

/// One step of a walk of depth `depth`, where the store names `near(p)` as the
/// notes to go to from `p`: what `next` and then `expand` make of the
/// worklist and of the visited notes. A walk with nothing left to take stays
/// as it is, with an empty worklist.
pub open spec fn walk_step(
    s: WalkState,
    depth: nat,
    near: spec_fn(Seq<char>) -> Seq<Seq<char>>,
) -> WalkState {
    let i = next_index(s.work, s.visited, depth);
    if i < 0 {
        WalkState { work: Seq::empty(), visited: s.visited, taken_at: s.taken_at }
    } else {
        let e = s.work[i];
        WalkState {
            work: s.work.skip(i + 1) + (if e.1 < depth {
                work_at(near(e.0), e.1)
            } else {
                Seq::empty()
            }),
            visited: s.visited.push(e.0),
            taken_at: s.taken_at.push(e.1),
        }
    }
}

/// The walk around `center` after `steps` steps.
pub open spec fn walk_after(
    center: Seq<char>,
    depth: nat,
    near: spec_fn(Seq<char>) -> Seq<Seq<char>>,
    steps: nat,
) -> WalkState
    decreases steps,
{
    if steps == 0 {
        walk_start(center)
    } else {
        walk_step(walk_after(center, depth, near, (steps - 1) as nat), depth, near)
    }
}

/// `next` and then `expand` take one step of the walk: where the store names
/// `backlinks` as the sources of the backlinks of the note taken, `targets`
/// as the notes that its resolving links stand for and `shared` as the notes
/// that share a concept with it, and `near` of the note is these three in
/// turn, the worklist and the visited notes after `expand` are those of
/// `walk_step`.
pub proof fn lemma_next_then_expand(
    work: Seq<(Seq<char>, nat)>,
    visited: Seq<Seq<char>>,
    depth: nat,
    near: spec_fn(Seq<char>) -> Seq<Seq<char>>,
    backlinks: Seq<Seq<char>>,
    targets: Seq<Seq<char>>,
    shared: Seq<Seq<char>>,
)
    requires
        next_index(work, visited, depth) >= 0,
        near(work[next_index(work, visited, depth)].0) == backlinks + targets + shared,
    ensures
        ({
            let i = next_index(work, visited, depth);
            let e = work[i];
            let after = walk_step(WalkState { work, visited, taken_at: Seq::empty() }, depth, near);
            &&& after.visited == visited.push(e.0)
            &&& e.1 >= depth ==> after.work == work.skip(i + 1)
            &&& e.1 < depth ==> after.work == work.skip(i + 1) + work_at(backlinks, e.1) + work_at(
                targets,
                e.1,
            ) + work_at(shared, e.1)
        }),
{
    let i = next_index(work, visited, depth);
    let e = work[i];
    let after = walk_step(WalkState { work, visited, taken_at: Seq::empty() }, depth, near);
    if e.1 < depth {
        assert(work_at(backlinks + targets + shared, e.1) =~= work_at(backlinks, e.1) + work_at(
            targets,
            e.1,
        ) + work_at(shared, e.1));
        assert(after.work =~= work.skip(i + 1) + work_at(backlinks, e.1) + work_at(targets, e.1)
            + work_at(shared, e.1));
    } else {
        assert(after.work =~= work.skip(i + 1));
    }
}

/// `a` is the beginning of `b`.
pub open spec fn is_start_of<A>(a: Seq<A>, b: Seq<A>) -> bool {
    a.len() <= b.len() && b.take(a.len() as int) =~= a
}

/// The entries of a worklist come in the order of their distances, none
/// beyond `depth` and none more than one link farther than the first.
pub open spec fn in_order(work: Seq<(Seq<char>, nat)>, depth: nat) -> bool {
    &&& forall|j: int| 0 <= j < work.len() ==> (#[trigger] work[j]).1 <= depth
    &&& forall|j: int, k: int|
        0 <= j < k < work.len() ==> (#[trigger] work[j]).1 <= (#[trigger] work[k]).1
    &&& forall|j: int| 0 <= j < work.len() ==> (#[trigger] work[j]).1 <= work[0].1 + 1
}

/// The walk `b` of depth `depth + 1` is in step with the walk `a` of depth
/// `depth`: both have looked at the same notes, and `b` waits for the
/// entries of `a` and behind them for entries one link beyond `depth`.
pub open spec fn in_step(a: WalkState, b: WalkState, depth: nat) -> bool {
    &&& a.visited == b.visited
    &&& is_start_of(a.work, b.work)
    &&& forall|j: int| a.work.len() <= j < b.work.len() ==> (#[trigger] b.work[j]).1 == depth + 1
    &&& in_order(a.work, depth)
    &&& b.work.len() > a.work.len() ==> forall|j: int|
        0 <= j < a.work.len() ==> (#[trigger] a.work[j]).1 == depth
}

/// The deeper walk `b` follows the walk `a`: it has looked at the notes of
/// `a` in the same order, and is in step with `a` while `a` has entries left.
pub open spec fn follows(a: WalkState, b: WalkState, depth: nat) -> bool {
    &&& is_start_of(a.visited, b.visited)
    &&& a.work.len() > 0 ==> in_step(a, b, depth)
}

/// The entry that is taken next is in the worklist and can be taken.
pub proof fn lemma_next_index(work: Seq<(Seq<char>, nat)>, visited: Seq<Seq<char>>, depth: nat)
    ensures
        -1 <= next_index(work, visited, depth) < work.len(),
        next_index(work, visited, depth) >= 0 ==> takeable(
            work[next_index(work, visited, depth)],
            visited,
            depth,
        ),
    decreases work.len(),
{
    if work.len() > 0 && !takeable(work[0], visited, depth) {
        lemma_next_index(work.skip(1), visited, depth);
    }
}

/// Entries behind the worklist, and one more link of depth, do not change
/// which entry is taken next, where no entry is beyond the depth.
pub proof fn lemma_next_index_deeper(
    work: Seq<(Seq<char>, nat)>,
    more: Seq<(Seq<char>, nat)>,
    visited: Seq<Seq<char>>,
    depth: nat,
)
    requires
        forall|j: int| 0 <= j < work.len() ==> (#[trigger] work[j]).1 <= depth,
        next_index(work, visited, depth) >= 0,
    ensures
        next_index(work + more, visited, depth + 1) == next_index(work, visited, depth),
    decreases work.len(),
{
    if work.len() > 0 {
        assert((work + more)[0] == work[0]);
        if !takeable(work[0], visited, depth) {
            assert((work + more).skip(1) =~= work.skip(1) + more);
            assert forall|j: int| 0 <= j < work.skip(1).len() implies (#[trigger] work.skip(1)[j]).1
                <= depth by {
                assert(work.skip(1)[j] == work[j + 1]);
            }
            lemma_next_index_deeper(work.skip(1), more, visited, depth);
        }
    }
}

/// A step keeps the deeper walk behind the other.
pub proof fn lemma_follows_step(
    a: WalkState,
    b: WalkState,
    depth: nat,
    near: spec_fn(Seq<char>) -> Seq<Seq<char>>,
)
    requires
        follows(a, b, depth),
    ensures
        follows(walk_step(a, depth, near), walk_step(b, depth + 1, near), depth),
{
    let a2 = walk_step(a, depth, near);
    let b2 = walk_step(b, depth + 1, near);
    let i = next_index(a.work, a.visited, depth);
    lemma_next_index(a.work, a.visited, depth);
    lemma_next_index(b.work, b.visited, depth + 1);
    if i < 0 {
        assert(is_start_of(a2.visited, b2.visited)) by {
            if next_index(b.work, b.visited, depth + 1) >= 0 {
                assert(b2.visited.take(a.visited.len() as int) =~= b.visited.take(
                    a.visited.len() as int,
                ));
            }
        }
    } else {
        let more = b.work.skip(a.work.len() as int);
        assert(b.work =~= a.work + more) by {
            assert(b.work.take(a.work.len() as int) =~= a.work);
        }
        lemma_next_index_deeper(a.work, more, a.visited, depth);
        let e = a.work[i];
        assert(b.work[i] == e);
        assert(a2.visited == b2.visited);
        assert(is_start_of(a2.visited, b2.visited)) by {
            assert(b2.visited.take(a2.visited.len() as int) =~= a2.visited);
        }
        let tail = a.work.skip(i + 1);
        let fresh = work_at(near(e.0), e.1);
        if e.1 < depth {
            assert(more.len() == 0) by {
                if more.len() > 0 {
                    assert(a.work[i].1 == depth);
                }
            }
            assert(b.work =~= a.work);
            assert(a2.work == tail + fresh);
            assert(b2.work =~= a2.work);
            if a2.work.len() > 0 {
                assert(b2.work.take(a2.work.len() as int) =~= a2.work);
                assert forall|j: int| 0 <= j < a2.work.len() implies (#[trigger] a2.work[j]).1
                    <= depth && a2.work[j].1 >= e.1 && a2.work[j].1 <= e.1 + 1 by {
                    if j < tail.len() {
                        assert(a2.work[j] == a.work[i + 1 + j]);
                        assert(a.work[i].1 <= a.work[i + 1 + j].1);
                        assert(a.work[0].1 <= a.work[i].1);
                    } else {
                        assert(a2.work[j] == fresh[j - tail.len()]);
                    }
                }
                assert forall|j: int, k: int| 0 <= j < k < a2.work.len() implies (
                #[trigger] a2.work[j]).1 <= (#[trigger] a2.work[k]).1 by {
                    if k < tail.len() {
                        assert(a2.work[j] == a.work[i + 1 + j]);
                        assert(a2.work[k] == a.work[i + 1 + k]);
                    } else if j < tail.len() {
                        assert(a2.work[k] == fresh[k - tail.len()]);
                    } else {
                        assert(a2.work[j] == fresh[j - tail.len()]);
                        assert(a2.work[k] == fresh[k - tail.len()]);
                    }
                }
                assert(in_order(a2.work, depth));
                assert(in_step(a2, b2, depth));
            }
        } else {
            assert(a2.work =~= tail);
            assert(b2.work =~= tail + more + fresh) by {
                assert(b.work.skip(i + 1) =~= tail + more);
            }
            if a2.work.len() > 0 {
                assert(b2.work.take(a2.work.len() as int) =~= a2.work);
                assert forall|j: int| 0 <= j < a2.work.len() implies (#[trigger] a2.work[j]).1
                    == depth by {
                    assert(a2.work[j] == a.work[i + 1 + j]);
                    assert(a.work[i].1 <= a.work[i + 1 + j].1);
                }
                assert forall|j: int| a2.work.len() <= j < b2.work.len() implies (
                #[trigger] b2.work[j]).1 == depth + 1 by {
                    if j < tail.len() + more.len() {
                        assert(b2.work[j] == more[j - tail.len()]);
                        assert(more[j - tail.len()] == b.work[a.work.len() + j - tail.len()]);
                    } else {
                        assert(b2.work[j] == fresh[j - tail.len() - more.len()]);
                    }
                }
                assert(in_order(a2.work, depth));
                assert(in_step(a2, b2, depth));
            }
        }
    }
}

/// However many steps two walks around one center take, the walk that goes
/// one link farther has looked at every note that the other has looked at,
/// in the same order: the nodes of a walk grow with its depth.
pub proof fn lemma_walk_grows_with_depth(
    center: Seq<char>,
    depth: nat,
    near: spec_fn(Seq<char>) -> Seq<Seq<char>>,
    steps: nat,
)
    ensures
        follows(
            walk_after(center, depth, near, steps),
            walk_after(center, depth + 1, near, steps),
            depth,
        ),
        is_start_of(
            walk_after(center, depth, near, steps).visited,
            walk_after(center, depth + 1, near, steps).visited,
        ),
    decreases steps,
{
    if steps == 0 {
        let s = walk_start(center);
        assert(s.visited.take(0) =~= s.visited);
        assert(s.work.take(1) =~= s.work);
    } else {
        lemma_walk_grows_with_depth(center, depth, near, (steps - 1) as nat);
        lemma_follows_step(
            walk_after(center, depth, near, (steps - 1) as nat),
            walk_after(center, depth + 1, near, (steps - 1) as nat),
            depth,
            near,
        );
    }
}

/// A walk looks at no note twice.
pub proof fn lemma_walk_visits_once(
    center: Seq<char>,
    depth: nat,
    near: spec_fn(Seq<char>) -> Seq<Seq<char>>,
    steps: nat,
)
    ensures
        walk_after(center, depth, near, steps).visited.no_duplicates(),
    decreases steps,
{
    if steps > 0 {
        let before = walk_after(center, depth, near, (steps - 1) as nat);
        lemma_walk_visits_once(center, depth, near, (steps - 1) as nat);
        lemma_next_index(before.work, before.visited, depth);
        let i = next_index(before.work, before.visited, depth);
        if i >= 0 {
            let after = before.visited.push(before.work[i].0);
            assert forall|j: int, k: int| 0 <= j < after.len() && 0 <= k < after.len() && j
                != k implies after[j] != after[k] by {
                if j < before.visited.len() && k < before.visited.len() {
                    assert(before.visited[j] != before.visited[k]);
                } else if j < before.visited.len() {
                    assert(before.visited.contains(before.visited[j]));
                } else if k < before.visited.len() {
                    assert(before.visited.contains(before.visited[k]));
                }
            }
        }
    }
}

/// The store names `p` as near one of `seen`.
pub open spec fn named_by(
    seen: Seq<Seq<char>>,
    p: Seq<char>,
    near: spec_fn(Seq<char>) -> Seq<Seq<char>>,
) -> bool {
    exists|j: int| 0 <= j < seen.len() && near(#[trigger] seen[j]).contains(p)
}

/// Every note that waits or was looked at is the center or was named as near
/// a note looked at before.
pub open spec fn on_a_trail(
    s: WalkState,
    center: Seq<char>,
    near: spec_fn(Seq<char>) -> Seq<Seq<char>>,
) -> bool {
    &&& forall|k: int|
        0 <= k < s.work.len() ==> (#[trigger] s.work[k]).0 == center || named_by(
            s.visited,
            s.work[k].0,
            near,
        )
    &&& forall|k: int|
        0 <= k < s.visited.len() ==> (#[trigger] s.visited[k]) == center || named_by(
            s.visited.take(k),
            s.visited[k],
            near,
        )
}

/// A walk goes only where the store leads: after any number of steps every
/// note looked at is the center, or the store named it as near a note that
/// was looked at before it.
pub proof fn lemma_walk_stays_connected(
    center: Seq<char>,
    depth: nat,
    near: spec_fn(Seq<char>) -> Seq<Seq<char>>,
    steps: nat,
)
    ensures
        on_a_trail(walk_after(center, depth, near, steps), center, near),
    decreases steps,
{
    if steps > 0 {
        let s = walk_after(center, depth, near, (steps - 1) as nat);
        let t = walk_after(center, depth, near, steps);
        lemma_walk_stays_connected(center, depth, near, (steps - 1) as nat);
        lemma_next_index(s.work, s.visited, depth);
        let i = next_index(s.work, s.visited, depth);
        if i >= 0 {
            let e = s.work[i];
            let n = s.visited.len() as int;
            assert(t.visited == s.visited.push(e.0));
            assert(t.visited.take(n) =~= s.visited);
            assert forall|k: int| 0 <= k < t.visited.len() implies (#[trigger] t.visited[k])
                == center || named_by(t.visited.take(k), t.visited[k], near) by {
                if k < n {
                    assert(t.visited.take(k) =~= s.visited.take(k));
                    assert(t.visited[k] == s.visited[k]);
                } else {
                    assert(s.work[i].0 == center || named_by(s.visited, s.work[i].0, near));
                }
            }
            let tail = s.work.skip(i + 1);
            assert forall|k: int| 0 <= k < t.work.len() implies (#[trigger] t.work[k]).0 == center
                || named_by(t.visited, t.work[k].0, near) by {
                if k < tail.len() {
                    assert(t.work[k] == s.work[i + 1 + k]);
                    let p = s.work[i + 1 + k].0;
                    if p != center {
                        assert(named_by(s.visited, p, near));
                        let j = choose|j: int|
                            0 <= j < s.visited.len() && near(#[trigger] s.visited[j]).contains(p);
                        assert(t.visited[j] == s.visited[j]);
                        assert(near(t.visited[j]).contains(p));
                    }
                } else {
                    let fresh = work_at(near(e.0), e.1);
                    assert(e.1 < depth);
                    assert(t.work[k] == fresh[k - tail.len()]);
                    assert(near(e.0)[k - tail.len()] == t.work[k].0);
                    assert(t.visited[n] == e.0);
                    assert(near(t.visited[n]).contains(t.work[k].0));
                }
            }
        }
    } else {
        let s = walk_start(center);
        assert(s.work[0].0 == center);
    }
}

/// The note `p` waits in the worklist, within the depth.
pub open spec fn waits(work: Seq<(Seq<char>, nat)>, p: Seq<char>, depth: nat) -> bool {
    exists|k: int| 0 <= k < work.len() && (#[trigger] work[k]).0 == p && work[k].1 <= depth
}

/// Every note that the store names as near a note taken before the depth was
/// reached has been looked at or waits to be.
pub open spec fn nothing_lost(
    s: WalkState,
    depth: nat,
    near: spec_fn(Seq<char>) -> Seq<Seq<char>>,
) -> bool {
    &&& s.taken_at.len() == s.visited.len()
    &&& forall|j: int, m: int|
        0 <= j < s.visited.len() && s.taken_at[j] < depth && 0 <= m < near(s.visited[j]).len()
            ==> s.visited.contains(#[trigger] near(s.visited[j])[m]) || waits(
            s.work,
            near(s.visited[j])[m],
            depth,
        )
}

/// Where no entry is taken next, none can be taken.
pub proof fn lemma_nothing_to_take(
    work: Seq<(Seq<char>, nat)>,
    visited: Seq<Seq<char>>,
    depth: nat,
    k: int,
)
    requires
        0 <= k < work.len(),
        k < next_index(work, visited, depth) || next_index(work, visited, depth) < 0,
    ensures
        !takeable(work[k], visited, depth),
    decreases work.len(),
{
    if k > 0 {
        assert(work.skip(1)[k - 1] == work[k]);
        lemma_nothing_to_take(work.skip(1), visited, depth, k - 1);
    }
}

/// A step loses no note.
pub proof fn lemma_nothing_lost_step(
    s: WalkState,
    depth: nat,
    near: spec_fn(Seq<char>) -> Seq<Seq<char>>,
)
    requires
        nothing_lost(s, depth, near),
        next_index(s.work, s.visited, depth) >= 0,
    ensures
        nothing_lost(walk_step(s, depth, near), depth, near),
{
    let t = walk_step(s, depth, near);
    let i = next_index(s.work, s.visited, depth);
    lemma_next_index(s.work, s.visited, depth);
    let e = s.work[i];
    let n = s.visited.len() as int;
    let tail = s.work.skip(i + 1);
    assert forall|j: int, m: int|
        0 <= j < t.visited.len() && t.taken_at[j] < depth && 0 <= m < near(
            t.visited[j],
        ).len() implies t.visited.contains(#[trigger] near(t.visited[j])[m]) || waits(
        t.work,
        near(t.visited[j])[m],
        depth,
    ) by {
        let p = near(t.visited[j])[m];
        if j < n {
            assert(t.visited[j] == s.visited[j] && t.taken_at[j] == s.taken_at[j]);
            assert(s.visited.contains(near(s.visited[j])[m]) || waits(s.work, p, depth));
            if s.visited.contains(p) {
                let v = choose|v: int| 0 <= v < s.visited.len() && s.visited[v] == p;
                assert(t.visited[v] == p);
            } else {
                let k = choose|k: int|
                    0 <= k < s.work.len() && (#[trigger] s.work[k]).0 == p && s.work[k].1 <= depth;
                if k > i {
                    assert(t.work[k - i - 1] == s.work[k]);
                } else if k == i {
                    assert(t.visited[n] == p);
                } else {
                    lemma_nothing_to_take(s.work, s.visited, depth, k);
                }
            }
        } else {
            assert(t.visited[j] == e.0 && t.taken_at[j] == e.1);
            let fresh = work_at(near(e.0), e.1);
            assert(t.work[tail.len() + m] == fresh[m]);
        }
    }
}

/// A walk loses no note: after any number of steps, every note that the
/// store names as near a note taken before the depth was reached has been
/// looked at or waits to be.
pub proof fn lemma_walk_loses_nothing(
    center: Seq<char>,
    depth: nat,
    near: spec_fn(Seq<char>) -> Seq<Seq<char>>,
    steps: nat,
)
    ensures
        nothing_lost(walk_after(center, depth, near, steps), depth, near),
    decreases steps,
{
    if steps > 0 {
        let s = walk_after(center, depth, near, (steps - 1) as nat);
        let t = walk_after(center, depth, near, steps);
        lemma_walk_loses_nothing(center, depth, near, (steps - 1) as nat);
        lemma_next_index(s.work, s.visited, depth);
        if next_index(s.work, s.visited, depth) >= 0 {
            lemma_nothing_lost_step(s, depth, near);
        } else {
            assert forall|j: int, m: int|
                0 <= j < t.visited.len() && t.taken_at[j] < depth && 0 <= m < near(
                    t.visited[j],
                ).len() implies t.visited.contains(#[trigger] near(t.visited[j])[m]) by {
                let p = near(s.visited[j])[m];
                if !s.visited.contains(p) {
                    assert(waits(s.work, p, depth));
                    let k = choose|k: int|
                        0 <= k < s.work.len() && (#[trigger] s.work[k]).0 == p && s.work[k].1
                            <= depth;
                    lemma_nothing_to_take(s.work, s.visited, depth, k);
                }
            }
        }
    }
}

/// A walk reaches every note within its depth: once a walk has nothing left
/// to take, every note that the store names as near a note taken before the
/// depth was reached has been looked at.
pub proof fn lemma_finished_walk_is_closed(
    center: Seq<char>,
    depth: nat,
    near: spec_fn(Seq<char>) -> Seq<Seq<char>>,
    steps: nat,
    j: int,
    m: int,
)
    requires
        ({
            let s = walk_after(center, depth, near, steps);
            &&& next_index(s.work, s.visited, depth) < 0
            &&& 0 <= j < s.visited.len()
            &&& s.taken_at[j] < depth
            &&& 0 <= m < near(s.visited[j]).len()
        }),
    ensures
        walk_after(center, depth, near, steps).visited.contains(
            near(walk_after(center, depth, near, steps).visited[j])[m],
        ),
{
    let s = walk_after(center, depth, near, steps);
    lemma_walk_loses_nothing(center, depth, near, steps);
    let p = near(s.visited[j])[m];
    if !s.visited.contains(p) {
        assert(waits(s.work, p, depth));
        let k = choose|k: int|
            0 <= k < s.work.len() && (#[trigger] s.work[k]).0 == p && s.work[k].1 <= depth;
        lemma_nothing_to_take(s.work, s.visited, depth, k);
    }
}

} // verus!

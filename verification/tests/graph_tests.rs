use notevault::graph::{build_graph_data, collect_sources, resolves_in, EdgeType};
use notevault::local_graph::LocalGraphWalk;
use notevault::records::LinkInfo;
use notevault::text::{label_of_path, strip_md_suffix, with_md_suffix};

fn s(x: &str) -> String {
    x.to_string()
}

fn link(a: &str, b: &str) -> (String, String) {
    (s(a), s(b))
}

fn info(path: &str) -> LinkInfo {
    LinkInfo { path: s(path), title: s(path), link_text: None }
}

#[test]
fn concept_detection() {
    let notes = vec![s("X.md"), s("Y.md")];
    let links = vec![link("X.md", "NewIdea"), link("Y.md", "NewIdea")];
    let g = build_graph_data(&notes, &links, &links);

    assert_eq!(g.concepts.len(), 1);
    assert_eq!(g.concepts[0].name, "NewIdea");
    assert_eq!(g.concepts[0].count, 2);
    assert_eq!(g.concepts[0].notes, vec![s("X.md"), s("Y.md")]);
    assert_eq!(g.edges.len(), 1);
    assert_eq!(g.edges[0].source, "X.md");
    assert_eq!(g.edges[0].target, "Y.md");
    assert_eq!(g.edges[0].edge_type, EdgeType::Concept);
    assert_eq!(g.edges[0].concept, Some(s("NewIdea")));
    assert_eq!(g.nodes.len(), 2);
    assert_eq!(g.nodes[0].connections, 1);
    assert_eq!(g.nodes[1].connections, 1);
    assert_eq!(g.nodes[0].node_type, "note");
}

#[test]
fn direct_edges_and_connection_counts() {
    let notes = vec![s("A.md"), s("sub/B.md"), s("C.md")];
    let links = vec![link("A.md", "sub/B"), link("A.md", "C.md"), link("C.md", "Ghost")];
    let g = build_graph_data(&notes, &links, &links);

    assert_eq!(g.nodes.len(), 3);
    assert_eq!(g.nodes[0].id, "A.md");
    assert_eq!(g.nodes[0].label, "A");
    assert_eq!(g.nodes[1].label, "B");
    assert_eq!(g.nodes[1].path, "sub/B.md");
    assert_eq!(g.nodes[0].connections, 2);
    assert_eq!(g.nodes[1].connections, 1);
    assert_eq!(g.nodes[2].connections, 1);
    assert_eq!(g.edges.len(), 2);
    assert_eq!(g.edges[0].target, "sub/B");
    assert_eq!(g.edges[0].edge_type, EdgeType::Direct);
    assert_eq!(g.edges[0].concept, None);
    assert_eq!(g.edges[1].target, "C.md");
    assert_eq!(g.concepts.len(), 1);
    assert_eq!(g.concepts[0].name, "Ghost");
    assert_eq!(g.concepts[0].count, 1);
}

#[test]
fn a_target_is_a_link_or_a_concept_never_both() {
    let notes = vec![s("A.md"), s("B.md")];
    let links = vec![link("A.md", "B"), link("B.md", "Idea"), link("A.md", "Idea")];
    let g = build_graph_data(&notes, &links, &links);
    for (_, target) in &links {
        let direct = g.edges.iter().any(|e| e.edge_type == EdgeType::Direct && &e.target == target);
        let named = g.concepts.iter().filter(|c| &c.name == target).count();
        assert!((direct && named == 0) || (!direct && named == 1));
    }
}

#[test]
fn three_notes_of_a_concept_give_three_edges() {
    let notes = vec![s("c.md"), s("a.md"), s("b.md")];
    let raw = vec![link("c.md", "T"), link("a.md", "T"), link("b.md", "T"), link("a.md", "T")];
    let g = build_graph_data(&notes, &Vec::new(), &raw);
    assert_eq!(g.concepts[0].notes, vec![s("a.md"), s("b.md"), s("c.md")]);
    assert_eq!(g.edges.len(), 3);
    assert_eq!((g.edges[0].source.as_str(), g.edges[0].target.as_str()), ("a.md", "b.md"));
    assert_eq!((g.edges[1].source.as_str(), g.edges[1].target.as_str()), ("a.md", "c.md"));
    assert_eq!((g.edges[2].source.as_str(), g.edges[2].target.as_str()), ("b.md", "c.md"));
    assert_eq!(g.nodes[0].connections, 2);
}

#[test]
fn sources_come_out_sorted_and_once() {
    let raw = vec![link("b", "T"), link("a", "T"), link("b", "T"), link("z", "U"), link("B", "T")];
    assert_eq!(collect_sources(&raw, &s("T")), vec![s("B"), s("a"), s("b")]);
    assert_eq!(collect_sources(&raw, &s("U")), vec![s("z")]);
    assert!(collect_sources(&raw, &s("V")).is_empty());
}

#[test]
fn resolving_targets_and_labels() {
    let notes = vec![s("A.md"), s("dir/B.md")];
    assert!(resolves_in(&notes, &s("A")));
    assert!(resolves_in(&notes, &s("A.md")));
    assert!(resolves_in(&notes, &s("dir/B")));
    assert!(!resolves_in(&notes, &s("B")));
    assert_eq!(label_of_path("dir/sub/Note.md"), "Note");
    assert_eq!(label_of_path("Note"), "Note");
    assert_eq!(label_of_path("dir/"), "");
    assert_eq!(strip_md_suffix("a.md.md"), "a.md");
    assert_eq!(strip_md_suffix("md"), "md");
    assert_eq!(with_md_suffix("a"), "a.md");
}

#[test]
fn local_walk_of_depth_one() {
    let notes = vec![s("A.md"), s("B.md"), s("C.md"), s("D.md")];
    let raw = vec![link("A.md", "B"), link("C.md", "A.md"), link("A.md", "Idea"), link("D.md", "Idea")];
    let mut walk = LocalGraphWalk::new("A.md", 1, notes, &raw);

    let first = walk.next();
    assert_eq!(first, Some((s("A.md"), 0)));
    walk.expand(&s("A.md"), 0, &vec![info("C.md")], &vec![info("B"), info("Idea")]);
    assert_eq!(walk.nodes.len(), 1);
    assert_eq!(walk.nodes[0].connections, 4);
    assert_eq!(walk.edges.len(), 2);
    let waiting: Vec<(String, usize)> = walk.worklist.iter().cloned().collect();
    assert_eq!(waiting, vec![(s("C.md"), 1), (s("B.md"), 1), (s("D.md"), 1)]);

    let mut seen = Vec::new();
    while let Some((path, d)) = walk.next() {
        assert_eq!(d, 1);
        walk.expand(&path, d, &Vec::new(), &Vec::new());
        seen.push(path);
    }
    assert_eq!(seen, vec![s("C.md"), s("B.md"), s("D.md")]);

    let g = walk.finish();
    assert_eq!(g.nodes.len(), 4);
    assert_eq!(g.concepts.len(), 1);
    assert_eq!(g.concepts[0].name, "Idea");
    assert_eq!(g.edges.len(), 3);
    assert_eq!(g.edges[2].edge_type, EdgeType::Concept);
    assert_eq!(g.edges[2].source, "A.md");
    assert_eq!(g.edges[2].target, "D.md");
}

#[test]
fn local_walk_of_depth_zero_is_the_center() {
    let notes = vec![s("A.md"), s("B.md")];
    let raw = vec![link("A.md", "B")];
    let mut walk = LocalGraphWalk::new("A.md", 0, notes, &raw);
    assert_eq!(walk.next(), Some((s("A.md"), 0)));
    walk.expand(&s("A.md"), 0, &Vec::new(), &vec![info("B")]);
    assert_eq!(walk.next(), None);
    let g = walk.finish();
    assert_eq!(g.nodes.len(), 1);
    assert_eq!(g.edges.len(), 1);
    assert!(g.concepts.is_empty());
}

#[test]
fn local_walk_drops_repeated_edges() {
    let notes = vec![s("A.md"), s("B.md")];
    let raw = vec![link("A.md", "B.md")];
    let mut walk = LocalGraphWalk::new("A.md", 2, notes, &raw);
    while let Some((path, d)) = walk.next() {
        if path == "A.md" {
            walk.expand(&path, d, &Vec::new(), &vec![info("B.md")]);
        } else {
            walk.expand(&path, d, &vec![info("A.md")], &Vec::new());
        }
    }
    let g = walk.finish();
    assert_eq!(g.nodes.len(), 2);
    assert_eq!(g.edges.len(), 1);
}

fn answers(links: &[(String, String)], path: &str, backwards: bool) -> Vec<LinkInfo> {
    links
        .iter()
        .filter(|(from, to)| if backwards { to == path } else { from == path })
        .map(|(from, to)| info(if backwards { from } else { to }))
        .collect()
}

fn walked(notes: &[&str], links: &[(String, String)], center: &str, depth: usize) -> Vec<String> {
    let paths: Vec<String> = notes.iter().map(|n| s(n)).collect();
    let raw = links.to_vec();
    let mut walk = LocalGraphWalk::new(center, depth, paths, &raw);
    while let Some((path, d)) = walk.next() {
        walk.expand(&path, d, &answers(links, &path, true), &answers(links, &path, false));
    }
    let mut nodes: Vec<String> = walk.finish().nodes.into_iter().map(|n| n.path).collect();
    nodes.sort();
    nodes
}

#[test]
fn a_deeper_walk_of_a_chain_sees_more() {
    let notes = ["a.md", "b.md", "c.md", "d.md"];
    let links = vec![link("a.md", "b.md"), link("b.md", "c.md"), link("c.md", "d.md")];
    assert_eq!(walked(&notes, &links, "a.md", 0), vec![s("a.md")]);
    assert_eq!(walked(&notes, &links, "a.md", 1), vec![s("a.md"), s("b.md")]);
    assert_eq!(walked(&notes, &links, "a.md", 2), vec![s("a.md"), s("b.md"), s("c.md")]);
    assert_eq!(walked(&notes, &links, "a.md", 9), vec![s("a.md"), s("b.md"), s("c.md"), s("d.md")]);
    assert_eq!(walked(&notes, &links, "c.md", 1), vec![s("b.md"), s("c.md"), s("d.md")]);
}

#[test]
fn a_deeper_walk_sees_every_note_of_a_shallower_one() {
    let notes = ["c.md", "y.md", "b.md", "w.md", "z.md"];
    let links = vec![
        link("c.md", "y.md"),
        link("c.md", "b.md"),
        link("b.md", "w.md"),
        link("w.md", "y.md"),
        link("y.md", "z.md"),
    ];
    let all = vec![s("b.md"), s("c.md"), s("w.md"), s("y.md"), s("z.md")];
    assert_eq!(walked(&notes, &links, "c.md", 1), vec![s("b.md"), s("c.md"), s("y.md")]);
    assert_eq!(walked(&notes, &links, "c.md", 2), all);
    assert_eq!(walked(&notes, &links, "c.md", 3), all);
    for depth in 0..5 {
        let near = walked(&notes, &links, "w.md", depth);
        let far = walked(&notes, &links, "w.md", depth + 1);
        assert!(near.iter().all(|n| far.contains(n)));
    }
}

#[test]
fn a_note_two_links_away_is_seen_at_depth_three() {
    let notes = ["A.md", "B.md", "C.md", "E.md", "X.md"];
    let links = vec![
        link("C.md", "A.md"),
        link("C.md", "B.md"),
        link("B.md", "X.md"),
        link("X.md", "A.md"),
        link("A.md", "E.md"),
    ];
    let all = vec![s("A.md"), s("B.md"), s("C.md"), s("E.md"), s("X.md")];
    assert_eq!(walked(&notes, &links, "C.md", 2), all);
    assert_eq!(walked(&notes, &links, "C.md", 3), all);
}

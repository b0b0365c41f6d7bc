use fstar_deps::fstar::raw_deps::{Edge, Graph as RawGraph, Kind, ModuleName};
use fstar_deps::graph::{dep_graph_of_output, Error, Graph};
use fstar_deps::source::Source;

fn src(p: &str) -> Source {
    Source::new(p.to_string())
}

fn raw(entries: Vec<(&str, Vec<(Kind, &str)>)>) -> RawGraph {
    RawGraph(
        entries
            .into_iter()
            .map(|(s, es)| (src(s), es.into_iter().map(|(k, m)| Edge(k, ModuleName(m.to_string()))).collect()))
            .collect(),
    )
}

fn deps(g: &Graph, x: &str) -> Option<Vec<String>> {
    g.dependencies(&src(x)).map(|v| {
        let mut p: Vec<String> = v.iter().map(|s| s.path()).collect();
        p.sort();
        p
    })
}

#[test]
fn resolves_each_kind() {
    let g = raw(vec![
        ("A.fst", vec![(Kind::UseInterface, "b"), (Kind::UseImplementation, "c"), (Kind::PreferInterface, "b"), (Kind::PreferInterface, "c")]),
        ("B.fsti", vec![]),
        ("B.fst", vec![(Kind::FriendImplementation, "c")]),
        ("C.fst", vec![]),
    ]);
    let g = Graph::try_from(g).ok().expect("a graph");
    assert_eq!(deps(&g, "A.fst"), Some(vec!["B.fsti".to_string(), "C.fst".to_string()]));
    assert_eq!(deps(&g, "B.fst"), Some(vec!["C.fst".to_string()]));
    assert_eq!(deps(&g, "B.fsti"), Some(vec![]));
    assert_eq!(deps(&g, "C.fst"), Some(vec![]));
    assert_eq!(deps(&g, "D.fst"), None);
}

#[test]
fn merges_repeated_sources() {
    let g = raw(vec![
        ("A.fst", vec![(Kind::UseImplementation, "b")]),
        ("B.fst", vec![]),
        ("A.fst", vec![(Kind::UseImplementation, "c"), (Kind::UseImplementation, "b")]),
        ("C.fst", vec![]),
    ]);
    let g = Graph::try_from(g).ok().expect("a graph");
    assert_eq!(deps(&g, "A.fst"), Some(vec!["B.fst".to_string(), "C.fst".to_string()]));
}

#[test]
fn reports_duplicated_modules() {
    let g = raw(vec![
        ("x/A.fst", vec![]),
        ("y/a.fst", vec![(Kind::UseImplementation, "nowhere")]),
        ("x/A.fsti", vec![]),
        ("B.fst", vec![]),
        ("p/C.fst", vec![]),
        ("q/C.fst", vec![]),
        ("r/c.FST", vec![]),
    ]);
    match Graph::try_from(g) {
        Err(e) => {
            let mut groups: Vec<Vec<String>> = e
                .0
                .iter()
                .map(|v| {
                    let mut p: Vec<String> = v.iter().map(|s| s.path()).collect();
                    p.sort();
                    p
                })
                .collect();
            groups.sort();
            assert_eq!(
                groups,
                vec![
                    vec!["p/C.fst".to_string(), "q/C.fst".to_string(), "r/c.FST".to_string()],
                    vec!["x/A.fst".to_string(), "y/a.fst".to_string()],
                ]
            );
        },
        Ok(_) => panic!("expected duplicated modules"),
    }
}

#[test]
fn checked_resolution_refuses_what_would_panic() {
    assert!(Graph::checked_try_from(raw(vec![("A.ml", vec![])])).is_none());
    assert!(Graph::checked_try_from(raw(vec![("A.fst", vec![(Kind::UseInterface, "a")])])).is_none());
    assert!(matches!(
        Graph::checked_try_from(raw(vec![("A.fst", vec![(Kind::PreferInterface, "a")])])),
        Some(Ok(_))
    ));
    assert!(matches!(
        Graph::checked_try_from(raw(vec![("A.fst", vec![(Kind::UseInterface, "zz")]), ("a/A.fst", vec![])])),
        Some(Err(_))
    ));
}

#[test]
fn dep_graph_from_fstar_output() {
    let out = "/tmp/A.fst -> [\n\tPreferInterface b\n] ;;\n/tmp/B.fst -> [\n\t\n] \n";
    match dep_graph_of_output(out.to_string()) {
        Some(Ok(g)) => assert_eq!(deps(&g, "/tmp/A.fst"), Some(vec!["/tmp/B.fst".to_string()])),
        _ => panic!("expected a graph"),
    }
    assert!(matches!(
        dep_graph_of_output("nonsense".to_string()),
        Some(Err(Error::RawDepsError(_)))
    ));
    assert!(dep_graph_of_output("A.ml -> [\n\t\n] \n".to_string()).is_none());
    let dup = "a/X.fst -> [\n\t\n] ;;\nb/x.fst -> [\n\t\n] \n";
    assert!(matches!(dep_graph_of_output(dup.to_string()), Some(Err(Error::DuplicatedModules(_)))));
}

#[test]
fn sources_are_identified_by_path_components() {
    let g = raw(vec![
        ("a/B.fst", vec![(Kind::UseImplementation, "c")]),
        ("a//B.fst", vec![(Kind::UseImplementation, "b")]),
        ("a/./B.fst/", vec![]),
        ("./C.fst", vec![]),
    ]);
    assert_eq!(g.sources().len(), 2);
    let g = Graph::try_from(g).ok().expect("no module is held twice");
    assert_eq!(deps(&g, "a/B.fst"), Some(vec!["./C.fst".to_string(), "a/B.fst".to_string()]));
    assert!(g.dependencies(&src("C.fst")).is_none());
    assert!(g.dependencies(&src("./C.fst")).is_some());
}

#[test]
fn entry_order_changes_nothing() {
    let entries = vec![
        ("A.fst", vec![(Kind::UseInterface, "b"), (Kind::PreferInterface, "c")]),
        ("B.fsti", vec![]),
        ("B.fst", vec![(Kind::UseImplementation, "c")]),
        ("C.fst", vec![]),
    ];
    let mut reversed = entries.clone();
    reversed.reverse();
    let g1 = Graph::try_from(raw(entries)).ok().expect("a graph");
    let g2 = Graph::try_from(raw(reversed)).ok().expect("a graph");
    for x in ["A.fst", "B.fsti", "B.fst", "C.fst", "D.fst"] {
        assert_eq!(deps(&g1, x), deps(&g2, x));
    }
    let dup = vec![("a/X.fst", vec![]), ("b/X.fst", vec![]), ("Y.fst", vec![])];
    let mut dup_rev = dup.clone();
    dup_rev.reverse();
    for g in [raw(dup), raw(dup_rev)] {
        match Graph::try_from(g) {
            Err(e) => {
                let groups = e.0;
                assert_eq!(groups.len(), 1);
                let mut p: Vec<String> = groups[0].iter().map(|s| s.path()).collect();
                p.sort();
                assert_eq!(p, vec!["a/X.fst".to_string(), "b/X.fst".to_string()]);
            },
            _ => panic!("expected duplicated modules"),
        }
    }
}

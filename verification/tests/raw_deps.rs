use fstar_deps::fstar::raw_deps::{raw_deps_of_output, Edge, Error, Graph, Kind, ModuleKind, ModuleName};
use fstar_deps::source::Source;

fn src(p: &str) -> Source {
    Source::new(p.to_string())
}

fn edge(k: Kind, m: &str) -> (Kind, String) {
    (k, m.to_string())
}

fn view(g: &Graph) -> Vec<(String, Vec<(Kind, String)>)> {
    g.0.iter()
        .map(|(s, es)| (s.path(), es.iter().map(|Edge(k, m)| (*k, m.0.clone())).collect()))
        .collect()
}

const TWO: &str = "/tmp/A.fst -> [\n\tUseInterface b;\n\tPreferInterface fstar.pervasives\n] ;;\n/tmp/B.fsti -> [\n\t\n] \n";

#[test]
fn parses_two_sources() {
    let g = Graph::parser(TWO).expect("a graph");
    assert_eq!(
        view(&g),
        vec![
            (
                "/tmp/A.fst".to_string(),
                vec![edge(Kind::UseInterface, "b"), edge(Kind::PreferInterface, "fstar.pervasives")]
            ),
            ("/tmp/B.fsti".to_string(), vec![]),
        ]
    );
}

#[test]
fn parses_the_empty_graph() {
    let g = Graph::parser("\n").expect("a graph");
    assert!(g.0.is_empty());
}

#[test]
fn parses_every_kind() {
    let text = "x -> [\n\tUseInterface a;\n\tPreferInterface b;\n\tUseImplementation c;\n\tFriendImplementation d\n] \n";
    let g = Graph::parser(text).expect("a graph");
    assert_eq!(
        view(&g),
        vec![(
            "x".to_string(),
            vec![
                edge(Kind::UseInterface, "a"),
                edge(Kind::PreferInterface, "b"),
                edge(Kind::UseImplementation, "c"),
                edge(Kind::FriendImplementation, "d"),
            ]
        )]
    );
}

#[test]
fn source_paths_may_hold_spaces_and_arrows_without_line_break() {
    let text = "/my dir/a -> b/X.fst -> [\n\tUseInterface m n\n] \n";
    let g = Graph::parser(text).expect("a graph");
    assert_eq!(view(&g), vec![("/my dir/a -> b/X.fst".to_string(), vec![edge(Kind::UseInterface, "m n")])]);
}

#[test]
fn refuses_malformed_outputs() {
    for bad in [
        "",
        "\n\n",
        "x -> [\n\t\n] ",
        "x -> [\n\t\n] \nrest",
        "x -> [\n\tUseSomething a\n] \n",
        "x -> [\n\tUseInterface \n] \n",
        "x -> [\n\tUseInterface a;\n\t\n] \n",
        "x -> [\n\tUseInterface a\n] ;;\n",
        "x -> [\n\t\n];;\n",
        "x -> [\n\t\n] ;;\ny -> [\n\tUseInterface a\n]\n",
        "no arrow here\n",
    ] {
        assert!(Graph::parser(bad).is_none(), "{:?}", bad);
    }
}

#[test]
fn raw_deps_keeps_the_output_it_cannot_read() {
    match raw_deps_of_output("garbage".to_string()) {
        Err(Error::DepsParse(s)) => assert_eq!(s, "garbage"),
        _ => panic!("expected a parse error"),
    }
    let g = raw_deps_of_output(TWO.to_string()).ok().expect("a graph");
    assert_eq!(g.0.len(), 2);
}

#[test]
fn sources_are_listed_once() {
    let text = "a.fst -> [\n\t\n] ;;\nb.fst -> [\n\t\n] ;;\na.fst -> [\n\tUseInterface b\n] \n";
    let g = Graph::parser(text).expect("a graph");
    let mut paths: Vec<String> = g.sources().iter().map(|s| s.path()).collect();
    paths.sort();
    assert_eq!(paths, vec!["a.fst".to_string(), "b.fst".to_string()]);
}

#[test]
fn infos_of_an_implementation() {
    let (m, k) = ModuleName::infos(&src("/tmp/Hey.fst"));
    assert_eq!(m.0, "hey");
    assert_eq!(k, ModuleKind::Implementation);
}

#[test]
fn infos_of_an_interface_lowercases_the_whole_name() {
    let (m, k) = ModuleName::infos(&src("Some/Dir/FStar.List.Tot.FSTI"));
    assert_eq!(m.0, "fstar.list.tot");
    assert_eq!(k, ModuleKind::Interface);
}

#[test]
fn infos_reads_the_last_component() {
    let (m, k) = ModuleName::infos(&src("dir/Foo.fst/./"));
    assert_eq!(m.0, "foo");
    assert_eq!(k, ModuleKind::Implementation);
    let (m, k) = ModuleName::infos(&src(".fsti"));
    assert_eq!(m.0, "");
    assert_eq!(k, ModuleKind::Interface);
}

#[test]
fn try_infos_refuses_other_files() {
    for bad in ["a.ml", "a.fst.bak", "", "/", ".", "..", "a/..", "x/./."] {
        assert!(ModuleName::try_infos(&src(bad)).is_none(), "{:?}", bad);
    }
}

#[test]
fn module_names_compare_by_text() {
    assert!(ModuleName("a".to_string()) == ModuleName("a".to_string()));
    assert!(ModuleName("a".to_string()) != ModuleName("b".to_string()));
}

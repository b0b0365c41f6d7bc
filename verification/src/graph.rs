use vstd::prelude::*;
use crate::source::{Source, PathPart, paths_of, contains_source, components};
use crate::fstar::raw_deps::{Kind, ModuleKind, ModuleName, module_infos, graph_sources};
use crate::fstar::raw_deps;

verus! {

broadcast use crate::source::lemma_source_view;

/// The sources of a raw graph, as a set.
pub open spec fn raw_sources(g: Seq<(Seq<char>, Seq<(Kind, Seq<char>)>)>) -> Set<Seq<PathPart>> {
    graph_sources(g).to_set()
}

/// Every source of the raw graph names a module file (`.fst` or `.fsti`).
pub open spec fn infos_total(g: Seq<(Seq<char>, Seq<(Kind, Seq<char>)>)>) -> bool {
    forall|s: Seq<PathPart>| raw_sources(g).contains(s) ==> (#[trigger] module_infos(s)) is Some
}

/// Another of `srcs` holds the same module, of the same kind, as `s`.
pub open spec fn key_dup_in(srcs: Set<Seq<PathPart>>, s: Seq<PathPart>) -> bool {
    exists|s2: Seq<PathPart>| srcs.contains(s2) && s2 != s && #[trigger] module_infos(s2) == module_infos(s)
}

/// Another source of the raw graph holds the same module, of the same kind, as `s`.
pub open spec fn key_dup(g: Seq<(Seq<char>, Seq<(Kind, Seq<char>)>)>, s: Seq<PathPart>) -> bool {
    key_dup_in(raw_sources(g), s)
}

/// Two sources of the raw graph hold the same module, of the same kind.
pub open spec fn has_dups(g: Seq<(Seq<char>, Seq<(Kind, Seq<char>)>)>) -> bool {
    exists|s: Seq<PathPart>| raw_sources(g).contains(s) && #[trigger] key_dup(g, s)
}

/// Those of `srcs` that hold a module named `n` of which another of `srcs` holds the same kind too.
pub open spec fn dup_group_in(srcs: Set<Seq<PathPart>>, n: Seq<char>) -> Set<Seq<PathPart>> {
    Set::new(|s: Seq<PathPart>| srcs.contains(s) && key_dup_in(srcs, s) && module_infos(s).unwrap().0 == n)
}

/// The sources that hold a module named `n` of which another source holds the same kind too.
pub open spec fn dup_group(g: Seq<(Seq<char>, Seq<(Kind, Seq<char>)>)>, n: Seq<char>) -> Set<Seq<PathPart>> {
    dup_group_in(raw_sources(g), n)
}

/// The names of the modules that two of `srcs` hold with the same kind.
pub open spec fn dup_names_in(srcs: Set<Seq<PathPart>>) -> Set<Seq<char>> {
    Set::new(|n: Seq<char>| exists|s: Seq<PathPart>| #[trigger] dup_group_in(srcs, n).contains(s))
}

/// The names of the modules that two sources hold with the same kind.
pub open spec fn dup_names(g: Seq<(Seq<char>, Seq<(Kind, Seq<char>)>)>) -> Set<Seq<char>> {
    dup_names_in(raw_sources(g))
}

/// The source `s`, one of `srcs`, holds the module `m` with the kind `k`.
pub open spec fn holds_module(srcs: Set<Seq<PathPart>>, s: Seq<PathPart>, m: Seq<char>, k: ModuleKind) -> bool {
    srcs.contains(s) && module_infos(s) == Some((m, k))
}

/// The source `s` of the raw graph holds the module `m` with the kind `k`.
pub open spec fn provides(g: Seq<(Seq<char>, Seq<(Kind, Seq<char>)>)>, s: Seq<PathPart>, m: Seq<char>, k: ModuleKind) -> bool {
    holds_module(raw_sources(g), s, m, k)
}

/// One of `srcs` that holds the module `m` with the kind `k`, if there is one.
pub open spec fn provider_in(srcs: Set<Seq<PathPart>>, m: Seq<char>, k: ModuleKind) -> Option<Seq<PathPart>> {
    if exists|s: Seq<PathPart>| holds_module(srcs, s, m, k) {
        Some(choose|s: Seq<PathPart>| holds_module(srcs, s, m, k))
    } else {
        None
    }
}

/// A source of the raw graph that holds the module `m` with the kind `k`, if there is one.
pub open spec fn provider(g: Seq<(Seq<char>, Seq<(Kind, Seq<char>)>)>, m: Seq<char>, k: ModuleKind) -> Option<Seq<PathPart>> {
    provider_in(raw_sources(g), m, k)
}

/// The source that an edge leads to: the interface or the implementation of its module, as its
/// kind asks, the interface first where it prefers one.
pub open spec fn target_of(g: Seq<(Seq<char>, Seq<(Kind, Seq<char>)>)>, e: (Kind, Seq<char>)) -> Option<Seq<PathPart>> {
    match e.0 {
        Kind::UseInterface => provider(g, e.1, ModuleKind::Interface),
        Kind::UseImplementation => provider(g, e.1, ModuleKind::Implementation),
        Kind::FriendImplementation => provider(g, e.1, ModuleKind::Implementation),
        Kind::PreferInterface => match provider(g, e.1, ModuleKind::Interface) {
            Some(s) => Some(s),
            None => provider(g, e.1, ModuleKind::Implementation),
        },
    }
}

/// Every edge of the raw graph leads to a source of it.
pub open spec fn resolvable(g: Seq<(Seq<char>, Seq<(Kind, Seq<char>)>)>) -> bool {
    forall|i: int, j: int| 0 <= i < g.len() && 0 <= j < g[i].1.len() ==> (#[trigger] target_of(g, g[i].1[j])) is Some
}

/// An edge of the raw graph leads from `x` to `y`.
pub open spec fn edge_of(g: Seq<(Seq<char>, Seq<(Kind, Seq<char>)>)>, x: Seq<PathPart>, y: Seq<PathPart>) -> bool {
    exists|i: int, j: int|
        0 <= i < g.len() && components(g[i].0) == x && 0 <= j < g[i].1.len() && #[trigger] target_of(g, g[i].1[j]) == Some(y)
}

/// The resolved graph of a raw graph: each source, with the sources that its edges lead to.
pub open spec fn resolved(g: Seq<(Seq<char>, Seq<(Kind, Seq<char>)>)>) -> Map<Seq<PathPart>, Set<Seq<PathPart>>> {
    Map::new(|x: Seq<PathPart>| raw_sources(g).contains(x), |x: Seq<PathPart>| Set::new(|y: Seq<PathPart>| edge_of(g, x, y)))
}

/// The value of a module key.
pub open spec fn key_view(k: (ModuleName, ModuleKind)) -> (Seq<char>, ModuleKind) {
    (k.0@, k.1)
}

/// `srcs` lists the sources of `g` once each, and `keys` the module that each of them holds.
pub open spec fn table_ok(g: Seq<(Seq<char>, Seq<(Kind, Seq<char>)>)>, srcs: Seq<Source>, keys: Seq<(ModuleName, ModuleKind)>) -> bool {
    &&& srcs.len() == keys.len()
    &&& paths_of(srcs).no_duplicates()
    &&& paths_of(srcs).to_set() == raw_sources(g)
    &&& forall|i: int| 0 <= i < srcs.len() ==> module_infos(#[trigger] srcs[i]@) == Some(key_view(keys[i]))
}

proof fn lemma_table_member(g: Seq<(Seq<char>, Seq<(Kind, Seq<char>)>)>, srcs: Seq<Source>, keys: Seq<(ModuleName, ModuleKind)>, s: Seq<PathPart>)
    requires
        table_ok(g, srcs, keys),
    ensures
        raw_sources(g).contains(s) <==> exists|i: int| 0 <= i < srcs.len() && #[trigger] srcs[i]@ == s,
{
    if raw_sources(g).contains(s) {
        assert(paths_of(srcs).to_set().contains(s));
        let i = choose|i: int| 0 <= i < paths_of(srcs).len() && paths_of(srcs)[i] == s;
        assert(srcs[i]@ == s);
    }
    if exists|i: int| 0 <= i < srcs.len() && #[trigger] srcs[i]@ == s {
        let i = choose|i: int| 0 <= i < srcs.len() && #[trigger] srcs[i]@ == s;
        assert(paths_of(srcs)[i] == s);
        assert(paths_of(srcs).to_set().contains(s));
    }
}

/// Builds the table of the sources of `g` with their modules.
fn module_table(graph: &raw_deps::Graph) -> (r: (Vec<Source>, Vec<(ModuleName, ModuleKind)>))
    requires
        infos_total(graph@),
    ensures
        table_ok(graph@, r.0@, r.1@),
{
    let srcs = graph.sources();
    let mut keys: Vec<(ModuleName, ModuleKind)> = Vec::new();
    let mut i: usize = 0;
    while i < srcs.len()
        invariant
            i <= srcs@.len(),
            keys@.len() == i,
            infos_total(graph@),
            paths_of(srcs@).to_set() == graph_sources(graph@).to_set(),
            forall|j: int| 0 <= j < i ==> module_infos(#[trigger] srcs@[j]@) == Some(key_view(keys@[j])),
        decreases srcs@.len() - i,
    {
        proof {
            assert(paths_of(srcs@)[i as int] == srcs@[i as int]@);
            assert(paths_of(srcs@).to_set().contains(srcs@[i as int]@));
        }
        let k = ModuleName::infos(&srcs[i]);
        keys.push(k);
        i = i + 1;
    }
    (srcs, keys)
}

/// Whether two module keys are the same.
fn key_eq(a: &(ModuleName, ModuleKind), b: &(ModuleName, ModuleKind)) -> (r: bool)
    ensures
        r == (key_view(*a) == key_view(*b)),
{
    a.0 == b.0 && a.1 == b.1
}

/// The first index of the key `(m, k)` in `keys`.
fn find_key(keys: &Vec<(ModuleName, ModuleKind)>, m: &ModuleName, k: ModuleKind) -> (r: Option<usize>)
    ensures
        match r {
            Some(i) => i < keys@.len() && key_view(keys@[i as int]) == (m@, k),
            None => forall|i: int| 0 <= i < keys@.len() ==> key_view(#[trigger] keys@[i]) != (m@, k),
        },
{
    let mut i: usize = 0;
    while i < keys.len()
        invariant
            i <= keys@.len(),
            forall|j: int| 0 <= j < i ==> key_view(#[trigger] keys@[j]) != (m@, k),
        decreases keys@.len() - i,
    {
        if keys[i].0 == *m && keys[i].1 == k {
            return Some(i);
        }
        i = i + 1;
    }
    None
}

/// Whether another entry of `keys` equals the one at `i`.
fn is_dup(keys: &Vec<(ModuleName, ModuleKind)>, i: usize) -> (r: bool)
    requires
        i < keys@.len(),
    ensures
        r == exists|j: int| 0 <= j < keys@.len() && j != i && #[trigger] key_view(keys@[j]) == key_view(keys@[i as int]),
{
    let mut j: usize = 0;
    while j < keys.len()
        invariant
            j <= keys@.len(),
            i < keys@.len(),
            forall|t: int| 0 <= t < j && t != i ==> #[trigger] key_view(keys@[t]) != key_view(keys@[i as int]),
        decreases keys@.len() - j,
    {
        if j != i && key_eq(&keys[j], &keys[i]) {
            return true;
        }
        j = j + 1;
    }
    false
}

proof fn lemma_key_dup_index(g: Seq<(Seq<char>, Seq<(Kind, Seq<char>)>)>, srcs: Seq<Source>, keys: Seq<(ModuleName, ModuleKind)>, i: int)
    requires
        table_ok(g, srcs, keys),
        0 <= i < srcs.len(),
    ensures
        key_dup(g, srcs[i]@) <==> exists|j: int| 0 <= j < keys.len() && j != i && #[trigger] key_view(keys[j]) == key_view(keys[i]),
{
    let s = srcs[i]@;
    if key_dup(g, s) {
        let s2 = choose|s2: Seq<PathPart>| raw_sources(g).contains(s2) && s2 != s && #[trigger] module_infos(s2) == module_infos(s);
        lemma_table_member(g, srcs, keys, s2);
        let j = choose|j: int| 0 <= j < srcs.len() && #[trigger] srcs[j]@ == s2;
        assert(module_infos(srcs[j]@) == Some(key_view(keys[j])));
        assert(key_view(keys[j]) == key_view(keys[i]));
    }
    if exists|j: int| 0 <= j < keys.len() && j != i && #[trigger] key_view(keys[j]) == key_view(keys[i]) {
        let j = choose|j: int| 0 <= j < keys.len() && j != i && #[trigger] key_view(keys[j]) == key_view(keys[i]);
        let s2 = srcs[j]@;
        assert(paths_of(srcs)[j] == s2 && paths_of(srcs)[i] == s);
        assert(s2 != s);
        lemma_table_member(g, srcs, keys, s2);
        assert(module_infos(s2) == Some(key_view(keys[j])));
        assert(module_infos(s) == Some(key_view(keys[i])));
    }
}

proof fn lemma_provider_index(g: Seq<(Seq<char>, Seq<(Kind, Seq<char>)>)>, srcs: Seq<Source>, keys: Seq<(ModuleName, ModuleKind)>, m: Seq<char>, k: ModuleKind, r: Option<usize>)
    requires
        table_ok(g, srcs, keys),
        !has_dups(g),
        match r {
            Some(i) => i < keys.len() && key_view(keys[i as int]) == (m, k),
            None => forall|i: int| 0 <= i < keys.len() ==> key_view(#[trigger] keys[i]) != (m, k),
        },
    ensures
        match r {
            Some(i) => provider(g, m, k) == Some(srcs[i as int]@),
            None => provider(g, m, k) is None,
        },
{
    match r {
        Some(i) => {
            let i = i as int;
            lemma_table_member(g, srcs, keys, srcs[i]@);
            assert(provides(g, srcs[i]@, m, k));
            let s = choose|s: Seq<PathPart>| holds_module(raw_sources(g), s, m, k);
            assert(provides(g, s, m, k));
            if s != srcs[i]@ {
                assert(key_dup(g, srcs[i]@));
                assert(raw_sources(g).contains(srcs[i]@));
            }
        },
        None => {
            if exists|s: Seq<PathPart>| holds_module(raw_sources(g), s, m, k) {
                let s = choose|s: Seq<PathPart>| holds_module(raw_sources(g), s, m, k);
                lemma_table_member(g, srcs, keys, s);
                let j = choose|j: int| 0 <= j < srcs.len() && #[trigger] srcs[j]@ == s;
                assert(key_view(keys[j]) == (m, k));
            }
        },
    }
}
/// The source that the edge `e` leads to, as an index of `srcs`.
fn resolve(srcs: &Vec<Source>, keys: &Vec<(ModuleName, ModuleKind)>, e: &raw_deps::Edge, Ghost(g): Ghost<Seq<(Seq<char>, Seq<(Kind, Seq<char>)>)>>) -> (r: usize)
    requires
        table_ok(g, srcs@, keys@),
        !has_dups(g),
        target_of(g, e@) is Some,
    ensures
        r < srcs@.len(),
        target_of(g, e@) == Some(srcs@[r as int]@),
{
    let iface = find_key(keys, &e.1, ModuleKind::Interface);
    let imp = find_key(keys, &e.1, ModuleKind::Implementation);
    proof {
        lemma_provider_index(g, srcs@, keys@, e@.1, ModuleKind::Interface, iface);
        lemma_provider_index(g, srcs@, keys@, e@.1, ModuleKind::Implementation, imp);
    }
    let found = match e.0 {
        Kind::UseInterface => iface,
        Kind::UseImplementation => imp,
        Kind::FriendImplementation => imp,
        Kind::PreferInterface => match iface {
            Some(i) => Some(i),
            None => imp,
        },
    };
    match found {
        Some(i) => i,
        None => 0,
    }
}

/// Adds to `t` the sources that the edges `es` lead to, each once.
fn add_targets(t: &mut Vec<Source>, srcs: &Vec<Source>, keys: &Vec<(ModuleName, ModuleKind)>, es: &Vec<raw_deps::Edge>, Ghost(g): Ghost<Seq<(Seq<char>, Seq<(Kind, Seq<char>)>)>>)
    requires
        table_ok(g, srcs@, keys@),
        !has_dups(g),
        forall|j: int| 0 <= j < es@.len() ==> (#[trigger] target_of(g, es@[j]@)) is Some,
        paths_of(old(t)@).no_duplicates(),
    ensures
        paths_of(final(t)@).no_duplicates(),
        forall|y: Seq<PathPart>| #[trigger] paths_of(final(t)@).contains(y) <==> (paths_of(old(t)@).contains(y)
            || exists|j: int| 0 <= j < es@.len() && #[trigger] target_of(g, es@[j]@) == Some(y)),
{
    let ghost t0 = paths_of(t@);
    let mut j: usize = 0;
    while j < es.len()
        invariant
            j <= es@.len(),
            table_ok(g, srcs@, keys@),
            !has_dups(g),
            forall|j: int| 0 <= j < es@.len() ==> (#[trigger] target_of(g, es@[j]@)) is Some,
            paths_of(t@).no_duplicates(),
            forall|y: Seq<PathPart>| #[trigger] paths_of(t@).contains(y) <==> (t0.contains(y)
                || exists|i: int| 0 <= i < j && #[trigger] target_of(g, es@[i]@) == Some(y)),
        decreases es@.len() - j,
    {
        let ghost ej = es@[j as int]@;
        assert(target_of(g, ej) is Some);
        let r = resolve(srcs, keys, &es[j], Ghost(g));
        let y = &srcs[r];
        let ghost old_t = paths_of(t@);
        if !contains_source(t, y) {
            t.push(y.clone());
            proof {
                assert(paths_of(t@) =~= old_t.push(y@));
                assert forall|a: int, b: int| 0 <= a < b < paths_of(t@).len() implies paths_of(t@)[a] != paths_of(t@)[b] by {
                    if b == old_t.len() {
                        assert(old_t.contains(old_t[a]));
                    }
                }
            }
        }
        proof {
            assert forall|z: Seq<PathPart>| #[trigger] paths_of(t@).contains(z) <==> (t0.contains(z)
                || exists|i: int| 0 <= i < j + 1 && #[trigger] target_of(g, es@[i]@) == Some(z)) by {
                if paths_of(t@).contains(z) {
                    if !old_t.contains(z) {
                        if paths_of(t@).len() > old_t.len() {
                            let k = choose|k: int| 0 <= k < paths_of(t@).len() && paths_of(t@)[k] == z;
                            if k < old_t.len() {
                                assert(old_t[k] == z);
                            }
                        }
                        assert(z == y@);
                        assert(target_of(g, es@[j as int]@) == Some(z));
                    } else {
                        if !t0.contains(z) {
                            let i = choose|i: int| 0 <= i < j && #[trigger] target_of(g, es@[i]@) == Some(z);
                            assert(0 <= i < j + 1);
                        }
                    }
                }
                if exists|i: int| 0 <= i < j + 1 && #[trigger] target_of(g, es@[i]@) == Some(z) {
                    let i = choose|i: int| 0 <= i < j + 1 && #[trigger] target_of(g, es@[i]@) == Some(z);
                    if i == j {
                        assert(z == y@);
                        if paths_of(t@).len() > old_t.len() {
                            assert(paths_of(t@)[old_t.len() as int] == z);
                        }
                    } else {
                        assert(old_t.contains(z));
                        let k = choose|k: int| 0 <= k < old_t.len() && old_t[k] == z;
                        assert(paths_of(t@)[k] == z);
                    }
                }
                if t0.contains(z) {
                    assert(old_t.contains(z));
                    let k = choose|k: int| 0 <= k < old_t.len() && old_t[k] == z;
                    assert(paths_of(t@)[k] == z);
                }
            }
        }
        j = j + 1;
    }
}
/// The sources that the edges of `x` lead to, each once.
fn targets_of(graph: &raw_deps::Graph, srcs: &Vec<Source>, keys: &Vec<(ModuleName, ModuleKind)>, x: &Source) -> (t: Vec<Source>)
    requires
        table_ok(graph@, srcs@, keys@),
        !has_dups(graph@),
        resolvable(graph@),
    ensures
        paths_of(t@).no_duplicates(),
        forall|y: Seq<PathPart>| #[trigger] paths_of(t@).contains(y) <==> edge_of(graph@, x@, y),
{
    let ghost g = graph@;
    let mut t: Vec<Source> = Vec::new();
    let mut i: usize = 0;
    while i < graph.0.len()
        invariant
            i <= graph.0@.len(),
            g == graph@,
            table_ok(g, srcs@, keys@),
            !has_dups(g),
            resolvable(g),
            paths_of(t@).no_duplicates(),
            forall|y: Seq<PathPart>| #[trigger] paths_of(t@).contains(y) <==> exists|a: int, b: int|
                0 <= a < i && components(g[a].0) == x@ && 0 <= b < g[a].1.len() && #[trigger] target_of(g, g[a].1[b]) == Some(y),
        decreases graph.0@.len() - i,
    {
        let ghost old_t = paths_of(t@);
        assert(g[i as int] == raw_deps::entry_view(graph.0@[i as int]));
        if graph.0[i].0 == *x {
            let es = &graph.0[i].1;
            assert(g[i as int].1 == raw_deps::edges_view(es@));
            proof {
                assert forall|j: int| 0 <= j < es@.len() implies (#[trigger] target_of(g, es@[j]@)) is Some by {
                    assert(g[i as int].1[j] == es@[j]@);
                }
            }
            add_targets(&mut t, srcs, keys, es, Ghost(g));
            proof {
                assert forall|y: Seq<PathPart>| #[trigger] paths_of(t@).contains(y) <==> exists|a: int, b: int|
                    0 <= a < i + 1 && components(g[a].0) == x@ && 0 <= b < g[a].1.len() && #[trigger] target_of(g, g[a].1[b]) == Some(y) by {
                    if paths_of(t@).contains(y) && !old_t.contains(y) {
                        let j = choose|j: int| 0 <= j < es@.len() && #[trigger] target_of(g, es@[j]@) == Some(y);
                        assert(g[i as int].1[j] == es@[j]@);
                    }
                    if exists|a: int, b: int| 0 <= a < i + 1 && components(g[a].0) == x@ && 0 <= b < g[a].1.len() && #[trigger] target_of(g, g[a].1[b]) == Some(y) {
                        let (a, b) = choose|a: int, b: int| 0 <= a < i + 1 && components(g[a].0) == x@ && 0 <= b < g[a].1.len() && #[trigger] target_of(g, g[a].1[b]) == Some(y);
                        if a == i {
                            assert(g[i as int].1[b] == es@[b]@);
                        }
                    }
                }
            }
        } else {
            proof {
                assert forall|y: Seq<PathPart>| #[trigger] paths_of(t@).contains(y) <==> exists|a: int, b: int|
                    0 <= a < i + 1 && components(g[a].0) == x@ && 0 <= b < g[a].1.len() && #[trigger] target_of(g, g[a].1[b]) == Some(y) by {
                    if exists|a: int, b: int| 0 <= a < i + 1 && components(g[a].0) == x@ && 0 <= b < g[a].1.len() && #[trigger] target_of(g, g[a].1[b]) == Some(y) {
                        let (a, b) = choose|a: int, b: int| 0 <= a < i + 1 && components(g[a].0) == x@ && 0 <= b < g[a].1.len() && #[trigger] target_of(g, g[a].1[b]) == Some(y);
                        assert(a != i);
                    }
                }
            }
        }
        i = i + 1;
    }
    t
}
/// The resolved dependency graph: each source, with the sources that it depends on.
#[derive(Debug)]
pub struct Graph {
    nodes: Vec<(Source, Vec<Source>)>,
}

/// The sources of a list of nodes.
pub open spec fn node_keys(nodes: Seq<(Source, Vec<Source>)>) -> Seq<Seq<PathPart>> {
    nodes.map_values(|e: (Source, Vec<Source>)| e.0@)
}

impl Graph {
    /// Each source stands once, and so does each source among its dependencies.
    #[verifier::type_invariant]
    spec fn well_formed(self) -> bool {
        &&& node_keys(self.nodes@).no_duplicates()
        &&& forall|i: int| 0 <= i < self.nodes@.len() ==> paths_of(#[trigger] self.nodes@[i].1@).no_duplicates()
    }
}

impl View for Graph {
    type V = Map<Seq<PathPart>, Set<Seq<PathPart>>>;

    closed spec fn view(&self) -> Map<Seq<PathPart>, Set<Seq<PathPart>>> {
        Map::new(
            |x: Seq<PathPart>| node_keys(self.nodes@).contains(x),
            |x: Seq<PathPart>| paths_of(self.nodes@[node_keys(self.nodes@).index_of(x)].1@).to_set(),
        )
    }
}

impl Graph {
    /// The sources that `x` depends on, each once; none where `x` is no source of the graph.
    pub fn dependencies(&self, x: &Source) -> (r: Option<Vec<Source>>)
        ensures
            match r {
                Some(v) => self@.dom().contains(x@) && paths_of(v@).no_duplicates() && paths_of(v@).to_set() == self@[x@],
                None => !self@.dom().contains(x@),
            },
    {
        proof { use_type_invariant(self); }
        let mut i: usize = 0;
        while i < self.nodes.len()
            invariant
                i <= self.nodes@.len(),
                forall|j: int| 0 <= j < i ==> node_keys(self.nodes@)[j] != x@,
            decreases self.nodes@.len() - i,
        {
            if self.nodes[i].0 == *x {
                let v = clone_sources(&self.nodes[i].1);
                proof {
                    use_type_invariant(self);
                    let ks = node_keys(self.nodes@);
                    assert(ks[i as int] == x@);
                    assert(ks.contains(x@));
                    let k = ks.index_of(x@);
                    assert(0 <= k < ks.len() && ks[k] == x@);
                    assert(k == i);
                }
                return Some(v);
            }
            i = i + 1;
        }
        None
    }
}

/// A copy of a list of sources.
fn clone_sources(v: &Vec<Source>) -> (r: Vec<Source>)
    ensures
        paths_of(r@) == paths_of(v@),
{
    let mut r: Vec<Source> = Vec::new();
    let mut i: usize = 0;
    while i < v.len()
        invariant
            i <= v@.len(),
            paths_of(r@) == paths_of(v@).take(i as int),
        decreases v@.len() - i,
    {
        let c = v[i].clone();
        assert(c@ == v@[i as int]@);
        let ghost old_r = r@;
        r.push(c);
        proof {
            assert(paths_of(r@) =~= paths_of(old_r).push(c@));
            assert(paths_of(r@) =~= paths_of(v@).take(i + 1));
        }
        i = i + 1;
    }
    assert(paths_of(v@).take(v@.len() as int) =~= paths_of(v@));
    r
}
/// The resolved graph of a raw graph with its table of modules.
fn build(graph: &raw_deps::Graph, srcs: &Vec<Source>, keys: &Vec<(ModuleName, ModuleKind)>) -> (r: Graph)
    requires
        table_ok(graph@, srcs@, keys@),
        !has_dups(graph@),
        resolvable(graph@),
    ensures
        r@ == resolved(graph@),
{
    let mut nodes: Vec<(Source, Vec<Source>)> = Vec::new();
    let mut a: usize = 0;
    while a < srcs.len()
        invariant
            a <= srcs@.len(),
            table_ok(graph@, srcs@, keys@),
            !has_dups(graph@),
            resolvable(graph@),
            node_keys(nodes@) == paths_of(srcs@).take(a as int),
            forall|i: int| 0 <= i < a ==> paths_of(#[trigger] nodes@[i].1@).no_duplicates(),
            forall|i: int, y: Seq<PathPart>| 0 <= i < a ==> (#[trigger] paths_of(nodes@[i].1@).contains(y) <==> edge_of(graph@, srcs@[i]@, y)),
        decreases srcs@.len() - a,
    {
        let t = targets_of(graph, srcs, keys, &srcs[a]);
        let x = srcs[a].clone();
        let ghost old_nodes = nodes@;
        nodes.push((x, t));
        proof {
            assert(node_keys(nodes@) =~= paths_of(srcs@).take(a + 1)) by {
                assert(node_keys(nodes@) =~= node_keys(old_nodes).push(x@));
            }
            assert forall|i: int, y: Seq<PathPart>| 0 <= i < a + 1 implies (#[trigger] paths_of(nodes@[i].1@).contains(y) <==> edge_of(graph@, srcs@[i]@, y)) by {
                if i < a {
                    assert(nodes@[i] == old_nodes[i]);
                }
            }
            assert forall|i: int| 0 <= i < a + 1 implies paths_of(#[trigger] nodes@[i].1@).no_duplicates() by {
                if i < a {
                    assert(nodes@[i] == old_nodes[i]);
                }
            }
        }
        a = a + 1;
    }
    proof {
        assert(paths_of(srcs@).take(srcs@.len() as int) =~= paths_of(srcs@));
    }
    let r = Graph { nodes };
    proof {
        let g = graph@;
        let ks = node_keys(r.nodes@);
        assert(ks == paths_of(srcs@));
        assert(r@.dom() =~= resolved(g).dom()) by {
            assert forall|x: Seq<PathPart>| r@.dom().contains(x) <==> resolved(g).dom().contains(x) by {
                assert(paths_of(srcs@).to_set().contains(x) <==> paths_of(srcs@).contains(x));
            }
        }
        assert forall|x: Seq<PathPart>| #[trigger] r@.dom().contains(x) implies r@[x] == resolved(g)[x] by {
            let k = ks.index_of(x);
            let i = choose|i: int| 0 <= i < ks.len() && ks[i] == x;
            assert(0 <= k < ks.len() && ks[k] == x);
            assert(paths_of(srcs@)[k] == srcs@[k]@);
            assert(r@[x] =~= resolved(g)[x]) by {
                assert forall|y: Seq<PathPart>| r@[x].contains(y) <==> resolved(g)[x].contains(y) by {
                    assert(paths_of(r.nodes@[k].1@).contains(y) <==> edge_of(g, srcs@[k]@, y));
                }
            }
        }
        assert(r@ =~= resolved(g));
    }
    r
}
/// The groups of sources that hold the same module, of the same kind, as another source.
#[derive(Debug)]
pub struct DuplicatedModulesError(pub Vec<Vec<Source>>);

/// The sets of paths of a list of groups.
pub open spec fn group_sets(groups: Seq<Vec<Source>>) -> Seq<Set<Seq<PathPart>>> {
    groups.map_values(|v: Vec<Source>| paths_of(v@).to_set())
}

/// `groups` lists, once each and in some order, the group of each module name that two of
/// `srcs` hold with the same kind: every one of `srcs` that holds that name where another holds
/// the same module with the same kind.
pub open spec fn groups_match_in(srcs: Set<Seq<PathPart>>, groups: Seq<Vec<Source>>) -> bool {
    &&& forall|i: int| 0 <= i < groups.len() ==> paths_of(#[trigger] groups[i]@).no_duplicates()
    &&& forall|i: int| 0 <= i < groups.len() ==> exists|n: Seq<char>|
        dup_names_in(srcs).contains(n) && #[trigger] group_sets(groups)[i] == dup_group_in(srcs, n)
    &&& forall|n: Seq<char>| dup_names_in(srcs).contains(n) ==> exists|i: int|
        0 <= i < groups.len() && group_sets(groups)[i] == #[trigger] dup_group_in(srcs, n)
    &&& group_sets(groups).no_duplicates()
}

/// `groups` lists, once each and in some order, the group of each module name that two sources
/// of `g` hold with the same kind.
pub open spec fn groups_match(g: Seq<(Seq<char>, Seq<(Kind, Seq<char>)>)>, groups: Seq<Vec<Source>>) -> bool {
    groups_match_in(raw_sources(g), groups)
}

/// The sources at the indices of `srcs` whose flag is set and whose module is named `n`.
fn group_members(srcs: &Vec<Source>, keys: &Vec<(ModuleName, ModuleKind)>, flags: &Vec<bool>, n: &ModuleName) -> (r: Vec<Source>)
    requires
        srcs@.len() == keys@.len(),
        flags@.len() == keys@.len(),
        paths_of(srcs@).no_duplicates(),
    ensures
        paths_of(r@).no_duplicates(),
        forall|s: Seq<PathPart>| #[trigger] paths_of(r@).contains(s) <==> exists|i: int|
            0 <= i < srcs@.len() && flags@[i] && keys@[i].0@ == n@ && #[trigger] srcs@[i]@ == s,
{
    let mut r: Vec<Source> = Vec::new();
    let mut i: usize = 0;
    while i < srcs.len()
        invariant
            i <= srcs@.len(),
            srcs@.len() == keys@.len(),
            flags@.len() == keys@.len(),
            paths_of(srcs@).no_duplicates(),
            paths_of(r@).no_duplicates(),
            forall|s: Seq<PathPart>| #[trigger] paths_of(r@).contains(s) <==> exists|j: int|
                0 <= j < i && flags@[j] && keys@[j].0@ == n@ && #[trigger] srcs@[j]@ == s,
        decreases srcs@.len() - i,
    {
        let ghost old_r = paths_of(r@);
        if flags[i] && keys[i].0 == *n {
            let c = srcs[i].clone();
            r.push(c);
            proof {
                assert(paths_of(r@) =~= old_r.push(c@));
                assert(!old_r.contains(c@)) by {
                    if old_r.contains(c@) {
                        let j = choose|j: int| 0 <= j < i && flags@[j] && keys@[j].0@ == n@ && #[trigger] srcs@[j]@ == c@;
                        assert(paths_of(srcs@)[j] == paths_of(srcs@)[i as int]);
                    }
                }
                assert forall|a: int, b: int| 0 <= a < b < paths_of(r@).len() implies paths_of(r@)[a] != paths_of(r@)[b] by {
                    if b == old_r.len() {
                        assert(old_r.contains(old_r[a]));
                    }
                }
            }
        }
        proof {
            assert forall|s: Seq<PathPart>| #[trigger] paths_of(r@).contains(s) <==> exists|j: int|
                0 <= j < i + 1 && flags@[j] && keys@[j].0@ == n@ && #[trigger] srcs@[j]@ == s by {
                if paths_of(r@).contains(s) {
                    let k = choose|k: int| 0 <= k < paths_of(r@).len() && paths_of(r@)[k] == s;
                    if k < old_r.len() {
                        assert(old_r[k] == s);
                        assert(old_r.contains(s));
                        let j = choose|j: int| 0 <= j < i && flags@[j] && keys@[j].0@ == n@ && #[trigger] srcs@[j]@ == s;
                        assert(0 <= j < i + 1);
                    } else {
                        assert(srcs@[i as int]@ == s);
                    }
                }
                if exists|j: int| 0 <= j < i + 1 && flags@[j] && keys@[j].0@ == n@ && #[trigger] srcs@[j]@ == s {
                    let j = choose|j: int| 0 <= j < i + 1 && flags@[j] && keys@[j].0@ == n@ && #[trigger] srcs@[j]@ == s;
                    if j < i {
                        assert(old_r.contains(s));
                        let k = choose|k: int| 0 <= k < old_r.len() && old_r[k] == s;
                        assert(paths_of(r@)[k] == s);
                    } else {
                        assert(paths_of(r@)[old_r.len() as int] == s);
                    }
                }
            }
        }
        i = i + 1;
    }
    r
}
/// The values of a list of module names.
pub open spec fn name_views(v: Seq<ModuleName>) -> Seq<Seq<char>> {
    v.map_values(|m: ModuleName| m@)
}

/// `names` holds the name `m`.
pub open spec fn has_name(names: Seq<ModuleName>, m: Seq<char>) -> bool {
    exists|a: int| 0 <= a < names.len() && #[trigger] names[a]@ == m
}

/// An entry of `keys` before `i` whose flag is set names the module `m`.
pub open spec fn flagged_name(keys: Seq<(ModuleName, ModuleKind)>, flags: Seq<bool>, i: int, m: Seq<char>) -> bool {
    exists|j: int| 0 <= j < i && flags[j] && #[trigger] keys[j].0@ == m
}

/// Whether `names` holds a name equal to `n`.
fn contains_name(names: &Vec<ModuleName>, n: &ModuleName) -> (r: bool)
    ensures
        r == exists|i: int| 0 <= i < names@.len() && #[trigger] names@[i]@ == n@,
{
    let mut i: usize = 0;
    while i < names.len()
        invariant
            i <= names@.len(),
            forall|j: int| 0 <= j < i ==> #[trigger] names@[j]@ != n@,
        decreases names@.len() - i,
    {
        if names[i] == *n {
            return true;
        }
        i = i + 1;
    }
    false
}

proof fn lemma_dup_group_index(g: Seq<(Seq<char>, Seq<(Kind, Seq<char>)>)>, srcs: Seq<Source>, keys: Seq<(ModuleName, ModuleKind)>, flags: Seq<bool>, n: Seq<char>, s: Seq<PathPart>)
    requires
        table_ok(g, srcs, keys),
        flags.len() == keys.len(),
        forall|i: int| 0 <= i < flags.len() ==> flags[i] == #[trigger] key_dup(g, srcs[i]@),
    ensures
        dup_group(g, n).contains(s) <==> exists|i: int|
            0 <= i < srcs.len() && flags[i] && keys[i].0@ == n && #[trigger] srcs[i]@ == s,
{
    lemma_table_member(g, srcs, keys, s);
    if dup_group(g, n).contains(s) {
        let i = choose|i: int| 0 <= i < srcs.len() && #[trigger] srcs[i]@ == s;
        assert(module_infos(srcs[i]@) == Some(key_view(keys[i])));
        assert(key_dup(g, srcs[i]@));
    }
    if exists|i: int| 0 <= i < srcs.len() && flags[i] && keys[i].0@ == n && #[trigger] srcs[i]@ == s {
        let i = choose|i: int| 0 <= i < srcs.len() && flags[i] && keys[i].0@ == n && #[trigger] srcs[i]@ == s;
        assert(module_infos(srcs[i]@) == Some(key_view(keys[i])));
        assert(key_dup(g, srcs[i]@));
    }
}

/// The groups built from the flags and the names of a table are those of its duplicated modules.
proof fn lemma_dup_groups_match(
    g: Seq<(Seq<char>, Seq<(Kind, Seq<char>)>)>,
    srcs: Seq<Source>,
    keys: Seq<(ModuleName, ModuleKind)>,
    flags: Seq<bool>,
    names: Seq<ModuleName>,
    groups: Seq<Vec<Source>>,
)
    requires
        table_ok(g, srcs, keys),
        flags.len() == keys.len(),
        forall|j: int| 0 <= j < flags.len() ==> flags[j] == #[trigger] key_dup(g, srcs[j]@),
        name_views(names).no_duplicates(),
        forall|m: Seq<char>| #[trigger] has_name(names, m) <==> flagged_name(keys, flags, keys.len() as int, m),
        groups.len() == names.len(),
        forall|p: int| 0 <= p < groups.len() ==> paths_of(#[trigger] groups[p]@).no_duplicates(),
        forall|p: int| 0 <= p < groups.len() ==> #[trigger] group_sets(groups)[p] == dup_group(g, names[p]@),
    ensures
        groups_match(g, groups),
        groups.len() > 0 <==> has_dups(g),
{
    let rs = raw_sources(g);
    let names_v = name_views(names);
    let len = keys.len() as int;
    assert forall|n: Seq<char>| #[trigger] dup_names_in(rs).contains(n) <==> flagged_name(keys, flags, len, n) by {
        if dup_names_in(rs).contains(n) {
            let s = choose|s: Seq<PathPart>| #[trigger] dup_group_in(rs, n).contains(s);
            lemma_dup_group_index(g, srcs, keys, flags, n, s);
            let j = choose|j: int| 0 <= j < srcs.len() && flags[j] && keys[j].0@ == n && #[trigger] srcs[j]@ == s;
            assert(keys[j].0@ == n);
        }
        if flagged_name(keys, flags, len, n) {
            let j = choose|j: int| 0 <= j < len && flags[j] && #[trigger] keys[j].0@ == n;
            lemma_dup_group_index(g, srcs, keys, flags, n, srcs[j]@);
            assert(dup_group_in(rs, n).contains(srcs[j]@));
        }
    }
    assert forall|i: int| 0 <= i < groups.len() implies exists|n: Seq<char>|
        dup_names_in(rs).contains(n) && #[trigger] group_sets(groups)[i] == dup_group_in(rs, n) by {
        let n = names[i]@;
        assert(has_name(names, n));
        assert(dup_names_in(rs).contains(n));
    }
    assert forall|n: Seq<char>| dup_names_in(rs).contains(n) implies exists|i: int|
        0 <= i < groups.len() && group_sets(groups)[i] == #[trigger] dup_group_in(rs, n) by {
        assert(has_name(names, n));
        let a = choose|a: int| 0 <= a < names.len() && #[trigger] names[a]@ == n;
        assert(group_sets(groups)[a] == dup_group_in(rs, n));
    }
    assert forall|a: int, b: int| 0 <= a < b < group_sets(groups).len() implies group_sets(groups)[a] != group_sets(groups)[b] by {
        let na = names[a]@;
        let nb = names[b]@;
        assert(names_v[a] != names_v[b]);
        assert(has_name(names, na));
        assert(dup_names_in(rs).contains(na));
        let s = choose|s: Seq<PathPart>| #[trigger] dup_group_in(rs, na).contains(s);
        assert(group_sets(groups)[a].contains(s));
        assert(!dup_group_in(rs, nb).contains(s));
    }
    if has_dups(g) {
        let s = choose|s: Seq<PathPart>| raw_sources(g).contains(s) && #[trigger] key_dup(g, s);
        lemma_table_member(g, srcs, keys, s);
        let j = choose|j: int| 0 <= j < srcs.len() && #[trigger] srcs[j]@ == s;
        assert(flags[j]);
        let n = keys[j].0@;
        assert(flagged_name(keys, flags, len, n));
        assert(has_name(names, n));
        let a = choose|a: int| 0 <= a < names.len() && #[trigger] names[a]@ == n;
    }
    if groups.len() > 0 {
        let n = names[0]@;
        assert(has_name(names, n));
        assert(dup_names_in(rs).contains(n));
        let s = choose|s: Seq<PathPart>| #[trigger] dup_group_in(rs, n).contains(s);
        assert(key_dup(g, s) && raw_sources(g).contains(s));
    }
}

/// The groups of sources that hold a module that another source holds with the same kind.
fn dup_groups(srcs: &Vec<Source>, keys: &Vec<(ModuleName, ModuleKind)>, Ghost(g): Ghost<Seq<(Seq<char>, Seq<(Kind, Seq<char>)>)>>) -> (r: Vec<Vec<Source>>)
    requires
        table_ok(g, srcs@, keys@),
    ensures
        groups_match(g, r@),
        r@.len() > 0 <==> has_dups(g),
{
    let mut flags: Vec<bool> = Vec::new();
    let mut i: usize = 0;
    while i < keys.len()
        invariant
            i <= keys@.len(),
            flags@.len() == i,
            table_ok(g, srcs@, keys@),
            forall|j: int| 0 <= j < i ==> flags@[j] == #[trigger] key_dup(g, srcs@[j]@),
        decreases keys@.len() - i,
    {
        let d = is_dup(keys, i);
        proof { lemma_key_dup_index(g, srcs@, keys@, i as int); }
        flags.push(d);
        i = i + 1;
    }
    let mut names: Vec<ModuleName> = Vec::new();
    let mut i: usize = 0;
    while i < keys.len()
        invariant
            i <= keys@.len(),
            flags@.len() == keys@.len(),
            name_views(names@).no_duplicates(),
            forall|m: Seq<char>| #[trigger] has_name(names@, m) <==> flagged_name(keys@, flags@, i as int, m),
        decreases keys@.len() - i,
    {
        let ghost old_names = names@;
        let ghost ki = keys@[i as int].0@;
        if flags[i] {
            let present = contains_name(&names, &keys[i].0);
            if !present {
                names.push(keys[i].0.clone());
                proof {
                    assert(name_views(names@) =~= name_views(old_names).push(ki));
                    assert(!name_views(old_names).contains(ki)) by {
                        if name_views(old_names).contains(ki) {
                            let a = choose|a: int| 0 <= a < name_views(old_names).len() && name_views(old_names)[a] == ki;
                            assert(old_names[a]@ == ki);
                        }
                    }
                    assert forall|a: int, b: int| 0 <= a < b < names@.len() implies #[trigger] name_views(names@)[a] != #[trigger] name_views(names@)[b] by {
                        if b == old_names.len() {
                            assert(name_views(old_names).contains(name_views(old_names)[a]));
                        } else {
                            assert(name_views(old_names)[a] != name_views(old_names)[b]);
                        }
                    }
                }
            }
        }
        proof {
            assert forall|m: Seq<char>| #[trigger] has_name(names@, m) <==> flagged_name(keys@, flags@, i + 1, m) by {
                if has_name(names@, m) {
                    let a = choose|a: int| 0 <= a < names@.len() && #[trigger] names@[a]@ == m;
                    if a < old_names.len() {
                        assert(names@[a] == old_names[a]);
                        assert(has_name(old_names, m));
                        assert(flagged_name(keys@, flags@, i as int, m));
                        let j = choose|j: int| 0 <= j < i && flags@[j] && #[trigger] keys@[j].0@ == m;
                        assert(0 <= j < i + 1 && flags@[j] && keys@[j].0@ == m);
                    } else {
                        assert(keys@[i as int].0@ == m && flags@[i as int]);
                    }
                }
                if flagged_name(keys@, flags@, i + 1, m) {
                    let j = choose|j: int| 0 <= j < i + 1 && flags@[j] && #[trigger] keys@[j].0@ == m;
                    if j < i {
                        assert(flagged_name(keys@, flags@, i as int, m));
                        assert(has_name(old_names, m));
                        let a = choose|a: int| 0 <= a < old_names.len() && #[trigger] old_names[a]@ == m;
                        assert(names@[a] == old_names[a]);
                    } else if names@.len() == old_names.len() {
                        assert(names@ == old_names);
                        let a = choose|a: int| 0 <= a < names@.len() && #[trigger] names@[a]@ == ki;
                        assert(names@[a]@ == m);
                    } else {
                        assert(names@[old_names.len() as int]@ == m);
                    }
                }
            }
        }
        i = i + 1;
    }
    let mut groups: Vec<Vec<Source>> = Vec::new();
    let mut q: usize = 0;
    while q < names.len()
        invariant
            q <= names@.len(),
            groups@.len() == q,
            table_ok(g, srcs@, keys@),
            flags@.len() == keys@.len(),
            forall|j: int| 0 <= j < flags@.len() ==> flags@[j] == #[trigger] key_dup(g, srcs@[j]@),
            name_views(names@).no_duplicates(),
            forall|m: Seq<char>| #[trigger] has_name(names@, m) <==> flagged_name(keys@, flags@, keys@.len() as int, m),
            forall|p: int| 0 <= p < q ==> paths_of(#[trigger] groups@[p]@).no_duplicates(),
            forall|p: int| 0 <= p < q ==> #[trigger] group_sets(groups@)[p] == dup_group(g, names@[p]@),
        decreases names@.len() - q,
    {
        let grp = group_members(srcs, keys, &flags, &names[q]);
        let ghost old_groups = groups@;
        proof {
            assert(paths_of(grp@).to_set() =~= dup_group(g, names@[q as int]@)) by {
                assert forall|s: Seq<PathPart>| paths_of(grp@).to_set().contains(s) <==> dup_group(g, names@[q as int]@).contains(s) by {
                    lemma_dup_group_index(g, srcs@, keys@, flags@, names@[q as int]@, s);
                }
            }
        }
        groups.push(grp);
        proof {
            assert(group_sets(groups@) =~= group_sets(old_groups).push(paths_of(grp@).to_set()));
            assert forall|p: int| 0 <= p < q + 1 implies paths_of(#[trigger] groups@[p]@).no_duplicates() by {
                if p < q {
                    assert(groups@[p] == old_groups[p]);
                }
            }
        }
        q = q + 1;
    }
    proof {
        lemma_dup_groups_match(g, srcs@, keys@, flags@, names@, groups@);
    }
    groups
}
/// Whether the edge `e` leads to a source.
fn edge_resolves(srcs: &Vec<Source>, keys: &Vec<(ModuleName, ModuleKind)>, e: &raw_deps::Edge, Ghost(g): Ghost<Seq<(Seq<char>, Seq<(Kind, Seq<char>)>)>>) -> (r: bool)
    requires
        table_ok(g, srcs@, keys@),
        !has_dups(g),
    ensures
        r == (target_of(g, e@) is Some),
{
    let iface = find_key(keys, &e.1, ModuleKind::Interface);
    let imp = find_key(keys, &e.1, ModuleKind::Implementation);
    proof {
        lemma_provider_index(g, srcs@, keys@, e@.1, ModuleKind::Interface, iface);
        lemma_provider_index(g, srcs@, keys@, e@.1, ModuleKind::Implementation, imp);
    }
    match e.0 {
        Kind::UseInterface => iface.is_some(),
        Kind::UseImplementation => imp.is_some(),
        Kind::FriendImplementation => imp.is_some(),
        Kind::PreferInterface => iface.is_some() || imp.is_some(),
    }
}

/// Whether every edge of the raw graph leads to a source.
fn all_resolve(graph: &raw_deps::Graph, srcs: &Vec<Source>, keys: &Vec<(ModuleName, ModuleKind)>) -> (r: bool)
    requires
        table_ok(graph@, srcs@, keys@),
        !has_dups(graph@),
    ensures
        r == resolvable(graph@),
{
    let ghost g = graph@;
    let mut i: usize = 0;
    while i < graph.0.len()
        invariant
            i <= graph.0@.len(),
            g == graph@,
            table_ok(g, srcs@, keys@),
            !has_dups(g),
            forall|a: int, b: int| 0 <= a < i && 0 <= b < g[a].1.len() ==> (#[trigger] target_of(g, g[a].1[b])) is Some,
        decreases graph.0@.len() - i,
    {
        let es = &graph.0[i].1;
        assert(g[i as int].1 == raw_deps::edges_view(es@));
        let mut j: usize = 0;
        while j < es.len()
            invariant
                j <= es@.len(),
                i < graph.0@.len(),
                g == graph@,
                es == &graph.0@[i as int].1,
                g[i as int].1 == raw_deps::edges_view(es@),
                table_ok(g, srcs@, keys@),
                !has_dups(g),
                forall|b: int| 0 <= b < j ==> (#[trigger] target_of(g, g[i as int].1[b])) is Some,
            decreases es@.len() - j,
        {
            if !edge_resolves(srcs, keys, &es[j], Ghost(g)) {
                assert(g[i as int].1[j as int] == es@[j as int]@);
                return false;
            }
            assert(g[i as int].1[j as int] == es@[j as int]@);
            j = j + 1;
        }
        proof {
            assert forall|a: int, b: int| 0 <= a < i + 1 && 0 <= b < g[a].1.len() implies (#[trigger] target_of(g, g[a].1[b])) is Some by {
                if a == i {
                    assert(target_of(g, g[i as int].1[b]) is Some);
                }
            }
        }
        i = i + 1;
    }
    true
}

/// Whether every source of `srcs` names a module file.
fn all_infos(srcs: &Vec<Source>) -> (r: bool)
    ensures
        r == forall|i: int| 0 <= i < srcs@.len() ==> (#[trigger] module_infos(srcs@[i]@)) is Some,
{
    let mut i: usize = 0;
    while i < srcs.len()
        invariant
            i <= srcs@.len(),
            forall|j: int| 0 <= j < i ==> (#[trigger] module_infos(srcs@[j]@)) is Some,
        decreases srcs@.len() - i,
    {
        if ModuleName::try_infos(&srcs[i]).is_none() {
            return false;
        }
        i = i + 1;
    }
    true
}

impl Graph {
    /// Resolves the raw graph: each of its sources with the sources that its edges lead to; or,
    /// where two sources hold the same module with the same kind, the groups of such sources.
    pub fn try_from(graph: raw_deps::Graph) -> (r: Result<Graph, DuplicatedModulesError>)
        requires
            infos_total(graph@),
            has_dups(graph@) || resolvable(graph@),
        ensures
            match r {
                Ok(g) => !has_dups(graph@) && g@ == resolved(graph@),
                Err(e) => has_dups(graph@) && groups_match(graph@, e.0@),
            },
    {
        let (srcs, keys) = module_table(&graph);
        let groups = dup_groups(&srcs, &keys, Ghost(graph@));
        if groups.len() > 0 {
            return Err(DuplicatedModulesError(groups));
        }
        Ok(build(&graph, &srcs, &keys))
    }

    /// Resolves the raw graph as `try_from` does, where it can: none where a source names no
    /// module file, or where no two sources hold the same module with the same kind and an edge
    /// leads to no source.
    pub fn checked_try_from(graph: raw_deps::Graph) -> (r: Option<Result<Graph, DuplicatedModulesError>>)
        ensures
            match r {
                None => !(infos_total(graph@) && (has_dups(graph@) || resolvable(graph@))),
                Some(Ok(g)) => infos_total(graph@) && !has_dups(graph@) && resolvable(graph@) && g@ == resolved(graph@),
                Some(Err(e)) => infos_total(graph@) && has_dups(graph@) && groups_match(graph@, e.0@),
            },
    {
        let srcs = graph.sources();
        if !all_infos(&srcs) {
            proof {
                let i = choose|i: int| 0 <= i < srcs@.len() && !(#[trigger] module_infos(srcs@[i]@) is Some);
                assert(paths_of(srcs@)[i] == srcs@[i]@);
                assert(paths_of(srcs@).to_set().contains(srcs@[i]@));
            }
            return None;
        }
        proof {
            assert forall|s: Seq<PathPart>| raw_sources(graph@).contains(s) implies (#[trigger] module_infos(s)) is Some by {
                assert(paths_of(srcs@).to_set().contains(s));
                let i = choose|i: int| 0 <= i < paths_of(srcs@).len() && paths_of(srcs@)[i] == s;
                assert(srcs@[i]@ == s);
            }
        }
        let (srcs, keys) = module_table(&graph);
        let groups = dup_groups(&srcs, &keys, Ghost(graph@));
        if groups.len() == 0 && !all_resolve(&graph, &srcs, &keys) {
            return None;
        }
        Some(Self::try_from(graph))
    }
}
/// What went wrong while building the dependency graph.
#[derive(Debug)]
pub enum Error {
    /// Two sources hold the same module with the same kind.
    DuplicatedModules(DuplicatedModulesError),
    /// F* failed, or printed no dependency graph.
    RawDepsError(raw_deps::Error),
}

/// The dependency graph of what F*'s `--dep raw` printed as `stdout`; none where a source of it
/// names no module file, or an edge leads to no source though no module is held twice.
pub fn dep_graph_of_output(stdout: String) -> (r: Option<Result<Graph, Error>>)
    ensures
        match r {
            None => exists|g: Seq<(Seq<char>, Seq<(Kind, Seq<char>)>)>|
                raw_deps::graph_ok(g) && raw_deps::graph_text(g) == stdout@
                && !(infos_total(g) && (has_dups(g) || resolvable(g))),
            Some(Err(Error::RawDepsError(raw_deps::Error::DepsParse(s)))) => s@ == stdout@
                && forall|g2: Seq<(Seq<char>, Seq<(Kind, Seq<char>)>)>| raw_deps::graph_ok(g2) ==> raw_deps::graph_text(g2) != stdout@,
            Some(Err(Error::RawDepsError(_))) => false,
            Some(Err(Error::DuplicatedModules(e))) => exists|g: Seq<(Seq<char>, Seq<(Kind, Seq<char>)>)>|
                raw_deps::graph_ok(g) && raw_deps::graph_text(g) == stdout@
                && infos_total(g) && has_dups(g) && groups_match(g, e.0@),
            Some(Ok(d)) => exists|g: Seq<(Seq<char>, Seq<(Kind, Seq<char>)>)>|
                raw_deps::graph_ok(g) && raw_deps::graph_text(g) == stdout@
                && infos_total(g) && !has_dups(g) && resolvable(g) && d@ == resolved(g),
        },
{
    let raw = match raw_deps::raw_deps_of_output(stdout) {
        Ok(g) => g,
        Err(e) => return Some(Err(Error::RawDepsError(e))),
    };
    match Graph::checked_try_from(raw) {
        None => None,
        Some(Ok(d)) => Some(Ok(d)),
        Some(Err(e)) => Some(Err(Error::DuplicatedModules(e))),
    }
}
/// An edge leads to a source of the raw graph that holds the module the edge names: an interface
/// where the edge uses one, an implementation where it uses or befriends one, and, where it
/// prefers an interface, the interface where there is one and else the implementation.
pub proof fn lemma_target_module(g: Seq<(Seq<char>, Seq<(Kind, Seq<char>)>)>, e: (Kind, Seq<char>), y: Seq<PathPart>)
    requires
        target_of(g, e) == Some(y),
    ensures
        raw_sources(g).contains(y),
        module_infos(y) matches Some((m, k)) && m == e.1 && match e.0 {
            Kind::UseInterface => k == ModuleKind::Interface,
            Kind::UseImplementation => k == ModuleKind::Implementation,
            Kind::FriendImplementation => k == ModuleKind::Implementation,
            Kind::PreferInterface => k == ModuleKind::Interface || (k == ModuleKind::Implementation
                && provider(g, e.1, ModuleKind::Interface) is None),
        },
{
    if exists|s: Seq<PathPart>| holds_module(raw_sources(g), s, e.1, ModuleKind::Interface) {
        let s = choose|s: Seq<PathPart>| holds_module(raw_sources(g), s, e.1, ModuleKind::Interface);
        assert(provides(g, s, e.1, ModuleKind::Interface));
    }
    if exists|s: Seq<PathPart>| holds_module(raw_sources(g), s, e.1, ModuleKind::Implementation) {
        let s = choose|s: Seq<PathPart>| holds_module(raw_sources(g), s, e.1, ModuleKind::Implementation);
        assert(provides(g, s, e.1, ModuleKind::Implementation));
    }
}

/// The resolved graph is closed: every source that a source depends on is itself a source of it.
pub proof fn lemma_resolved_closed(g: Seq<(Seq<char>, Seq<(Kind, Seq<char>)>)>, x: Seq<PathPart>, y: Seq<PathPart>)
    requires
        resolved(g).dom().contains(x),
        resolved(g)[x].contains(y),
    ensures
        resolved(g).dom().contains(y),
{
    let (i, j) = choose|i: int, j: int|
        0 <= i < g.len() && components(g[i].0) == x && 0 <= j < g[i].1.len() && #[trigger] target_of(g, g[i].1[j]) == Some(y);
    lemma_target_module(g, g[i].1[j], y);
}

/// Each group of sources that hold a module twice holds at least two sources, and every source of
/// it holds a module of the group's name that another source of the group holds with the same kind.
pub proof fn lemma_dup_group_pairs(g: Seq<(Seq<char>, Seq<(Kind, Seq<char>)>)>, n: Seq<char>, s: Seq<PathPart>)
    requires
        dup_group(g, n).contains(s),
    ensures
        exists|s2: Seq<PathPart>| #[trigger] dup_group(g, n).contains(s2) && s2 != s && module_infos(s2) == module_infos(s),
{
    let s2 = choose|s2: Seq<PathPart>| raw_sources(g).contains(s2) && s2 != s && #[trigger] module_infos(s2) == module_infos(s);
    assert(key_dup(g, s2)) by {
        assert(raw_sources(g).contains(s) && s != s2 && module_infos(s) == module_infos(s2));
    }
    assert(dup_group(g, n).contains(s2));
}

/// The groups of two different names share no source.
pub proof fn lemma_dup_groups_disjoint(g: Seq<(Seq<char>, Seq<(Kind, Seq<char>)>)>, n1: Seq<char>, n2: Seq<char>, s: Seq<PathPart>)
    requires
        n1 != n2,
    ensures
        !(dup_group(g, n1).contains(s) && dup_group(g, n2).contains(s)),
{
}
/// `g` and `g2` hold the same entries, in any order and any number of times.
pub open spec fn same_entries(g: Seq<(Seq<char>, Seq<(Kind, Seq<char>)>)>, g2: Seq<(Seq<char>, Seq<(Kind, Seq<char>)>)>) -> bool {
    &&& forall|i: int| 0 <= i < g.len() ==> exists|j: int| 0 <= j < g2.len() && g2[j] == #[trigger] g[i]
    &&& forall|j: int| 0 <= j < g2.len() ==> exists|i: int| 0 <= i < g.len() && #[trigger] g2[j] == g[i]
}

/// The order of the entries of a raw graph, and how often an entry stands in it, change nothing
/// of what resolving it gives: the same sources, the same resolved graph, the same duplicated
/// modules with the same groups, and the same inputs that it accepts.
pub proof fn lemma_entry_order(g: Seq<(Seq<char>, Seq<(Kind, Seq<char>)>)>, g2: Seq<(Seq<char>, Seq<(Kind, Seq<char>)>)>)
    requires
        same_entries(g, g2),
    ensures
        raw_sources(g) == raw_sources(g2),
        infos_total(g) == infos_total(g2),
        has_dups(g) == has_dups(g2),
        resolvable(g) == resolvable(g2),
        resolved(g) == resolved(g2),
        dup_names(g) == dup_names(g2),
        forall|n: Seq<char>| #[trigger] dup_group(g, n) == dup_group(g2, n),
        forall|v: Seq<Vec<Source>>| #[trigger] groups_match(g, v) == groups_match(g2, v),
{
    assert(raw_sources(g) =~= raw_sources(g2)) by {
        assert forall|x: Seq<PathPart>| raw_sources(g).contains(x) implies raw_sources(g2).contains(x) by {
            let i = choose|i: int| 0 <= i < graph_sources(g).len() && graph_sources(g)[i] == x;
            let j = choose|j: int| 0 <= j < g2.len() && g2[j] == #[trigger] g[i];
            assert(graph_sources(g2)[j] == x);
        }
        assert forall|x: Seq<PathPart>| raw_sources(g2).contains(x) implies raw_sources(g).contains(x) by {
            let j = choose|j: int| 0 <= j < graph_sources(g2).len() && graph_sources(g2)[j] == x;
            let i = choose|i: int| 0 <= i < g.len() && #[trigger] g2[j] == g[i];
            assert(graph_sources(g)[i] == x);
        }
    }
    assert(has_dups(g) == has_dups(g2)) by {
        if has_dups(g) {
            let s = choose|s: Seq<PathPart>| raw_sources(g).contains(s) && #[trigger] key_dup(g, s);
            assert(key_dup(g2, s));
        }
        if has_dups(g2) {
            let s = choose|s: Seq<PathPart>| raw_sources(g2).contains(s) && #[trigger] key_dup(g2, s);
            assert(key_dup(g, s));
        }
    }
    assert forall|e: (Kind, Seq<char>)| #[trigger] target_of(g, e) == target_of(g2, e) by {}
    assert(resolvable(g) == resolvable(g2)) by {
        if resolvable(g) {
            assert forall|j: int, b: int| 0 <= j < g2.len() && 0 <= b < g2[j].1.len() implies (#[trigger] target_of(g2, g2[j].1[b])) is Some by {
                let i = choose|i: int| 0 <= i < g.len() && #[trigger] g2[j] == g[i];
                assert(target_of(g, g[i].1[b]) is Some);
            }
        }
        if resolvable(g2) {
            assert forall|i: int, b: int| 0 <= i < g.len() && 0 <= b < g[i].1.len() implies (#[trigger] target_of(g, g[i].1[b])) is Some by {
                let j = choose|j: int| 0 <= j < g2.len() && g2[j] == #[trigger] g[i];
                assert(target_of(g2, g2[j].1[b]) is Some);
            }
        }
    }
    assert forall|x: Seq<PathPart>, y: Seq<PathPart>| #[trigger] edge_of(g, x, y) == edge_of(g2, x, y) by {
        if edge_of(g, x, y) {
            let (i, b) = choose|i: int, b: int| 0 <= i < g.len() && components(g[i].0) == x && 0 <= b < g[i].1.len() && #[trigger] target_of(g, g[i].1[b]) == Some(y);
            let j = choose|j: int| 0 <= j < g2.len() && g2[j] == #[trigger] g[i];
            assert(target_of(g2, g2[j].1[b]) == Some(y));
        }
        if edge_of(g2, x, y) {
            let (j, b) = choose|j: int, b: int| 0 <= j < g2.len() && components(g2[j].0) == x && 0 <= b < g2[j].1.len() && #[trigger] target_of(g2, g2[j].1[b]) == Some(y);
            let i = choose|i: int| 0 <= i < g.len() && #[trigger] g2[j] == g[i];
            assert(target_of(g, g[i].1[b]) == Some(y));
        }
    }
    assert(resolved(g) =~= resolved(g2)) by {
        assert forall|x: Seq<PathPart>| #[trigger] resolved(g).dom().contains(x) implies resolved(g)[x] =~= resolved(g2)[x] by {
            assert forall|y: Seq<PathPart>| resolved(g)[x].contains(y) <==> resolved(g2)[x].contains(y) by {
                assert(edge_of(g, x, y) == edge_of(g2, x, y));
            }
        }
    }
}
} // verus!

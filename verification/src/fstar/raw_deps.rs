use vstd::prelude::*;
use crate::source::{Source, PathPart, Part, paths_of, contains_source, components};

verus! {

broadcast use crate::source::lemma_source_view;

/// How a module depends on another one, as F*'s `--dep raw` prints it.
#[derive(Clone, Copy, Debug, PartialEq, Eq, Structural)]
pub enum Kind {
    UseInterface,
    PreferInterface,
    UseImplementation,
    FriendImplementation,
}

/// The text of a kind in F*'s output.
pub open spec fn kind_text(k: Kind) -> Seq<char> {
    match k {
        Kind::UseInterface => "UseInterface"@,
        Kind::PreferInterface => "PreferInterface"@,
        Kind::UseImplementation => "UseImplementation"@,
        Kind::FriendImplementation => "FriendImplementation"@,
    }
}

/// `t` stands in `cs` from position `pos` on.
pub open spec fn text_at(cs: Seq<char>, pos: int, t: Seq<char>) -> bool {
    &&& 0 <= pos
    &&& pos + t.len() <= cs.len()
    &&& cs.subrange(pos, pos + t.len()) == t
}

/// Whether `lit` stands in `cs` from position `pos` on.
pub fn matches_at(cs: &Vec<char>, pos: usize, lit: &str) -> (r: bool)
    ensures
        r == text_at(cs@, pos as int, lit@),
{
    let l = crate::text::chars_of(lit);
    let n = cs.len();
    if pos > n || l.len() > n - pos {
        return false;
    }
    let mut i: usize = 0;
    while i < l.len()
        invariant
            n == cs@.len(),
            pos + l@.len() <= cs@.len(),
            i <= l@.len(),
            l@ == lit@,
            forall|j: int| 0 <= j < i ==> cs@[pos + j] == l@[j],
        decreases l@.len() - i,
    {
        if cs[pos + i] != l[i] {
            assert(cs@.subrange(pos as int, pos + l@.len())[i as int] != lit@[i as int]);
            return false;
        }
        i = i + 1;
    }
    assert(cs@.subrange(pos as int, pos + l@.len()) =~= lit@);
    true
}

proof fn lemma_kind_texts()
    ensures
        "UseInterface"@ =~= seq!['U', 's', 'e', 'I', 'n', 't', 'e', 'r', 'f', 'a', 'c', 'e'],
        "PreferInterface"@ =~= seq!['P', 'r', 'e', 'f', 'e', 'r', 'I', 'n', 't', 'e', 'r', 'f', 'a', 'c', 'e'],
        "UseImplementation"@ =~= seq!['U', 's', 'e', 'I', 'm', 'p', 'l', 'e', 'm', 'e', 'n', 't', 'a', 't', 'i', 'o', 'n'],
        "FriendImplementation"@ =~= seq!['F', 'r', 'i', 'e', 'n', 'd', 'I', 'm', 'p', 'l', 'e', 'm', 'e', 'n', 't', 'a', 't', 'i', 'o', 'n'],
{
    reveal_strlit("UseInterface");
    reveal_strlit("PreferInterface");
    reveal_strlit("UseImplementation");
    reveal_strlit("FriendImplementation");
}

/// At most one kind's text stands at a position.
proof fn lemma_kind_unique(cs: Seq<char>, pos: int, k1: Kind, k2: Kind)
    requires
        text_at(cs, pos, kind_text(k1)),
        text_at(cs, pos, kind_text(k2)),
    ensures
        k1 == k2,
{
    lemma_kind_texts();
    let t1 = kind_text(k1);
    let t2 = kind_text(k2);
    assert(cs[pos] == t1[0] && cs[pos] == t2[0]) by {
        assert(cs.subrange(pos, pos + t1.len())[0] == t1[0]);
        assert(cs.subrange(pos, pos + t2.len())[0] == t2[0]);
    }
    assert(cs[pos + 4] == t1[4] && cs[pos + 4] == t2[4]) by {
        assert(cs.subrange(pos, pos + t1.len())[4] == t1[4]);
        assert(cs.subrange(pos, pos + t2.len())[4] == t2[4]);
    }
}

/// Reads the kind that stands at `pos`, with the position after it.
fn parse_kind(cs: &Vec<char>, pos: usize) -> (r: Option<(Kind, usize)>)
    ensures
        match r {
            Some((k, p)) => text_at(cs@, pos as int, kind_text(k)) && p == pos + kind_text(k).len(),
            None => forall|k: Kind| !text_at(cs@, pos as int, #[trigger] kind_text(k)),
        },
{
    proof {
        lemma_kind_texts();
        assert(cs@.len() == cs.len());
    }
    if matches_at(cs, pos, "UseInterface") {
        Some((Kind::UseInterface, pos + 12))
    } else if matches_at(cs, pos, "PreferInterface") {
        Some((Kind::PreferInterface, pos + 15))
    } else if matches_at(cs, pos, "UseImplementation") {
        Some((Kind::UseImplementation, pos + 17))
    } else if matches_at(cs, pos, "FriendImplementation") {
        Some((Kind::FriendImplementation, pos + 20))
    } else {
        proof {
            assert forall|k: Kind| !text_at(cs@, pos as int, #[trigger] kind_text(k)) by {
                match k {
                    Kind::UseInterface => {},
                    Kind::PreferInterface => {},
                    Kind::UseImplementation => {},
                    Kind::FriendImplementation => {},
                }
            }
        }
        None
    }
}

/// `a + b` stands at `pos` exactly when `a` does and `b` follows it.
pub proof fn lemma_text_at_concat(cs: Seq<char>, pos: int, a: Seq<char>, b: Seq<char>)
    ensures
        text_at(cs, pos, a + b) <==> (text_at(cs, pos, a) && text_at(cs, pos + a.len(), b)),
{
    if text_at(cs, pos, a + b) {
        let w = cs.subrange(pos, pos + (a + b).len());
        assert forall|i: int| 0 <= i < a.len() implies cs.subrange(pos, pos + a.len())[i]
            == a[i] by {
            assert(w[i] == (a + b)[i]);
        }
        assert(cs.subrange(pos, pos + a.len()) =~= a);
        assert forall|i: int| 0 <= i < b.len() implies cs.subrange(
            pos + a.len(),
            pos + a.len() + b.len(),
        )[i] == b[i] by {
            assert(w[a.len() + i] == (a + b)[a.len() + i]);
        }
        assert(cs.subrange(pos + a.len(), pos + a.len() + b.len()) =~= b);
    }
    if text_at(cs, pos, a) && text_at(cs, pos + a.len(), b) {
        assert(cs.subrange(pos, pos + (a + b).len()) =~= a + b) by {
            assert forall|i: int| 0 <= i < (a + b).len() implies cs.subrange(
                pos,
                pos + (a + b).len(),
            )[i] == (a + b)[i] by {
                if i < a.len() {
                    assert(cs.subrange(pos, pos + a.len())[i] == a[i]);
                } else {
                    assert(cs.subrange(pos + a.len(), pos + a.len() + b.len())[i - a.len()] == b[i
                        - a.len()]);
                }
            }
        }
    }
}

/// A character that may stand in a module name.
pub open spec fn is_name_char(c: char) -> bool {
    c != ';' && c != '\n'
}

/// A module name as F*'s output can hold it: not empty, and with neither `;` nor a line break.
pub open spec fn module_name_ok(m: Seq<char>) -> bool {
    &&& m.len() > 0
    &&& forall|i: int| 0 <= i < m.len() ==> is_name_char(#[trigger] m[i])
}

/// Position `q` of `cs` ends a module name: the text ends there, or a character stands there
/// that no name holds.
pub open spec fn ends_name(cs: Seq<char>, q: int) -> bool {
    q == cs.len() || (0 <= q < cs.len() && !is_name_char(cs[q]))
}

/// The name of an F* module.
#[derive(Debug, Hash, Eq)]
pub struct ModuleName(pub String);

impl View for ModuleName {
    type V = Seq<char>;

    open spec fn view(&self) -> Seq<char> {
        self.0@
    }
}

impl Clone for ModuleName {
    fn clone(&self) -> (r: Self)
        ensures
            r@ == self@,
    {
        ModuleName(self.0.clone())
    }
}

impl PartialEq for ModuleName {
    fn eq(&self, other: &Self) -> (r: bool) {
        self.0 == other.0
    }
}

impl vstd::std_specs::cmp::PartialEqSpecImpl for ModuleName {
    open spec fn obeys_eq_spec() -> bool {
        true
    }

    open spec fn eq_spec(&self, other: &Self) -> bool {
        self@ == other@
    }
}

/// One dependency of a source: its kind and the module it names.
#[derive(Debug)]
pub struct Edge(pub Kind, pub ModuleName);

impl View for Edge {
    type V = (Kind, Seq<char>);

    open spec fn view(&self) -> (Kind, Seq<char>) {
        (self.0, self.1@)
    }
}

impl Clone for Edge {
    fn clone(&self) -> (r: Self)
        ensures
            r@ == self@,
    {
        Edge(self.0, self.1.clone())
    }
}

/// The text of an edge: its kind, a space, and the module's name.
pub open spec fn edge_text(e: (Kind, Seq<char>)) -> Seq<char> {
    kind_text(e.0) + " "@ + e.1
}

/// The edge `e` stands at `pos`, its name ended as F*'s output ends it.
pub open spec fn edge_at(cs: Seq<char>, pos: int, e: (Kind, Seq<char>)) -> bool {
    &&& module_name_ok(e.1)
    &&& text_at(cs, pos, edge_text(e))
    &&& ends_name(cs, pos + edge_text(e).len())
}

/// The end of the longest run of name characters from `pos`.
fn name_end(cs: &Vec<char>, pos: usize) -> (q: usize)
    requires
        pos <= cs@.len(),
    ensures
        pos <= q <= cs@.len(),
        forall|i: int| pos <= i < q ==> is_name_char(#[trigger] cs@[i]),
        ends_name(cs@, q as int),
{
    let n = cs.len();
    let mut q = pos;
    while q < n && cs[q] != ';' && cs[q] != '\n'
        invariant
            n == cs@.len(),
            pos <= q <= n,
            forall|i: int| pos <= i < q ==> is_name_char(#[trigger] cs@[i]),
        decreases n - q,
    {
        q = q + 1;
    }
    q
}

/// Reads the edge that stands at `pos`, with the position after it.
fn parse_edge(cs: &Vec<char>, pos: usize) -> (r: Option<(Edge, usize)>)
    ensures
        match r {
            Some((e, p)) => {
                &&& edge_at(cs@, pos as int, e@)
                &&& p == pos + edge_text(e@).len()
                &&& forall|e2: (Kind, Seq<char>)| #[trigger] edge_at(cs@, pos as int, e2) ==> e2 == e@
            },
            None => forall|e2: (Kind, Seq<char>)| !#[trigger] edge_at(cs@, pos as int, e2),
        },
{
    proof {
        reveal_strlit(" ");
        assert(cs@.len() == cs.len());
        assert forall|e2: (Kind, Seq<char>)| #[trigger] edge_at(cs@, pos as int, e2) implies {
            &&& text_at(cs@, pos as int, kind_text(e2.0))
            &&& text_at(cs@, pos + kind_text(e2.0).len(), " "@)
            &&& text_at(cs@, pos + kind_text(e2.0).len() + 1, e2.1)
        } by {
            lemma_text_at_concat(cs@, pos as int, kind_text(e2.0) + " "@, e2.1);
            lemma_text_at_concat(cs@, pos as int, kind_text(e2.0), " "@);
        }
    }
    let (k, p1) = match parse_kind(cs, pos) {
        Some(x) => x,
        None => return None,
    };
    if !matches_at(cs, p1, " ") {
        proof {
            assert forall|e2: (Kind, Seq<char>)| !#[trigger] edge_at(cs@, pos as int, e2) by {
                if edge_at(cs@, pos as int, e2) {
                    lemma_kind_unique(cs@, pos as int, k, e2.0);
                }
            }
        }
        return None;
    }
    let p2 = p1 + 1;
    let q = name_end(cs, p2);
    if q == p2 {
        proof {
            assert forall|e2: (Kind, Seq<char>)| !#[trigger] edge_at(cs@, pos as int, e2) by {
                if edge_at(cs@, pos as int, e2) {
                    lemma_kind_unique(cs@, pos as int, k, e2.0);
                    assert(cs@.subrange(p2 as int, p2 + e2.1.len())[0] == e2.1[0]);
                }
            }
        }
        return None;
    }
    let name = crate::text::string_from_chars(vstd::slice::slice_subrange(cs.as_slice(), p2, q));
    let e = Edge(k, ModuleName(name));
    proof {
        assert(text_at(cs@, p2 as int, e@.1));
        lemma_text_at_concat(cs@, pos as int, kind_text(k), " "@);
        lemma_text_at_concat(cs@, pos as int, kind_text(k) + " "@, e@.1);
        assert(module_name_ok(e@.1)) by {
            assert forall|i: int| 0 <= i < e@.1.len() implies is_name_char(#[trigger] e@.1[i]) by {
                assert(e@.1[i] == cs@[p2 + i]);
            }
        }
        assert forall|e2: (Kind, Seq<char>)| #[trigger] edge_at(cs@, pos as int, e2) implies e2
            == e@ by {
            lemma_kind_unique(cs@, pos as int, k, e2.0);
            let m = e2.1;
            assert forall|i: int| 0 <= i < m.len() implies cs@[p2 + i] == #[trigger] m[i] by {
                assert(cs@.subrange(p2 as int, p2 + m.len())[i] == m[i]);
            }
            if m.len() < q - p2 {
                assert(is_name_char(cs@[p2 + m.len()]));
            } else if m.len() > q - p2 {
                assert(cs@[q as int] == m[q - p2]);
            }
            assert(m =~= e@.1);
        }
    }
    Some((e, q))
}
/// The parts joined by `sep`, with every part after the first preceded by `sep`.
pub open spec fn sep_tail(parts: Seq<Seq<char>>, sep: Seq<char>) -> Seq<char>
    decreases parts.len(),
{
    if parts.len() == 0 {
        seq![]
    } else {
        sep + parts[0] + sep_tail(parts.drop_first(), sep)
    }
}

/// The parts joined by `sep`.
pub open spec fn sep_join(parts: Seq<Seq<char>>, sep: Seq<char>) -> Seq<char> {
    if parts.len() == 0 {
        seq![]
    } else {
        parts[0] + sep_tail(parts.drop_first(), sep)
    }
}

proof fn lemma_sep_tail_push(parts: Seq<Seq<char>>, p: Seq<char>, sep: Seq<char>)
    ensures
        sep_tail(parts.push(p), sep) == sep_tail(parts, sep) + sep + p,
    decreases parts.len(),
{
    if parts.len() == 0 {
        assert(parts.push(p).drop_first() =~= parts);
        assert(sep_tail(parts.push(p), sep) =~= sep_tail(parts, sep) + sep + p);
    } else {
        assert(parts.push(p).drop_first() =~= parts.drop_first().push(p));
        lemma_sep_tail_push(parts.drop_first(), p, sep);
        assert(sep_tail(parts.push(p), sep) =~= sep_tail(parts, sep) + sep + p);
    }
}

proof fn lemma_sep_join_push(parts: Seq<Seq<char>>, p: Seq<char>, sep: Seq<char>)
    requires
        parts.len() > 0,
    ensures
        sep_join(parts.push(p), sep) == sep_join(parts, sep) + sep + p,
{
    assert(parts.push(p).drop_first() =~= parts.drop_first().push(p));
    lemma_sep_tail_push(parts.drop_first(), p, sep);
    assert(sep_join(parts.push(p), sep) =~= sep_join(parts, sep) + sep + p);
}

/// Unfolds the tail of `parts` from index `k` on by one part.
proof fn lemma_sep_tail_skip(parts: Seq<Seq<char>>, k: int, sep: Seq<char>, close: Seq<char>)
    requires
        0 <= k < parts.len(),
    ensures
        sep_tail(parts.skip(k), sep) + close == sep + (parts[k] + (sep_tail(parts.skip(k + 1), sep)
            + close)),
{
    assert(parts.skip(k).drop_first() =~= parts.skip(k + 1));
    assert(sep_tail(parts.skip(k), sep) + close =~= sep + (parts[k] + (sep_tail(
        parts.skip(k + 1),
        sep,
    ) + close)));
}

/// The first character of a text that stands at `q`.
proof fn lemma_first_char(cs: Seq<char>, q: int, t: Seq<char>)
    requires
        text_at(cs, q, t),
        t.len() > 0,
    ensures
        q < cs.len(),
        cs[q] == t[0],
{
    assert(cs.subrange(q, q + t.len())[0] == t[0]);
}

/// The separator between two edges.
pub open spec fn edge_sep() -> Seq<char> {
    ";\n\t"@
}

/// What closes the list of edges of a source.
pub open spec fn close_text() -> Seq<char> {
    "\n] "@
}

proof fn lemma_edge_literals()
    ensures
        edge_sep() =~= seq![';', '\n', '\t'],
        close_text() =~= seq!['\n', ']', ' '],
{
    reveal_strlit(";\n\t");
    reveal_strlit("\n] ");
}

/// The texts of the edges.
pub open spec fn edge_texts(es: Seq<(Kind, Seq<char>)>) -> Seq<Seq<char>> {
    es.map_values(|e: (Kind, Seq<char>)| edge_text(e))
}

/// The text of a list of edges.
pub open spec fn edges_text(es: Seq<(Kind, Seq<char>)>) -> Seq<char> {
    sep_join(edge_texts(es), edge_sep())
}

/// Every edge names a module as F*'s output can hold it.
pub open spec fn edges_ok(es: Seq<(Kind, Seq<char>)>) -> bool {
    forall|i: int| 0 <= i < es.len() ==> module_name_ok(#[trigger] es[i].1)
}

/// The edges `es2` stand at `pos`, closed as a source's edges are.
pub open spec fn edges_candidate(cs: Seq<char>, pos: int, es2: Seq<(Kind, Seq<char>)>) -> bool {
    edges_ok(es2) && text_at(cs, pos, edges_text(es2) + close_text())
}

/// The values of a list of edges.
pub open spec fn edges_view(es: Seq<Edge>) -> Seq<(Kind, Seq<char>)> {
    es.map_values(|e: Edge| e@)
}

/// The first character after an edge is one that ends a name.
proof fn lemma_after_edge(cs: Seq<char>, q: int, ts: Seq<Seq<char>>)
    requires
        text_at(cs, q, sep_tail(ts, edge_sep()) + close_text()),
    ensures
        ends_name(cs, q),
        ts.len() == 0 ==> cs[q] == '\n',
        ts.len() > 0 ==> cs[q] == ';',
{
    lemma_edge_literals();
    let t = sep_tail(ts, edge_sep()) + close_text();
    if ts.len() == 0 {
        assert(t =~= close_text());
    } else {
        assert(t[0] == ';');
    }
    lemma_first_char(cs, q, t);
}

/// A candidate with more edges than `k` has its next edge after a separator at `p`.
proof fn lemma_next_edge(cs: Seq<char>, p: int, k: int, es2: Seq<(Kind, Seq<char>)>)
    requires
        0 <= k < es2.len(),
        edges_ok(es2),
        text_at(cs, p, sep_tail(edge_texts(es2).skip(k), edge_sep()) + close_text()),
    ensures
        text_at(cs, p, edge_sep()),
        edge_at(cs, p + 3, es2[k]),
{
    let ts = edge_texts(es2);
    lemma_sep_tail_skip(ts, k, edge_sep(), close_text());
    let rest = sep_tail(ts.skip(k + 1), edge_sep()) + close_text();
    lemma_text_at_concat(cs, p, edge_sep(), ts[k] + rest);
    lemma_edge_literals();
    lemma_text_at_concat(cs, p + 3, ts[k], rest);
    lemma_after_edge(cs, p + 3 + ts[k].len(), ts.skip(k + 1));
    assert(module_name_ok(es2[k].1));
}

/// Reads the edges of a source from `pos` on, with the position after them.
fn parse_edges(cs: &Vec<char>, pos: usize) -> (r: (Vec<Edge>, usize))
    requires
        pos <= cs@.len(),
    ensures
        edges_ok(edges_view(r.0@)),
        text_at(cs@, pos as int, edges_text(edges_view(r.0@))),
        r.1 == pos + edges_text(edges_view(r.0@)).len(),
        forall|es2: Seq<(Kind, Seq<char>)>| #[trigger] edges_candidate(cs@, pos as int, es2)
            ==> es2 == edges_view(r.0@),
{
    let n = cs.len();
    let mut es: Vec<Edge> = Vec::new();
    let (e0, p0) = match parse_edge(cs, pos) {
        Some(x) => x,
        None => {
            proof {
                assert forall|es2: Seq<(Kind, Seq<char>)>| #[trigger]
                    edges_candidate(cs@, pos as int, es2) implies es2 == edges_view(es@) by {
                    if es2.len() > 0 {
                        let ts = edge_texts(es2);
                        lemma_sep_tail_skip(ts, 0, edge_sep(), close_text());
                        assert(ts.skip(0) =~= ts);
                        assert(ts.drop_first() =~= ts.skip(1));
                        assert(edges_text(es2) + close_text() =~= ts[0] + (sep_tail(ts.skip(1), edge_sep()) + close_text()));
                        lemma_text_at_concat(cs@, pos as int, ts[0], sep_tail(ts.skip(1), edge_sep()) + close_text());
                        lemma_after_edge(cs@, pos + ts[0].len(), ts.skip(1));
                        assert(edge_at(cs@, pos as int, es2[0]));
                    }
                    assert(es2 =~= edges_view(es@));
                }
                assert(edges_view(es@) =~= Seq::<(Kind, Seq<char>)>::empty());
                assert(cs@.subrange(pos as int, pos as int) =~= Seq::<char>::empty());
            }
            return (es, pos);
        },
    };
    es.push(e0);
    let mut p = p0;
    proof {
        assert(edges_view(es@) =~= seq![e0@]);
        assert(edge_texts(edges_view(es@)) =~= seq![edge_text(e0@)]);
        assert(edges_text(edges_view(es@)) =~= edge_text(e0@));
        assert forall|es2: Seq<(Kind, Seq<char>)>| #[trigger]
            edges_candidate(cs@, pos as int, es2) implies {
            &&& es2.len() >= es@.len()
            &&& es2.take(es@.len() as int) == edges_view(es@)
            &&& text_at(cs@, p as int, sep_tail(edge_texts(es2).skip(es@.len() as int), edge_sep()) + close_text())
        } by {
            let ts = edge_texts(es2);
            if es2.len() == 0 {
                lemma_edge_literals();
                assert(edges_text(es2) + close_text() =~= close_text());
                lemma_first_char(cs@, pos as int, close_text());
                lemma_kind_texts();
                lemma_first_char(cs@, pos as int, kind_text(e0@.0));
                lemma_text_at_concat(cs@, pos as int, kind_text(e0@.0) + " "@, e0@.1);
                lemma_text_at_concat(cs@, pos as int, kind_text(e0@.0), " "@);
            } else {
                assert(ts.drop_first() =~= ts.skip(1));
                assert(edges_text(es2) + close_text() =~= ts[0] + (sep_tail(ts.skip(1), edge_sep()) + close_text()));
                lemma_text_at_concat(cs@, pos as int, ts[0], sep_tail(ts.skip(1), edge_sep()) + close_text());
                lemma_after_edge(cs@, pos + ts[0].len(), ts.skip(1));
                assert(edge_at(cs@, pos as int, es2[0]));
                assert(es2.take(1) =~= edges_view(es@));
            }
        }
    }
    while p < n
        invariant
            n == cs@.len(),
            es@.len() >= 1,
            edges_ok(edges_view(es@)),
            text_at(cs@, pos as int, edges_text(edges_view(es@))),
            p == pos + edges_text(edges_view(es@)).len(),
            forall|es2: Seq<(Kind, Seq<char>)>| #[trigger] edges_candidate(cs@, pos as int, es2) ==> {
                &&& es2.len() >= es@.len()
                &&& es2.take(es@.len() as int) == edges_view(es@)
                &&& text_at(cs@, p as int, sep_tail(edge_texts(es2).skip(es@.len() as int), edge_sep()) + close_text())
            },
        ensures
            forall|es2: Seq<(Kind, Seq<char>)>| #[trigger] edges_candidate(cs@, pos as int, es2)
                ==> es2.len() == es@.len(),
        decreases n - p,
    {
        if !matches_at(cs, p, ";\n\t") {
            proof {
                assert forall|es2: Seq<(Kind, Seq<char>)>| #[trigger]
                    edges_candidate(cs@, pos as int, es2) implies es2.len() == es@.len() by {
                    if es2.len() > es@.len() {
                        lemma_next_edge(cs@, p as int, es@.len() as int, es2);
                    }
                }
            }
            break;
        }
        proof { lemma_edge_literals(); }
        let (e, p1) = match parse_edge(cs, p + 3) {
            Some(x) => x,
            None => {
                proof {
                    assert forall|es2: Seq<(Kind, Seq<char>)>| #[trigger]
                        edges_candidate(cs@, pos as int, es2) implies es2.len() == es@.len() by {
                        if es2.len() > es@.len() {
                            lemma_next_edge(cs@, p as int, es@.len() as int, es2);
                        }
                    }
                }
                break;
            },
        };
        let ghost old_es = es@;
        let ghost old_p = p;
        es.push(e);
        p = p1;
        proof {
            let k = old_es.len() as int;
            assert(edges_view(es@) =~= edges_view(old_es).push(e@));
            assert(edge_texts(edges_view(es@)) =~= edge_texts(edges_view(old_es)).push(edge_text(e@)));
            lemma_sep_join_push(edge_texts(edges_view(old_es)), edge_text(e@), edge_sep());
            lemma_text_at_concat(cs@, pos as int, edges_text(edges_view(old_es)), edge_sep());
            lemma_text_at_concat(cs@, pos as int, edges_text(edges_view(old_es)) + edge_sep(), edge_text(e@));
            assert(edges_ok(edges_view(es@))) by {
                assert forall|i: int| 0 <= i < edges_view(es@).len() implies module_name_ok(
                    #[trigger] edges_view(es@)[i].1) by {
                    if i < k {
                        assert(edges_view(es@)[i] == edges_view(old_es)[i]);
                    }
                }
            }
            assert forall|es2: Seq<(Kind, Seq<char>)>| #[trigger]
                edges_candidate(cs@, pos as int, es2) implies {
                &&& es2.len() >= es@.len()
                &&& es2.take(es@.len() as int) == edges_view(es@)
                &&& text_at(cs@, p as int, sep_tail(edge_texts(es2).skip(es@.len() as int), edge_sep()) + close_text())
            } by {
                let ts = edge_texts(es2);
                if es2.len() == k {
                    assert(ts.skip(k) =~= Seq::<Seq<char>>::empty());
                    lemma_after_edge(cs@, old_p as int, ts.skip(k));
                    lemma_first_char(cs@, old_p as int, edge_sep());
                } else {
                    lemma_next_edge(cs@, old_p as int, k, es2);
                    lemma_sep_tail_skip(ts, k, edge_sep(), close_text());
                    let rest = sep_tail(ts.skip(k + 1), edge_sep()) + close_text();
                    lemma_text_at_concat(cs@, old_p as int, edge_sep(), ts[k] + rest);
                    lemma_text_at_concat(cs@, old_p + 3, ts[k], rest);
                    assert(es2.take(k + 1) =~= es2.take(k).push(es2[k]));
                }
            }
        }
    }
    proof {
        assert forall|es2: Seq<(Kind, Seq<char>)>| #[trigger]
            edges_candidate(cs@, pos as int, es2) implies es2 == edges_view(es@) by {
            assert(es2.take(es@.len() as int) =~= es2);
        }
    }
    (es, p)
}
/// What ends the path of a source and opens its list of edges.
pub open spec fn arrow() -> Seq<char> {
    " -> [\n"@
}

proof fn lemma_arrow_literal()
    ensures
        arrow() =~= seq![' ', '-', '>', ' ', '[', '\n'],
        "\t"@ =~= seq!['\t'],
{
    reveal_strlit(" -> [\n");
    reveal_strlit("\t");
}

/// A source path as F*'s output can hold it: the arrow that ends it stands nowhere in it.
pub open spec fn header_ok(h: Seq<char>) -> bool {
    forall|j: int| !#[trigger] text_at(h, j, arrow())
}

/// The first arrow after a header that holds none is the one that ends it.
proof fn lemma_arrow_first(cs: Seq<char>, pos: int, h: Seq<char>)
    requires
        header_ok(h),
        text_at(cs, pos, h + arrow()),
    ensures
        text_at(cs, pos + h.len(), arrow()),
        forall|j: int| pos <= j < pos + h.len() ==> !#[trigger] text_at(cs, j, arrow()),
{
    lemma_text_at_concat(cs, pos, h, arrow());
    lemma_arrow_literal();
    let e = pos + h.len();
    assert forall|j: int| pos <= j < pos + h.len() implies !#[trigger] text_at(cs, j, arrow()) by {
        if text_at(cs, j, arrow()) {
            if j + 6 <= e {
                assert(h.subrange(j - pos, j - pos + 6) =~= arrow()) by {
                    assert forall|i: int| 0 <= i < 6 implies h.subrange(j - pos, j - pos + 6)[i]
                        == arrow()[i] by {
                        assert(cs.subrange(pos, pos + h.len())[j - pos + i] == h[j - pos + i]);
                        assert(cs.subrange(j, j + 6)[i] == arrow()[i]);
                    }
                }
                assert(text_at(h, j - pos, arrow()));
            } else {
                let d = e - j;
                assert(cs.subrange(j, j + 6)[d] == arrow()[d]);
                assert(cs.subrange(e, e + 6)[0] == arrow()[0]);
                if d == 3 {
                    assert(cs.subrange(j, j + 6)[4] == arrow()[4]);
                    assert(cs.subrange(e, e + 6)[1] == arrow()[1]);
                }
            }
        }
    }
}

/// The position of the first arrow from `pos` on.
fn find_arrow(cs: &Vec<char>, pos: usize) -> (r: Option<usize>)
    requires
        pos <= cs@.len(),
    ensures
        match r {
            Some(i) => {
                &&& pos <= i
                &&& text_at(cs@, i as int, arrow())
                &&& forall|j: int| pos <= j < i ==> !#[trigger] text_at(cs@, j, arrow())
            },
            None => forall|j: int| pos <= j ==> !#[trigger] text_at(cs@, j, arrow()),
        },
{
    let n = cs.len();
    let mut j = pos;
    proof { lemma_arrow_literal(); }
    while j < n
        invariant
            n == cs@.len(),
            pos <= j <= n,
            arrow().len() == 6,
            forall|i: int| pos <= i < j ==> !#[trigger] text_at(cs@, i, arrow()),
        decreases n - j,
    {
        if cs[j] == ' ' && matches_at(cs, j, " -> [\n") {
            return Some(j);
        }
        proof {
            lemma_arrow_literal();
            if text_at(cs@, j as int, arrow()) {
                lemma_first_char(cs@, j as int, arrow());
            }
        }
        j = j + 1;
    }
    None
}

/// The text of a source with its edges.
pub open spec fn entry_text(e: (Seq<char>, Seq<(Kind, Seq<char>)>)) -> Seq<char> {
    e.0 + (arrow() + ("\t"@ + (edges_text(e.1) + close_text())))
}

/// A source with its edges, as F*'s output can hold them.
pub open spec fn entry_ok(e: (Seq<char>, Seq<(Kind, Seq<char>)>)) -> bool {
    header_ok(e.0) && edges_ok(e.1)
}

/// The source `e` with its edges stands at `pos`.
pub open spec fn entry_at(cs: Seq<char>, pos: int, e: (Seq<char>, Seq<(Kind, Seq<char>)>)) -> bool {
    entry_ok(e) && text_at(cs, pos, entry_text(e))
}

/// The value of a source with its edges.
pub open spec fn entry_view(x: (Source, Vec<Edge>)) -> (Seq<char>, Seq<(Kind, Seq<char>)>) {
    (x.0.text(), edges_view(x.1@))
}

/// Reads the source with its edges that stands at `pos`, with the position after them.
fn parse_entry(cs: &Vec<char>, pos: usize) -> (r: Option<((Source, Vec<Edge>), usize)>)
    requires
        pos <= cs@.len(),
    ensures
        match r {
            Some((x, p)) => {
                &&& entry_at(cs@, pos as int, entry_view(x))
                &&& p == pos + entry_text(entry_view(x)).len()
                &&& forall|e2: (Seq<char>, Seq<(Kind, Seq<char>)>)| #[trigger]
                    entry_at(cs@, pos as int, e2) ==> e2 == entry_view(x)
            },
            None => forall|e2: (Seq<char>, Seq<(Kind, Seq<char>)>)| !#[trigger] entry_at(
                cs@,
                pos as int,
                e2,
            ),
        },
{
    proof {
        lemma_arrow_literal();
        lemma_edge_literals();
        assert forall|e2: (Seq<char>, Seq<(Kind, Seq<char>)>)| #[trigger]
            entry_at(cs@, pos as int, e2) implies {
            &&& text_at(cs@, pos + e2.0.len(), arrow())
            &&& forall|j: int| pos <= j < pos + e2.0.len() ==> !#[trigger] text_at(cs@, j, arrow())
            &&& text_at(cs@, pos + e2.0.len() + 6, "\t"@)
            &&& edges_candidate(cs@, pos + e2.0.len() + 7, e2.1)
        } by {
            let rest = "\t"@ + (edges_text(e2.1) + close_text());
            lemma_text_at_concat(cs@, pos as int, e2.0, arrow() + rest);
            lemma_text_at_concat(cs@, pos + e2.0.len(), arrow(), rest);
            lemma_text_at_concat(cs@, pos as int, e2.0, arrow());
            lemma_arrow_first(cs@, pos as int, e2.0);
            lemma_text_at_concat(cs@, pos + e2.0.len() + 6, "\t"@, edges_text(e2.1) + close_text());
        }
    }
    let n = cs.len();
    let i = match find_arrow(cs, pos) {
        Some(i) => i,
        None => return None,
    };
    proof {
        assert forall|e2: (Seq<char>, Seq<(Kind, Seq<char>)>)| #[trigger]
            entry_at(cs@, pos as int, e2) implies pos + e2.0.len() == i by {
            if pos + e2.0.len() < i {
                assert(!text_at(cs@, pos + e2.0.len(), arrow()));
            }
            if pos + e2.0.len() > i {
                assert(!text_at(cs@, i as int, arrow()));
            }
        }
    }
    if !matches_at(cs, i + 6, "\t") {
        return None;
    }
    let (es, q) = parse_edges(cs, i + 7);
    if !matches_at(cs, q, "\n] ") {
        proof {
            assert forall|e2: (Seq<char>, Seq<(Kind, Seq<char>)>)| !#[trigger] entry_at(
                cs@,
                pos as int,
                e2,
            ) by {
                if entry_at(cs@, pos as int, e2) {
                    assert(e2.1 == edges_view(es@));
                    lemma_text_at_concat(cs@, i + 7, edges_text(e2.1), close_text());
                }
            }
        }
        return None;
    }
    let header = crate::text::string_from_chars(vstd::slice::slice_subrange(cs.as_slice(), pos, i));
    let x = (Source::new(header), es);
    let p = q + 3;
    proof {
        let v = entry_view(x);
        assert(v.0 =~= cs@.subrange(pos as int, i as int));
        assert(header_ok(v.0)) by {
            assert forall|j: int| !#[trigger] text_at(v.0, j, arrow()) by {
                if text_at(v.0, j, arrow()) {
                    assert(cs@.subrange(pos + j, pos + j + 6) =~= arrow()) by {
                        assert forall|t: int| 0 <= t < 6 implies cs@.subrange(pos + j, pos + j + 6)[t]
                            == arrow()[t] by {
                            assert(v.0.subrange(j, j + 6)[t] == arrow()[t]);
                        }
                    }
                    assert(text_at(cs@, pos + j, arrow()));
                }
            }
        }
        let rest = "\t"@ + (edges_text(v.1) + close_text());
        lemma_text_at_concat(cs@, i + 7, edges_text(v.1), close_text());
        lemma_text_at_concat(cs@, i + 6, "\t"@, edges_text(v.1) + close_text());
        lemma_text_at_concat(cs@, i as int, arrow(), rest);
        lemma_text_at_concat(cs@, pos as int, v.0, arrow() + rest);
        assert forall|e2: (Seq<char>, Seq<(Kind, Seq<char>)>)| #[trigger]
            entry_at(cs@, pos as int, e2) implies e2 == v by {
            assert(e2.1 == edges_view(es@));
            assert(e2.0 =~= cs@.subrange(pos as int, i as int)) by {
                lemma_text_at_concat(cs@, pos as int, e2.0, arrow() + ("\t"@ + (edges_text(e2.1) + close_text())));
            }
        }
    }
    Some((x, p))
}
/// The separator between two sources with their edges.
pub open spec fn entry_sep() -> Seq<char> {
    ";;\n"@
}

proof fn lemma_graph_literals()
    ensures
        entry_sep() =~= seq![';', ';', '\n'],
        "\n"@ =~= seq!['\n'],
{
    reveal_strlit(";;\n");
    reveal_strlit("\n");
}

/// The texts of the sources with their edges.
pub open spec fn entry_texts(g: Seq<(Seq<char>, Seq<(Kind, Seq<char>)>)>) -> Seq<Seq<char>> {
    g.map_values(|e: (Seq<char>, Seq<(Kind, Seq<char>)>)| entry_text(e))
}

/// The text that F*'s `--dep raw` prints for the graph `g`.
pub open spec fn graph_text(g: Seq<(Seq<char>, Seq<(Kind, Seq<char>)>)>) -> Seq<char> {
    sep_join(entry_texts(g), entry_sep()) + "\n"@
}

/// Every source of `g` with its edges is as F*'s output can hold them.
pub open spec fn graph_ok(g: Seq<(Seq<char>, Seq<(Kind, Seq<char>)>)>) -> bool {
    forall|i: int| 0 <= i < g.len() ==> entry_ok(#[trigger] g[i])
}

/// The raw dependency graph, as F*'s `--dep raw` prints it: each source with its edges.
#[derive(Clone, Debug)]
pub struct Graph(pub Vec<(Source, Vec<Edge>)>);

impl View for Graph {
    type V = Seq<(Seq<char>, Seq<(Kind, Seq<char>)>)>;

    open spec fn view(&self) -> Self::V {
        self.0@.map_values(|x: (Source, Vec<Edge>)| entry_view(x))
    }
}

/// `g2` is a graph whose text is `cs`.
pub open spec fn graph_candidate(cs: Seq<char>, g2: Seq<(Seq<char>, Seq<(Kind, Seq<char>)>)>) -> bool {
    graph_ok(g2) && graph_text(g2) == cs
}

/// A candidate with more entries than `k` has its next entry after a separator at `p`.
proof fn lemma_next_entry(cs: Seq<char>, p: int, k: int, g2: Seq<(Seq<char>, Seq<(Kind, Seq<char>)>)>)
    requires
        0 <= k < g2.len(),
        graph_ok(g2),
        text_at(cs, p, sep_tail(entry_texts(g2).skip(k), entry_sep()) + "\n"@),
    ensures
        text_at(cs, p, entry_sep()),
        entry_at(cs, p + 3, g2[k]),
        text_at(cs, p + 3 + entry_text(g2[k]).len(), sep_tail(entry_texts(g2).skip(k + 1), entry_sep()) + "\n"@),
{
    let ts = entry_texts(g2);
    lemma_sep_tail_skip(ts, k, entry_sep(), "\n"@);
    let rest = sep_tail(ts.skip(k + 1), entry_sep()) + "\n"@;
    lemma_text_at_concat(cs, p, entry_sep(), ts[k] + rest);
    lemma_graph_literals();
    lemma_text_at_concat(cs, p + 3, ts[k], rest);
    assert(entry_ok(g2[k]));
}

/// The first entry of a candidate stands at the start of the text.
proof fn lemma_first_entry(cs: Seq<char>, g2: Seq<(Seq<char>, Seq<(Kind, Seq<char>)>)>)
    requires
        graph_candidate(cs, g2),
        g2.len() > 0,
    ensures
        entry_at(cs, 0, g2[0]),
        text_at(cs, entry_text(g2[0]).len() as int, sep_tail(entry_texts(g2).skip(1), entry_sep()) + "\n"@),
{
    let ts = entry_texts(g2);
    assert(ts.drop_first() =~= ts.skip(1));
    let rest = sep_tail(ts.skip(1), entry_sep()) + "\n"@;
    assert(cs =~= ts[0] + rest);
    lemma_text_at_whole(cs);
    lemma_text_at_concat(cs, 0, ts[0], rest);
    assert(entry_ok(g2[0]));
}

/// The whole of `cs`, from its start.
proof fn lemma_text_at_whole(cs: Seq<char>)
    ensures
        text_at(cs, 0, cs),
{
    assert(cs.subrange(0, cs.len() as int) =~= cs);
}

/// The values of a list of sources with their edges.
pub open spec fn entries_view(xs: Seq<(Source, Vec<Edge>)>) -> Seq<(Seq<char>, Seq<(Kind, Seq<char>)>)> {
    xs.map_values(|x: (Source, Vec<Edge>)| entry_view(x))
}

impl Graph {
    /// Reads the text that F*'s `--dep raw` prints: the graph whose text is `input`, if there is
    /// one, and there is at most one.
    pub fn parser(input: &str) -> (r: Option<Graph>)
        ensures
            match r {
                Some(g) => {
                    &&& graph_ok(g@)
                    &&& graph_text(g@) == input@
                    &&& forall|g2: Seq<(Seq<char>, Seq<(Kind, Seq<char>)>)>|
                        graph_ok(g2) && graph_text(g2) == input@ ==> g2 == g@
                },
                None => forall|g2: Seq<(Seq<char>, Seq<(Kind, Seq<char>)>)>|
                    graph_ok(g2) ==> graph_text(g2) != input@,
            },
            forall|g2: Seq<(Seq<char>, Seq<(Kind, Seq<char>)>)>| graph_ok(g2) && graph_text(g2) == input@
                ==> (r matches Some(g) && g@ == g2),
    {
        let cs = crate::text::chars_of(input);
        let n = cs.len();
        let mut xs: Vec<(Source, Vec<Edge>)> = Vec::new();
        proof {
            lemma_graph_literals();
            lemma_text_at_whole(cs@);
        }
        let (x0, p0) = match parse_entry(&cs, 0) {
            Some(x) => x,
            None => {
                proof {
                    assert forall|g2: Seq<(Seq<char>, Seq<(Kind, Seq<char>)>)>| #[trigger]
                        graph_candidate(cs@, g2) implies g2.len() == 0 by {
                        if g2.len() > 0 {
                            lemma_first_entry(cs@, g2);
                        }
                    }
                }
                if n == 1 && matches_at(&cs, 0, "\n") {
                    proof {
                        assert(cs@ =~= "\n"@) by {
                            assert(cs@.subrange(0, 1) == "\n"@);
                        }
                        let gv = entries_view(xs@);
                        assert(gv =~= Seq::<(Seq<char>, Seq<(Kind, Seq<char>)>)>::empty());
                        assert(graph_text(gv) =~= "\n"@);
                        assert forall|g2: Seq<(Seq<char>, Seq<(Kind, Seq<char>)>)>|
                            graph_ok(g2) && graph_text(g2) == input@ implies g2 == gv by {
                            assert(graph_candidate(cs@, g2));
                            assert(g2 =~= gv);
                        }
                    }
                    return Some(Graph(xs));
                }
                proof {
                    assert forall|g2: Seq<(Seq<char>, Seq<(Kind, Seq<char>)>)>|
                        graph_ok(g2) implies graph_text(g2) != input@ by {
                        if graph_text(g2) == input@ {
                            assert(graph_candidate(cs@, g2));
                            assert(graph_text(g2) =~= "\n"@);
                            assert(cs@.subrange(0, 1) =~= "\n"@);
                        }
                    }
                }
                return None;
            },
        };
        xs.push(x0);
        let mut p = p0;
        proof {
            let gv = entries_view(xs@);
            assert(gv =~= seq![entry_view(x0)]);
            assert(entry_texts(gv) =~= seq![entry_text(entry_view(x0))]);
            assert(sep_join(entry_texts(gv), entry_sep()) =~= entry_text(entry_view(x0)));
            assert forall|g2: Seq<(Seq<char>, Seq<(Kind, Seq<char>)>)>| #[trigger]
                graph_candidate(cs@, g2) implies {
                &&& g2.len() >= xs@.len()
                &&& g2.take(xs@.len() as int) == entries_view(xs@)
                &&& text_at(cs@, p as int, sep_tail(entry_texts(g2).skip(xs@.len() as int), entry_sep()) + "\n"@)
            } by {
                if g2.len() == 0 {
                    assert(graph_text(g2) =~= "\n"@);
                    lemma_arrow_literal();
                    assert(entry_text(entry_view(x0)).len() > 1);
                } else {
                    lemma_first_entry(cs@, g2);
                    assert(g2.take(1) =~= entries_view(xs@));
                }
            }
        }
        loop
            invariant
                n == cs@.len(),
                cs@ == input@,
                xs@.len() >= 1,
                graph_ok(entries_view(xs@)),
                text_at(cs@, 0, sep_join(entry_texts(entries_view(xs@)), entry_sep())),
                p == sep_join(entry_texts(entries_view(xs@)), entry_sep()).len(),
                forall|g2: Seq<(Seq<char>, Seq<(Kind, Seq<char>)>)>| #[trigger] graph_candidate(cs@, g2) ==> {
                    &&& g2.len() >= xs@.len()
                    &&& g2.take(xs@.len() as int) == entries_view(xs@)
                    &&& text_at(cs@, p as int, sep_tail(entry_texts(g2).skip(xs@.len() as int), entry_sep()) + "\n"@)
                },
            ensures
                forall|g2: Seq<(Seq<char>, Seq<(Kind, Seq<char>)>)>| #[trigger] graph_candidate(cs@, g2)
                    ==> g2.len() == xs@.len(),
            decreases n - p,
        {
            if p >= n || !matches_at(&cs, p, ";;\n") {
                proof {
                    assert forall|g2: Seq<(Seq<char>, Seq<(Kind, Seq<char>)>)>| #[trigger]
                        graph_candidate(cs@, g2) implies g2.len() == xs@.len() by {
                        if g2.len() > xs@.len() {
                            lemma_next_entry(cs@, p as int, xs@.len() as int, g2);
                        }
                    }
                }
                break;
            }
            proof { lemma_graph_literals(); }
            let (x, p1) = match parse_entry(&cs, p + 3) {
                Some(x) => x,
                None => {
                    proof {
                        assert forall|g2: Seq<(Seq<char>, Seq<(Kind, Seq<char>)>)>| #[trigger]
                            graph_candidate(cs@, g2) implies g2.len() == xs@.len() by {
                            if g2.len() > xs@.len() {
                                lemma_next_entry(cs@, p as int, xs@.len() as int, g2);
                            }
                        }
                    }
                    break;
                },
            };
            let ghost old_xs = xs@;
            let ghost old_p = p;
            xs.push(x);
            p = p1;
            proof {
                let k = old_xs.len() as int;
                assert(entries_view(xs@) =~= entries_view(old_xs).push(entry_view(x)));
                assert(entry_texts(entries_view(xs@)) =~= entry_texts(entries_view(old_xs)).push(entry_text(entry_view(x))));
                lemma_sep_join_push(entry_texts(entries_view(old_xs)), entry_text(entry_view(x)), entry_sep());
                lemma_text_at_concat(cs@, 0, sep_join(entry_texts(entries_view(old_xs)), entry_sep()), entry_sep());
                lemma_text_at_concat(cs@, 0, sep_join(entry_texts(entries_view(old_xs)), entry_sep()) + entry_sep(), entry_text(entry_view(x)));
                assert(graph_ok(entries_view(xs@))) by {
                    assert forall|i: int| 0 <= i < entries_view(xs@).len() implies entry_ok(
                        #[trigger] entries_view(xs@)[i]) by {
                        if i < k {
                            assert(entries_view(xs@)[i] == entries_view(old_xs)[i]);
                        }
                    }
                }
                assert forall|g2: Seq<(Seq<char>, Seq<(Kind, Seq<char>)>)>| #[trigger]
                    graph_candidate(cs@, g2) implies {
                    &&& g2.len() >= xs@.len()
                    &&& g2.take(xs@.len() as int) == entries_view(xs@)
                    &&& text_at(cs@, p as int, sep_tail(entry_texts(g2).skip(xs@.len() as int), entry_sep()) + "\n"@)
                } by {
                    if g2.len() == k {
                        assert(entry_texts(g2).skip(k) =~= Seq::<Seq<char>>::empty());
                        assert(sep_tail(entry_texts(g2).skip(k), entry_sep()) + "\n"@ =~= "\n"@);
                        lemma_first_char(cs@, old_p as int, "\n"@);
                        lemma_first_char(cs@, old_p as int, entry_sep());
                    } else {
                        lemma_next_entry(cs@, old_p as int, k, g2);
                        assert(g2.take(k + 1) =~= g2.take(k).push(g2[k]));
                    }
                }
            }
        }
        if p < n && n - p == 1 && matches_at(&cs, p, "\n") {
            let g = Graph(xs);
            proof {
                let gv = entries_view(xs@);
                assert(g@ == gv);
                lemma_text_at_concat(cs@, 0, sep_join(entry_texts(gv), entry_sep()), "\n"@);
                assert(cs@.subrange(0, n as int) =~= cs@);
                assert forall|g2: Seq<(Seq<char>, Seq<(Kind, Seq<char>)>)>|
                    graph_ok(g2) && graph_text(g2) == input@ implies g2 == gv by {
                    assert(graph_candidate(cs@, g2));
                    assert(g2.take(xs@.len() as int) =~= g2);
                }
            }
            return Some(g);
        }
        proof {
            assert forall|g2: Seq<(Seq<char>, Seq<(Kind, Seq<char>)>)>|
                graph_ok(g2) implies graph_text(g2) != input@ by {
                if graph_text(g2) == input@ {
                    assert(graph_candidate(cs@, g2));
                    let k = xs@.len() as int;
                    assert(entry_texts(g2).skip(k) =~= Seq::<Seq<char>>::empty());
                    assert(sep_tail(entry_texts(g2).skip(k), entry_sep()) + "\n"@ =~= "\n"@);
                    assert(g2.take(k) =~= g2);
                    assert(graph_text(g2).len() == p + 1);
                }
            }
        }
        None
    }
}
/// Whether a module file is an implementation (`.fst`) or an interface (`.fsti`).
#[derive(Clone, Copy, Debug, PartialEq, Eq, Hash, Structural)]
pub enum ModuleKind {
    Implementation,
    Interface,
}

/// The file name of a path given by its components, as `Path::file_name` of std reads it: its
/// last component, where that is a name.
pub open spec fn file_name(c: Seq<PathPart>) -> Option<Seq<char>> {
    if c.len() > 0 {
        match c.last() {
            PathPart::Normal(n) => Some(n),
            _ => None,
        }
    } else {
        None
    }
}

/// The module that a source file holds, and its kind, by the file's name: the lowercase form of
/// the name without `.fst` (an implementation) or `.fsti` (an interface).
pub open spec fn module_infos(path: Seq<PathPart>) -> Option<(Seq<char>, ModuleKind)> {
    match file_name(path) {
        None => None,
        Some(f) => {
            let l = crate::text::lowercase(f);
            if crate::text::ends_with(l, ".fst"@) {
                Some((l.subrange(0, l.len() - 4), ModuleKind::Implementation))
            } else if crate::text::ends_with(l, ".fsti"@) {
                Some((l.subrange(0, l.len() - 5), ModuleKind::Interface))
            } else {
                None
            }
        },
    }
}

impl ModuleName {
    /// The module that the source `s` holds, and its kind; none where the file's name ends
    /// neither in `.fst` nor in `.fsti` (after lowercasing) or the path has no file name.
    pub fn try_infos(s: &Source) -> (r: Option<(Self, ModuleKind)>)
        ensures
            match r {
                Some((m, k)) => module_infos(s@) == Some((m@, k)),
                None => module_infos(s@) is None,
            },
    {
        let parts = s.parts();
        let k = parts.len();
        if k == 0 {
            return None;
        }
        let f = match &parts[k - 1] {
            Part::Normal(f) => f,
            _ => return None,
        };
        let lower = crate::text::to_lowercase(f.as_str());
        let lc = crate::text::chars_of(lower.as_str());
        let n = lc.len();
        proof {
            reveal_strlit(".fst");
            reveal_strlit(".fsti");
        }
        if n >= 4 && matches_at(&lc, n - 4, ".fst") {
            let m = crate::text::string_from_chars(vstd::slice::slice_subrange(lc.as_slice(), 0, n - 4));
            return Some((ModuleName(m), ModuleKind::Implementation));
        }
        if n >= 5 && matches_at(&lc, n - 5, ".fsti") {
            let m = crate::text::string_from_chars(vstd::slice::slice_subrange(lc.as_slice(), 0, n - 5));
            return Some((ModuleName(m), ModuleKind::Interface));
        }
        None
    }

    /// The module that the source `s` holds, and its kind, by the file's name: the lowercase
    /// form of the name without `.fst` (an implementation) or `.fsti` (an interface).
    pub fn infos(s: &Source) -> (r: (Self, ModuleKind))
        requires
            module_infos(s@) is Some,
        ensures
            module_infos(s@) == Some((r.0@, r.1)),
    {
        match Self::try_infos(s) {
            Some(x) => x,
            None => (ModuleName(String::new()), ModuleKind::Implementation),
        }
    }
}
/// The source paths of the entries of a graph.
pub open spec fn graph_sources(g: Seq<(Seq<char>, Seq<(Kind, Seq<char>)>)>) -> Seq<Seq<PathPart>> {
    g.map_values(|e: (Seq<char>, Seq<(Kind, Seq<char>)>)| components(e.0))
}

impl Graph {
    /// The sources of the graph, each once.
    pub fn sources(&self) -> (r: Vec<Source>)
        ensures
            paths_of(r@).no_duplicates(),
            paths_of(r@).to_set() == graph_sources(self@).to_set(),
    {
        let mut r: Vec<Source> = Vec::new();
        let mut i: usize = 0;
        while i < self.0.len()
            invariant
                i <= self.0@.len(),
                paths_of(r@).no_duplicates(),
                forall|x: Seq<PathPart>| paths_of(r@).contains(x) <==> exists|j: int| 0 <= j < i && #[trigger] self.0@[j].0@ == x,
            decreases self.0@.len() - i,
        {
            let s = &self.0[i].0;
            if !contains_source(&r, s) {
                let ghost old_r = r@;
                r.push(s.clone());
                proof {
                    assert(paths_of(r@) =~= paths_of(old_r).push(s@));
                    assert(self.0@[i as int].0@ == s@);
                    assert forall|x: Seq<PathPart>| paths_of(r@).contains(x) <==> exists|j: int| 0 <= j < i + 1 && #[trigger] self.0@[j].0@ == x by {
                        if paths_of(r@).contains(x) {
                            if x == s@ {
                                assert(0 <= i < i + 1 && self.0@[i as int].0@ == x);
                            } else {
                                let k = choose|k: int| 0 <= k < paths_of(r@).len() && paths_of(r@)[k] == x;
                                assert(paths_of(old_r)[k] == x);
                                assert(paths_of(old_r).contains(x));
                                let j = choose|j: int| 0 <= j < i && #[trigger] self.0@[j].0@ == x;
                                assert(0 <= j < i + 1 && self.0@[j].0@ == x);
                            }
                        }
                        if exists|j: int| 0 <= j < i + 1 && #[trigger] self.0@[j].0@ == x {
                            let j = choose|j: int| 0 <= j < i + 1 && #[trigger] self.0@[j].0@ == x;
                            if j < i {
                                assert(exists|j: int| 0 <= j < i && #[trigger] self.0@[j].0@ == x);
                                assert(paths_of(old_r).contains(x));
                                let k = choose|k: int| 0 <= k < paths_of(old_r).len() && paths_of(old_r)[k] == x;
                                assert(paths_of(r@)[k] == x);
                            } else {
                                assert(paths_of(r@)[old_r.len() as int] == x);
                            }
                        }
                    }
                }
            } else {
                assert(self.0@[i as int].0@ == s@);
                assert(paths_of(r@).contains(s@));
                assert forall|x: Seq<PathPart>| paths_of(r@).contains(x) <==> exists|j: int| 0 <= j < i + 1 && #[trigger] self.0@[j].0@ == x by {
                    if x == s@ {
                        assert(paths_of(r@).contains(x));
                    }
                    if paths_of(r@).contains(x) {
                        let j = choose|j: int| 0 <= j < i && #[trigger] self.0@[j].0@ == x;
                        assert(0 <= j < i + 1 && self.0@[j].0@ == x);
                    }
                    if exists|j: int| 0 <= j < i + 1 && #[trigger] self.0@[j].0@ == x {
                        let j = choose|j: int| 0 <= j < i + 1 && #[trigger] self.0@[j].0@ == x;
                        if j < i {
                            assert(exists|j: int| 0 <= j < i && #[trigger] self.0@[j].0@ == x);
                            assert(paths_of(r@).contains(x));
                        } else {
                            assert(x == s@);
                        }
                    }
                }
            }
            i = i + 1;
        }
        proof {
            assert forall|x: Seq<PathPart>| #[trigger] paths_of(r@).to_set().contains(x) <==> graph_sources(self@).to_set().contains(x) by {
                if paths_of(r@).contains(x) {
                    let j = choose|j: int| 0 <= j < self.0@.len() && #[trigger] self.0@[j].0@ == x;
                    assert(graph_sources(self@)[j] == x);
                }
                if graph_sources(self@).contains(x) {
                    let j = choose|j: int| 0 <= j < graph_sources(self@).len() && graph_sources(self@)[j] == x;
                    assert(self.0@[j].0@ == x);
                }
            }
            assert(paths_of(r@).to_set() =~= graph_sources(self@).to_set());
        }
        r
    }
}
/// What went wrong while reading F*'s dependencies.
#[derive(Debug)]
pub enum Error {
    /// F* could not be run, or failed.
    Cli(super::cli::Error),
    /// F*'s output is no dependency graph; it is kept here.
    DepsParse(String),
}

/// The raw graph that F*'s `--dep raw` printed as `stdout`; the output itself where it is none.
pub fn raw_deps_of_output(stdout: String) -> (r: Result<Graph, Error>)
    ensures
        match r {
            Ok(g) => graph_ok(g@) && graph_text(g@) == stdout@ && forall|g2: Seq<(Seq<char>, Seq<(Kind, Seq<char>)>)>|
                graph_ok(g2) && graph_text(g2) == stdout@ ==> g2 == g@,
            Err(Error::DepsParse(s)) => s@ == stdout@ && forall|g2: Seq<(Seq<char>, Seq<(Kind, Seq<char>)>)>|
                graph_ok(g2) ==> graph_text(g2) != stdout@,
            Err(_) => false,
        },
{
    match Graph::parser(stdout.as_str()) {
        Some(g) => Ok(g),
        None => Err(Error::DepsParse(stdout)),
    }
}
} // verus!

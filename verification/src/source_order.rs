use vstd::prelude::*;
use std::cmp::Ordering;
use vstd::std_specs::cmp::PartialOrdSpecImpl;
use crate::source::{Source, PathPart, Part, parts_view};
use crate::text::chars_of;

verus! {

/// `a` comes before `b` in the order of characters, by code point, a prefix first.
pub open spec fn chars_before(a: Seq<char>, b: Seq<char>) -> bool
    decreases a.len(),
{
    if a.len() == 0 {
        b.len() > 0
    } else if b.len() == 0 {
        false
    } else if a[0] != b[0] {
        a[0] < b[0]
    } else {
        chars_before(a.drop_first(), b.drop_first())
    }
}

/// The rank of a kind of component in the order of std's `Component` on Unix.
pub open spec fn part_rank(p: PathPart) -> int {
    match p {
        PathPart::RootDir => 0,
        PathPart::CurDir => 1,
        PathPart::ParentDir => 2,
        PathPart::Normal(_) => 3,
    }
}

/// `x` comes before `y`: by kind, and two names by their characters.
pub open spec fn part_before(x: PathPart, y: PathPart) -> bool {
    match (x, y) {
        (PathPart::Normal(a), PathPart::Normal(b)) => chars_before(a, b),
        _ => part_rank(x) < part_rank(y),
    }
}

/// `a` comes before `b` component by component, a prefix first, as std's `Path` orders paths.
pub open spec fn parts_before(a: Seq<PathPart>, b: Seq<PathPart>) -> bool
    decreases a.len(),
{
    if a.len() == 0 {
        b.len() > 0
    } else if b.len() == 0 {
        false
    } else if a[0] != b[0] {
        part_before(a[0], b[0])
    } else {
        parts_before(a.drop_first(), b.drop_first())
    }
}

/// -1, 0 or 1 where `a` comes before, is, or comes after `b`.
pub open spec fn three_way(same: bool, before: bool) -> int {
    if same {
        0
    } else if before {
        -1
    } else {
        1
    }
}

/// Compares two texts by their characters.
fn chars_compare(a: &String, b: &String) -> (r: i8)
    ensures
        r == three_way(a@ == b@, chars_before(a@, b@)),
{
    let x = chars_of(a.as_str());
    let y = chars_of(b.as_str());
    let mut i: usize = 0;
    assert(x@.skip(0) =~= x@ && y@.skip(0) =~= y@);
    loop
        invariant
            i <= x@.len() && i <= y@.len(),
            x@ == a@ && y@ == b@,
            x@.take(i as int) == y@.take(i as int),
            chars_before(a@, b@) == chars_before(x@.skip(i as int), y@.skip(i as int)),
        decreases x@.len() - i,
    {
        if i == x.len() {
            if i == y.len() {
                assert(x@ =~= x@.take(i as int) && y@ =~= y@.take(i as int));
                return 0;
            }
            proof {
                if a@ == b@ {
                    assert(x@.len() == y@.len());
                }
            }
            return -1;
        }
        if i == y.len() {
            proof {
                if a@ == b@ {
                    assert(x@.len() == y@.len());
                }
            }
            return 1;
        }
        let ghost xs = x@.skip(i as int);
        let ghost ys = y@.skip(i as int);
        assert(xs[0] == x@[i as int] && ys[0] == y@[i as int]);
        if x[i] != y[i] {
            proof {
                if a@ == b@ {
                    assert(x@[i as int] == y@[i as int]);
                }
            }
            if x[i] < y[i] {
                return -1;
            }
            return 1;
        }
        assert(xs.drop_first() =~= x@.skip(i + 1) && ys.drop_first() =~= y@.skip(i + 1));
        assert(x@.take(i + 1) =~= x@.take(i as int).push(x@[i as int]));
        assert(y@.take(i + 1) =~= y@.take(i as int).push(y@[i as int]));
        i = i + 1;
    }
}

/// The rank of a component's kind.
fn rank(p: &Part) -> (r: u8)
    ensures
        r == part_rank(p@),
{
    match p {
        Part::RootDir => 0,
        Part::CurDir => 1,
        Part::ParentDir => 2,
        Part::Normal(_) => 3,
    }
}

/// Compares two components.
fn part_compare(x: &Part, y: &Part) -> (r: i8)
    ensures
        r == three_way(x@ == y@, part_before(x@, y@)),
{
    match (x, y) {
        (Part::Normal(a), Part::Normal(b)) => chars_compare(a, b),
        _ => {
            let rx = rank(x);
            let ry = rank(y);
            if rx < ry {
                -1
            } else if rx > ry {
                1
            } else {
                match (x, y) {
                    (Part::RootDir, Part::RootDir) => 0,
                    (Part::CurDir, Part::CurDir) => 0,
                    (Part::ParentDir, Part::ParentDir) => 0,
                    _ => 1,
                }
            }
        },
    }
}

/// Compares two lists of components.
fn parts_compare(a: &Vec<Part>, b: &Vec<Part>) -> (r: i8)
    ensures
        r == three_way(parts_view(a@) == parts_view(b@), parts_before(parts_view(a@), parts_view(b@))),
{
    let ghost x = parts_view(a@);
    let ghost y = parts_view(b@);
    let mut i: usize = 0;
    assert(x.skip(0) =~= x && y.skip(0) =~= y);
    loop
        invariant
            i <= a@.len() && i <= b@.len(),
            x == parts_view(a@) && y == parts_view(b@),
            x.take(i as int) == y.take(i as int),
            parts_before(x, y) == parts_before(x.skip(i as int), y.skip(i as int)),
        decreases a@.len() - i,
    {
        if i == a.len() {
            if i == b.len() {
                assert(x =~= x.take(i as int) && y =~= y.take(i as int));
                return 0;
            }
            proof {
                if x == y {
                    assert(x.len() == y.len());
                }
            }
            return -1;
        }
        if i == b.len() {
            proof {
                if x == y {
                    assert(x.len() == y.len());
                }
            }
            return 1;
        }
        let ghost xs = x.skip(i as int);
        let ghost ys = y.skip(i as int);
        assert(xs[0] == a@[i as int]@ && ys[0] == b@[i as int]@);
        let c = part_compare(&a[i], &b[i]);
        if c != 0 {
            proof {
                if x == y {
                    assert(x[i as int] == y[i as int]);
                }
            }
            return c;
        }
        assert(xs.drop_first() =~= x.skip(i + 1) && ys.drop_first() =~= y.skip(i + 1));
        assert(x.take(i + 1) =~= x.take(i as int).push(x[i as int]));
        assert(y.take(i + 1) =~= y.take(i as int).push(y[i as int]));
        i = i + 1;
    }
}

/// The order of two sources: as std's `Path` orders paths, by their components.
pub open spec fn source_order(a: Seq<PathPart>, b: Seq<PathPart>) -> Ordering {
    if a == b {
        Ordering::Equal
    } else if parts_before(a, b) {
        Ordering::Less
    } else {
        Ordering::Greater
    }
}

/// Of two different texts, exactly one comes before the other.
proof fn lemma_chars_before_total(a: Seq<char>, b: Seq<char>)
    ensures
        a != b ==> chars_before(a, b) != chars_before(b, a),
        !chars_before(a, a),
    decreases a.len(),
{
    if a.len() > 0 && b.len() > 0 {
        if a[0] != b[0] {
            assert(a[0] < b[0] || b[0] < a[0]);
        } else {
            lemma_chars_before_total(a.drop_first(), b.drop_first());
            if a.drop_first() == b.drop_first() {
                assert(a =~= b) by {
                    assert forall|i: int| 0 <= i < a.len() implies a[i] == b[i] by {
                        if i > 0 {
                            assert(a[i] == a.drop_first()[i - 1]);
                            assert(b[i] == b.drop_first()[i - 1]);
                        }
                    }
                }
            }
        }
    }
    if a.len() == 0 && b.len() == 0 {
        assert(a =~= b);
    }
    if a.len() > 0 {
        lemma_chars_before_total(a.drop_first(), a.drop_first());
    }
}

/// The order of texts is transitive.
proof fn lemma_chars_before_transitive(a: Seq<char>, b: Seq<char>, c: Seq<char>)
    requires
        chars_before(a, b),
        chars_before(b, c),
    ensures
        chars_before(a, c),
    decreases a.len(),
{
    if a.len() > 0 && a[0] == b[0] && b[0] == c[0] {
        lemma_chars_before_transitive(a.drop_first(), b.drop_first(), c.drop_first());
    }
}

/// Of two different components, exactly one comes before the other.
proof fn lemma_part_before_total(x: PathPart, y: PathPart)
    ensures
        x != y ==> part_before(x, y) != part_before(y, x),
        !part_before(x, x),
{
    match (x, y) {
        (PathPart::Normal(a), PathPart::Normal(b)) => {
            lemma_chars_before_total(a, b);
        },
        _ => {},
    }
    match x {
        PathPart::Normal(a) => lemma_chars_before_total(a, a),
        _ => {},
    }
}

/// The order of components is transitive.
proof fn lemma_part_before_transitive(x: PathPart, y: PathPart, z: PathPart)
    requires
        part_before(x, y),
        part_before(y, z),
    ensures
        part_before(x, z),
{
    match (x, y, z) {
        (PathPart::Normal(a), PathPart::Normal(b), PathPart::Normal(c)) => {
            lemma_chars_before_transitive(a, b, c);
        },
        _ => {},
    }
}

/// Of two different paths, exactly one comes before the other.
proof fn lemma_parts_before_total(a: Seq<PathPart>, b: Seq<PathPart>)
    ensures
        a != b ==> parts_before(a, b) != parts_before(b, a),
        !parts_before(a, a),
    decreases a.len(),
{
    if a.len() > 0 && b.len() > 0 {
        if a[0] != b[0] {
            lemma_part_before_total(a[0], b[0]);
        } else {
            lemma_parts_before_total(a.drop_first(), b.drop_first());
            if a.drop_first() == b.drop_first() {
                assert(a =~= b) by {
                    assert forall|i: int| 0 <= i < a.len() implies a[i] == b[i] by {
                        if i > 0 {
                            assert(a[i] == a.drop_first()[i - 1]);
                            assert(b[i] == b.drop_first()[i - 1]);
                        }
                    }
                }
            }
        }
    }
    if a.len() == 0 && b.len() == 0 {
        assert(a =~= b);
    }
    if a.len() > 0 {
        lemma_parts_before_total(a.drop_first(), a.drop_first());
    }
}

/// The order of paths is transitive.
proof fn lemma_parts_before_transitive(a: Seq<PathPart>, b: Seq<PathPart>, c: Seq<PathPart>)
    requires
        parts_before(a, b),
        parts_before(b, c),
    ensures
        parts_before(a, c),
    decreases a.len(),
{
    if a.len() > 0 && b.len() > 0 && c.len() > 0 {
        if a[0] == b[0] && b[0] == c[0] {
            lemma_parts_before_transitive(a.drop_first(), b.drop_first(), c.drop_first());
        } else if a[0] != b[0] && b[0] != c[0] {
            lemma_part_before_transitive(a[0], b[0], c[0]);
            if a[0] == c[0] {
                lemma_part_before_total(a[0], b[0]);
            }
        }
    }
}

/// Sources are totally ordered: two sources compare as equal exactly when they are the same
/// path, the order of two others turns round when they change places, and it is transitive.
pub proof fn lemma_source_order_total(a: Seq<PathPart>, b: Seq<PathPart>, c: Seq<PathPart>)
    ensures
        (source_order(a, b) == Ordering::Equal) == (a == b),
        (source_order(a, b) == Ordering::Less) == (source_order(b, a) == Ordering::Greater),
        source_order(a, b) == Ordering::Less && source_order(b, c) == Ordering::Less
            ==> source_order(a, c) == Ordering::Less,
{
    lemma_parts_before_total(a, b);
    if source_order(a, b) == Ordering::Less && source_order(b, c) == Ordering::Less {
        lemma_parts_before_transitive(a, b, c);
        lemma_parts_before_total(a, c);
    }
}

/// A common start changes nothing of how two texts compare.
proof fn lemma_chars_before_common_prefix(p: Seq<char>, a: Seq<char>, b: Seq<char>)
    ensures
        chars_before(p + a, p + b) == chars_before(a, b),
    decreases p.len(),
{
    if p.len() > 0 {
        assert((p + a)[0] == p[0] && (p + b)[0] == p[0]);
        assert((p + a).drop_first() =~= p.drop_first() + a);
        assert((p + b).drop_first() =~= p.drop_first() + b);
        lemma_chars_before_common_prefix(p.drop_first(), a, b);
    } else {
        assert(p + a =~= a && p + b =~= b);
    }
}

/// A common start changes nothing of how two paths compare.
proof fn lemma_parts_before_common_prefix(p: Seq<PathPart>, a: Seq<PathPart>, b: Seq<PathPart>)
    ensures
        parts_before(p + a, p + b) == parts_before(a, b),
    decreases p.len(),
{
    if p.len() > 0 {
        assert((p + a)[0] == p[0] && (p + b)[0] == p[0]);
        assert((p + a).drop_first() =~= p.drop_first() + a);
        assert((p + b).drop_first() =~= p.drop_first() + b);
        lemma_parts_before_common_prefix(p.drop_first(), a, b);
    } else {
        assert(p + a =~= a && p + b =~= b);
    }
}

/// Two texts whose first difference is at `k` compare as the characters there do, by code point.
proof fn lemma_chars_first_difference(x: Seq<char>, y: Seq<char>, k: int)
    requires
        0 <= k < x.len(),
        k < y.len(),
        x.take(k) == y.take(k),
        x[k] < y[k],
    ensures
        chars_before(x, y),
        x != y,
{
    assert(x =~= x.take(k) + x.skip(k));
    assert(y =~= y.take(k) + y.skip(k));
    lemma_chars_before_common_prefix(x.take(k), x.skip(k), y.skip(k));
    assert(x.skip(k)[0] == x[k] && y.skip(k)[0] == y[k]);
    assert(x[k] != y[k]);
}

/// A text that is a strict start of another comes before it.
proof fn lemma_chars_strict_prefix(x: Seq<char>, y: Seq<char>)
    requires
        x.len() < y.len(),
        x.is_prefix_of(y),
    ensures
        chars_before(x, y),
{
    assert(x =~= x + Seq::<char>::empty());
    assert(y =~= x + y.skip(x.len() as int));
    lemma_chars_before_common_prefix(x, Seq::<char>::empty(), y.skip(x.len() as int));
}

/// Two paths that share the components `p` and then differ in a component are different.
proof fn lemma_differ_after_common(p: Seq<PathPart>, u: PathPart, v: PathPart, a: Seq<PathPart>, b: Seq<PathPart>)
    requires
        u != v,
    ensures
        p + seq![u] + a != p + seq![v] + b,
{
    let i = p.len() as int;
    assert((p + seq![u] + a)[i] == u && (p + seq![v] + b)[i] == v);
}

/// Two paths that share the components `p` and then differ in `u` and `v` compare as those do.
proof fn lemma_order_after_common(p: Seq<PathPart>, u: PathPart, v: PathPart, a: Seq<PathPart>, b: Seq<PathPart>)
    requires
        u != v,
    ensures
        source_order(p + seq![u] + a, p + seq![v] + b) == if part_before(u, v) {
            Ordering::Less
        } else {
            Ordering::Greater
        },
{
    let x = p + seq![u] + a;
    let y = p + seq![v] + b;
    assert(x =~= p + (seq![u] + a));
    assert(y =~= p + (seq![v] + b));
    lemma_parts_before_common_prefix(p, seq![u] + a, seq![v] + b);
    assert((seq![u] + a)[0] == u && (seq![v] + b)[0] == v);
    lemma_differ_after_common(p, u, v, a, b);
}

/// Names compare by their characters' code points: after any common components, a component
/// whose name first differs from another's at `k`, with a lower code point there, puts its path
/// first, whatever follows; and a name that is a strict start of another puts its path first.
pub proof fn lemma_source_order_names(
    p: Seq<PathPart>,
    x: Seq<char>,
    y: Seq<char>,
    a: Seq<PathPart>,
    b: Seq<PathPart>,
    k: int,
)
    ensures
        0 <= k < x.len() && k < y.len() && x.take(k) == y.take(k) && x[k] < y[k] ==> {
            &&& source_order(p + seq![PathPart::Normal(x)] + a, p + seq![PathPart::Normal(y)] + b) == Ordering::Less
            &&& source_order(p + seq![PathPart::Normal(y)] + b, p + seq![PathPart::Normal(x)] + a) == Ordering::Greater
        },
        x.len() < y.len() && x.is_prefix_of(y) ==>
            source_order(p + seq![PathPart::Normal(x)] + a, p + seq![PathPart::Normal(y)] + b) == Ordering::Less,
{
    if 0 <= k < x.len() && k < y.len() && x.take(k) == y.take(k) && x[k] < y[k] {
        lemma_chars_first_difference(x, y, k);
        lemma_chars_before_total(x, y);
        lemma_order_after_common(p, PathPart::Normal(x), PathPart::Normal(y), a, b);
        lemma_order_after_common(p, PathPart::Normal(y), PathPart::Normal(x), b, a);
    }
    if x.len() < y.len() && x.is_prefix_of(y) {
        lemma_chars_strict_prefix(x, y);
        lemma_order_after_common(p, PathPart::Normal(x), PathPart::Normal(y), a, b);
    }
}

/// Components of different kinds compare as std's `Component` does on Unix: after any common
/// components, the root comes first, then `.`, then `..`, then any name, whatever follows.
pub proof fn lemma_source_order_kinds(p: Seq<PathPart>, n: Seq<char>, a: Seq<PathPart>, b: Seq<PathPart>)
    ensures
        source_order(p + seq![PathPart::RootDir] + a, p + seq![PathPart::CurDir] + b) == Ordering::Less,
        source_order(p + seq![PathPart::RootDir] + a, p + seq![PathPart::ParentDir] + b) == Ordering::Less,
        source_order(p + seq![PathPart::RootDir] + a, p + seq![PathPart::Normal(n)] + b) == Ordering::Less,
        source_order(p + seq![PathPart::CurDir] + a, p + seq![PathPart::ParentDir] + b) == Ordering::Less,
        source_order(p + seq![PathPart::CurDir] + a, p + seq![PathPart::Normal(n)] + b) == Ordering::Less,
        source_order(p + seq![PathPart::ParentDir] + a, p + seq![PathPart::Normal(n)] + b) == Ordering::Less,
{
    lemma_order_after_common(p, PathPart::RootDir, PathPart::CurDir, a, b);
    lemma_order_after_common(p, PathPart::RootDir, PathPart::ParentDir, a, b);
    lemma_order_after_common(p, PathPart::RootDir, PathPart::Normal(n), a, b);
    lemma_order_after_common(p, PathPart::CurDir, PathPart::ParentDir, a, b);
    lemma_order_after_common(p, PathPart::CurDir, PathPart::Normal(n), a, b);
    lemma_order_after_common(p, PathPart::ParentDir, PathPart::Normal(n), a, b);
}

/// A path that is a strict start of another, component by component, comes first.
pub proof fn lemma_source_order_prefix(p: Seq<PathPart>, a: Seq<PathPart>)
    requires
        a.len() > 0,
    ensures
        source_order(p, p + a) == Ordering::Less,
{
    assert(p =~= p + Seq::<PathPart>::empty());
    lemma_parts_before_common_prefix(p, Seq::<PathPart>::empty(), a);
    assert((p + a).len() != p.len());
}

impl PartialOrd for Source {
    fn partial_cmp(&self, other: &Self) -> (r: Option<Ordering>) {
        let c = parts_compare(self.parts(), other.parts());
        if c < 0 {
            Some(Ordering::Less)
        } else if c == 0 {
            Some(Ordering::Equal)
        } else {
            Some(Ordering::Greater)
        }
    }
}

impl PartialOrdSpecImpl for Source {
    open spec fn obeys_partial_cmp_spec() -> bool {
        true
    }

    open spec fn partial_cmp_spec(&self, other: &Self) -> Option<Ordering> {
        Some(source_order(self@, other@))
    }
}

} // verus!

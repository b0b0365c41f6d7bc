use vstd::prelude::*;
use crate::text::{chars_of, string_from_chars};

verus! {

/// One component of a path, as `Path::components` of std reads it on Unix.
pub enum PathPart {
    RootDir,
    CurDir,
    ParentDir,
    Normal(Seq<char>),
}

/// The component that a piece between two `/` makes: none for an empty piece or `.`.
pub open spec fn piece_part(piece: Seq<char>) -> Seq<PathPart> {
    if piece.len() == 0 || piece == seq!['.'] {
        seq![]
    } else if piece == seq!['.', '.'] {
        seq![PathPart::ParentDir]
    } else {
        seq![PathPart::Normal(piece)]
    }
}

/// The components of the pieces of `p`, where `cur` is the piece read so far before `p`.
pub open spec fn parts_from(p: Seq<char>, cur: Seq<char>) -> Seq<PathPart>
    decreases p.len(),
{
    if p.len() == 0 {
        piece_part(cur)
    } else if p[0] == '/' {
        piece_part(cur) + parts_from(p.drop_first(), seq![])
    } else {
        parts_from(p.drop_first(), cur.push(p[0]))
    }
}

/// `p` starts with a `.` of its own: `.` alone, or `.` and `/`.
pub open spec fn starts_cur_dir(p: Seq<char>) -> bool {
    p.len() > 0 && p[0] == '.' && (p.len() == 1 || p[1] == '/')
}

/// The components of a path, as `Path::components` of std reads them on Unix: a root for a
/// leading `/`, a current directory for a leading `.` piece, then one component for each piece
/// between `/`, where empty and `.` pieces make none and `..` makes a parent directory.
pub open spec fn components(p: Seq<char>) -> Seq<PathPart> {
    if p.len() > 0 && p[0] == '/' {
        seq![PathPart::RootDir] + parts_from(p.drop_first(), seq![])
    } else if starts_cur_dir(p) {
        seq![PathPart::CurDir] + parts_from(p.drop_first(), seq![])
    } else {
        parts_from(p, seq![])
    }
}

/// A component of a path.
#[derive(Debug)]
pub enum Part {
    RootDir,
    CurDir,
    ParentDir,
    Normal(String),
}

impl View for Part {
    type V = PathPart;

    open spec fn view(&self) -> PathPart {
        match self {
            Part::RootDir => PathPart::RootDir,
            Part::CurDir => PathPart::CurDir,
            Part::ParentDir => PathPart::ParentDir,
            Part::Normal(s) => PathPart::Normal(s@),
        }
    }
}

impl Clone for Part {
    fn clone(&self) -> (r: Self)
        ensures
            r@ == self@,
    {
        match self {
            Part::RootDir => Part::RootDir,
            Part::CurDir => Part::CurDir,
            Part::ParentDir => Part::ParentDir,
            Part::Normal(s) => Part::Normal(s.clone()),
        }
    }
}

/// The values of a list of components.
pub open spec fn parts_view(v: Seq<Part>) -> Seq<PathPart> {
    v.map_values(|p: Part| p@)
}

/// Adds to `out` the component of the piece `cs[a..b]`.
fn push_piece(cs: &Vec<char>, a: usize, b: usize, out: &mut Vec<Part>)
    requires
        a <= b <= cs@.len(),
    ensures
        parts_view(final(out)@) == parts_view(old(out)@) + piece_part(cs@.subrange(a as int, b as int)),
{
    let ghost piece = cs@.subrange(a as int, b as int);
    let ghost before = parts_view(out@);
    if b == a || (b - a == 1 && cs[a] == '.') {
        proof {
            if b - a == 1 && cs@[a as int] == '.' {
                assert(piece =~= seq!['.']);
            }
        }
        assert(parts_view(out@) =~= before + piece_part(piece));
        return;
    }
    if b - a == 2 && cs[a] == '.' && cs[a + 1] == '.' {
        assert(piece =~= seq!['.', '.']);
        out.push(Part::ParentDir);
        assert(parts_view(out@) =~= before + piece_part(piece));
        return;
    }
    proof {
        if piece == seq!['.'] {
            assert(piece[0] == cs@[a as int]);
        }
        if piece == seq!['.', '.'] {
            assert(piece[0] == cs@[a as int] && piece[1] == cs@[a + 1]);
        }
    }
    let name = string_from_chars(vstd::slice::slice_subrange(cs.as_slice(), a, b));
    assert(name@ == piece);
    assert(piece_part(piece) == seq![PathPart::Normal(piece)]);
    let ghost old_out = out@;
    out.push(Part::Normal(name));
    assert(parts_view(out@) =~= parts_view(old_out).push(PathPart::Normal(piece)));
    assert(parts_view(out@) =~= before + piece_part(piece));
}

/// The components of the path `s`.
pub fn parts_of(s: &str) -> (r: Vec<Part>)
    ensures
        parts_view(r@) == components(s@),
{
    let cs = chars_of(s);
    let n = cs.len();
    let mut out: Vec<Part> = Vec::new();
    let mut i: usize = 0;
    if n > 0 && cs[0] == '/' {
        out.push(Part::RootDir);
        i = 1;
    } else if n > 0 && cs[0] == '.' && (n == 1 || cs[1] == '/') {
        out.push(Part::CurDir);
        i = 1;
    }
    proof {
        assert(cs@.skip(i as int) =~= if i == 0 { cs@ } else { cs@.drop_first() });
        assert(cs@.subrange(i as int, i as int) =~= Seq::<char>::empty());
        assert(parts_view(out@) + parts_from(cs@.skip(i as int), cs@.subrange(i as int, i as int)) =~= components(s@));
    }
    let mut start = i;
    while i < n
        invariant
            n == cs@.len(),
            cs@ == s@,
            start <= i <= n,
            parts_view(out@) + parts_from(cs@.skip(i as int), cs@.subrange(start as int, i as int)) == components(s@),
        decreases n - i,
    {
        let ghost rest = cs@.skip(i as int);
        assert(rest[0] == cs@[i as int]);
        assert(rest.drop_first() =~= cs@.skip(i + 1));
        if cs[i] == '/' {
            let ghost before = parts_view(out@);
            push_piece(&cs, start, i, &mut out);
            proof {
                let cur = cs@.subrange(start as int, i as int);
                assert(parts_from(rest, cur) == piece_part(cur) + parts_from(cs@.skip(i + 1), seq![]));
                assert(cs@.subrange(i + 1, i + 1) =~= Seq::<char>::empty());
                assert(parts_view(out@) + parts_from(cs@.skip(i + 1), cs@.subrange(i + 1, i + 1)) =~= before + (piece_part(cur) + parts_from(cs@.skip(i + 1), seq![])));
            }
            start = i + 1;
        } else {
            proof {
                assert(cs@.subrange(start as int, i as int).push(cs@[i as int]) =~= cs@.subrange(start as int, i + 1));
            }
        }
        i = i + 1;
    }
    let ghost before = parts_view(out@);
    proof {
        assert(cs@.skip(n as int) =~= Seq::<char>::empty());
    }
    push_piece(&cs, start, n, &mut out);
    out
}

/// Whether two lists of components are the same.
fn parts_eq(a: &Vec<Part>, b: &Vec<Part>) -> (r: bool)
    ensures
        r == (parts_view(a@) == parts_view(b@)),
{
    if a.len() != b.len() {
        proof {
            if parts_view(a@) == parts_view(b@) {
                assert(parts_view(a@).len() == parts_view(b@).len());
            }
        }
        return false;
    }
    let mut i: usize = 0;
    while i < a.len()
        invariant
            a@.len() == b@.len(),
            i <= a@.len(),
            forall|j: int| 0 <= j < i ==> a@[j]@ == b@[j]@,
        decreases a@.len() - i,
    {
        let same = match (&a[i], &b[i]) {
            (Part::RootDir, Part::RootDir) => true,
            (Part::CurDir, Part::CurDir) => true,
            (Part::ParentDir, Part::ParentDir) => true,
            (Part::Normal(x), Part::Normal(y)) => *x == *y,
            _ => false,
        };
        if !same {
            proof {
                assert(parts_view(a@)[i as int] != parts_view(b@)[i as int]);
            }
            return false;
        }
        i = i + 1;
    }
    assert(parts_view(a@) =~= parts_view(b@));
    true
}

/// A copy of a list of components.
fn clone_parts(v: &Vec<Part>) -> (r: Vec<Part>)
    ensures
        parts_view(r@) == parts_view(v@),
{
    let mut r: Vec<Part> = Vec::new();
    let mut i: usize = 0;
    while i < v.len()
        invariant
            i <= v@.len(),
            parts_view(r@) == parts_view(v@).take(i as int),
        decreases v@.len() - i,
    {
        let c = v[i].clone();
        let ghost old_r = r@;
        r.push(c);
        assert(parts_view(r@) =~= parts_view(v@).take(i + 1)) by {
            assert(parts_view(r@) =~= parts_view(old_r).push(c@));
        }
        i = i + 1;
    }
    assert(parts_view(v@).take(v@.len() as int) =~= parts_view(v@));
    r
}

/// A source file of a build, named by its path. Two sources are the same where their paths have
/// the same components, as with std's `Path`.
#[derive(Debug)]
pub struct Source {
    path: String,
    parts: Vec<Part>,
}

impl Source {
    /// The components kept with the path are its components.
    #[verifier::type_invariant]
    spec fn parts_match(self) -> bool {
        parts_view(self.parts@) == components(self.path@)
    }

    /// The path's text.
    pub closed spec fn text(self) -> Seq<char> {
        self.path@
    }
}

impl View for Source {
    type V = Seq<PathPart>;

    closed spec fn view(&self) -> Seq<PathPart> {
        components(self.path@)
    }
}

/// A source is viewed as the components of its path.
pub broadcast proof fn lemma_source_view(s: Source)
    ensures
        #[trigger] s@ == components(s.text()),
{
}

impl std::hash::Hash for Source {
    /// Hashes the path as `Hash` of std's `Path` does, by its components.
    /// Calls `Hash::hash` of `std::path::Path`; nothing is stated of it.
    #[verifier::external_body]
    fn hash<H: std::hash::Hasher>(&self, state: &mut H) {
        std::hash::Hash::hash(std::path::Path::new(self.path.as_str()), state)
    }
}

impl Clone for Source {
    fn clone(&self) -> (s: Self)
        ensures
            s@ == self@,
            s.text() == self.text(),
    {
        proof {
            use_type_invariant(self);
        }
        Source { path: self.path.clone(), parts: clone_parts(&self.parts) }
    }
}

impl Eq for Source {
}

impl PartialEq for Source {
    fn eq(&self, other: &Self) -> (r: bool) {
        proof {
            use_type_invariant(self);
            use_type_invariant(other);
        }
        parts_eq(&self.parts, &other.parts)
    }
}

impl vstd::std_specs::cmp::PartialEqSpecImpl for Source {
    open spec fn obeys_eq_spec() -> bool {
        true
    }

    open spec fn eq_spec(&self, other: &Self) -> bool {
        self@ == other@
    }
}

impl Source {
    /// Makes the source for the file at `path`.
    pub fn new(path: String) -> (s: Self)
        ensures
            s.text() == path@,
            s@ == components(path@),
    {
        let parts = parts_of(path.as_str());
        Source { path, parts }
    }

    /// The path of the file.
    pub fn path(&self) -> (p: String)
        ensures
            p@ == self.text(),
    {
        self.path.clone()
    }

    /// The path of the file, borrowed.
    pub fn path_str(&self) -> (p: &str)
        ensures
            p@ == self.text(),
    {
        self.path.as_str()
    }

    /// The components of the path.
    pub fn parts(&self) -> (r: &Vec<Part>)
        ensures
            parts_view(r@) == self@,
    {
        proof {
            use_type_invariant(self);
        }
        &self.parts
    }
}

/// The paths of a list of sources, by their components.
pub open spec fn paths_of(v: Seq<Source>) -> Seq<Seq<PathPart>> {
    v.map_values(|s: Source| s@)
}

/// Whether `v` holds a source with the path of `s`.
pub fn contains_source(v: &Vec<Source>, s: &Source) -> (r: bool)
    ensures
        r == paths_of(v@).contains(s@),
{
    let mut i: usize = 0;
    while i < v.len()
        invariant
            i <= v@.len(),
            forall|j: int| 0 <= j < i ==> v@[j]@ != s@,
        decreases v@.len() - i,
    {
        if v[i] == *s {
            assert(paths_of(v@)[i as int] == s@);
            return true;
        }
        i = i + 1;
    }
    proof {
        if paths_of(v@).contains(s@) {
            let j = choose|j: int| 0 <= j < paths_of(v@).len() && paths_of(v@)[j] == s@;
            assert(v@[j]@ == s@);
        }
    }
    false
}

} // verus!

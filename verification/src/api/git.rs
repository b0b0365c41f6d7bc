use vstd::prelude::*;
use vstd::string::StringExecFns;
use std::hash::Hash;

verus! {

/// A git repository and a point in its history.
#[derive(Clone, Debug, Eq, PartialEq, Hash)]
pub struct Location<Point: Clone + Eq + Hash> {
    url: String,
    point: Point,
}

impl<Point: Clone + Eq + Hash> Location<Point> {
    /// The location of `point` in the repository at `url`.
    pub fn new(url: String, point: Point) -> (r: Self)
        ensures
            r.url_view() == url@,
            r.point_view() == point,
    {
        Location { url, point }
    }

    /// The repository's address.
    pub closed spec fn url_view(self) -> Seq<char> {
        self.url@
    }

    /// The point in the repository's history.
    pub closed spec fn point_view(self) -> Point {
        self.point
    }

    /// The repository's address.
    pub fn repository(&self) -> (r: &str)
        ensures
            r@ == self.url_view(),
    {
        self.url.as_str()
    }

    /// The point in the repository's history.
    pub fn point(&self) -> (r: &Point)
        ensures
            *r == self.point_view(),
    {
        &self.point
    }
}

/// What went wrong while locking a git location.
#[derive(Debug)]
pub enum Error {
    Unknown,
}

/// A full git commit hash.
#[derive(Clone, Copy, Debug, Eq, PartialEq, Hash)]
pub struct GitFullCommit(pub [u8; 20]);

/// A point in a git history: a revision, a branch or a tag.
#[derive(Clone, Debug, Eq, PartialEq, Hash)]
pub enum GitPoint {
    Rev(String),
    Branch(String),
    Tag(String),
}

/// The refspec that names a point for `git fetch`.
pub open spec fn refspec_of(p: GitPoint) -> Seq<char> {
    match p {
        GitPoint::Rev(rev) => rev@,
        GitPoint::Branch(branch) => "refs/heads/"@ + branch@,
        GitPoint::Tag(tag) => "refs/tags/"@ + tag@,
    }
}

impl GitPoint {
    /// The refspec that names this point for `git fetch`: a revision itself, a branch under
    /// `refs/heads/`, a tag under `refs/tags/`.
    pub fn refspec(&self) -> (r: String)
        ensures
            r@ == refspec_of(*self),
            match *self {
                GitPoint::Rev(rev) => r@ == rev@,
                GitPoint::Branch(branch) => r@ == "refs/heads/"@ + branch@,
                GitPoint::Tag(tag) => r@ == "refs/tags/"@ + tag@,
            },
    {
        match self {
            GitPoint::Rev(rev) => rev.clone(),
            GitPoint::Branch(branch) => {
                let mut r = String::from_str("refs/heads/");
                r.append(branch.as_str());
                r
            },
            GitPoint::Tag(tag) => {
                let mut r = String::from_str("refs/tags/");
                r.append(tag.as_str());
                r
            },
        }
    }
}

/// The refspec of a revision is the revision's text itself, whatever its length; that of a
/// branch is `refs/heads/` followed by the branch's name, character for character; that of a tag
/// is `refs/tags/` followed by the tag's name.
pub proof fn lemma_refspec_text(p: GitPoint)
    ensures
        p is Rev ==> refspec_of(p) == p->Rev_0@ && refspec_of(p).len() == p->Rev_0@.len(),
        p is Branch ==> {
            &&& refspec_of(p).len() == 11 + p->Branch_0@.len()
            &&& refspec_of(p).take(11) == "refs/heads/"@
            &&& refspec_of(p).skip(11) == p->Branch_0@
        },
        p is Tag ==> {
            &&& refspec_of(p).len() == 10 + p->Tag_0@.len()
            &&& refspec_of(p).take(10) == "refs/tags/"@
            &&& refspec_of(p).skip(10) == p->Tag_0@
        },
{
    reveal_strlit("refs/heads/");
    reveal_strlit("refs/tags/");
    match p {
        GitPoint::Rev(_) => {},
        GitPoint::Branch(b) => {
            assert(("refs/heads/"@ + b@).take(11) =~= "refs/heads/"@);
            assert(("refs/heads/"@ + b@).skip(11) =~= b@);
        },
        GitPoint::Tag(t) => {
            assert(("refs/tags/"@ + t@).take(10) =~= "refs/tags/"@);
            assert(("refs/tags/"@ + t@).skip(10) =~= t@);
        },
    }
}

/// Two points of the same kind have the same refspec only when they have the same name: the
/// refspec keeps the whole name.
pub proof fn lemma_refspec_injective(p: GitPoint, q: GitPoint)
    requires
        (p is Rev && q is Rev) || (p is Branch && q is Branch) || (p is Tag && q is Tag),
        refspec_of(p) == refspec_of(q),
    ensures
        match (p, q) {
            (GitPoint::Rev(a), GitPoint::Rev(b)) => a@ == b@,
            (GitPoint::Branch(a), GitPoint::Branch(b)) => a@ == b@,
            (GitPoint::Tag(a), GitPoint::Tag(b)) => a@ == b@,
            _ => false,
        },
{
    lemma_refspec_text(p);
    lemma_refspec_text(q);
}

} // verus!

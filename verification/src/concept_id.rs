//! Concept identifiers: a concept's bundle-relative path without `.md`,
//! held as its `/`-separated segments.
use crate::chars::{chars_of, string_of};
use crate::text::{join, join_v, slice_of, split, split_v, views};
use vstd::prelude::*;

verus! {

/// A segment may name a file or a directory: it is not empty, not `.` or
/// `..`, and holds no `/`.
pub open spec fn valid_segment(s: Seq<char>) -> bool {
    &&& s.len() > 0
    &&& s != seq!['.']
    &&& s != seq!['.', '.']
    &&& forall|i: int| 0 <= i < s.len() ==> s[i] != '/'
}

/// A concept id has at least one segment, and every segment is valid.
pub open spec fn valid_segments(segs: Seq<Seq<char>>) -> bool {
    segs.len() > 0 && forall|i: int| 0 <= i < segs.len() ==> valid_segment(#[trigger] segs[i])
}

/// The strings' character sequences.
pub open spec fn string_views(v: Seq<String>) -> Seq<Seq<char>> {
    Seq::new(v.len(), |i: int| v[i]@)
}

/// A validated concept id.
#[derive(Debug)]
pub struct ConceptId {
    segments: Vec<String>,
}

/// Why a path cannot be a concept id.
#[derive(Clone, Debug, PartialEq, Eq)]
pub enum ConceptIdError {
    /// No segments at all.
    Empty,
    /// A segment that is empty, `.`, `..`, or holds a `/`.
    InvalidSegment(String),
}

impl View for ConceptId {
    type V = Seq<Seq<char>>;

    closed spec fn view(&self) -> Seq<Seq<char>> {
        string_views(self.segments@)
    }
}

impl Clone for ConceptId {
    fn clone(&self) -> (r: Self)
        ensures
            r@ == self@,
    {
        proof {
            use_type_invariant(self);
        }
        let mut segs: Vec<String> = Vec::new();
        let mut i: usize = 0;
        while i < self.segments.len()
            invariant
                i <= self.segments@.len(),
                segs@.len() == i,
                string_views(segs@) == string_views(self.segments@).take(i as int),
            decreases self.segments.len() - i,
        {
            let seg = self.segments[i].clone();
            assert(seg@ == string_views(self.segments@)[i as int]);
            let ghost prev = string_views(segs@);
            segs.push(seg);
            assert(string_views(segs@) =~= prev.push(seg@));
            i += 1;
            assert(string_views(segs@) =~= string_views(self.segments@).take(i as int));
        }
        assert(string_views(self.segments@).take(i as int) =~= string_views(self.segments@));
        ConceptId { segments: segs }
    }
}

impl ConceptId {
    #[verifier::type_invariant]
    spec fn inv(self) -> bool {
        valid_segments(string_views(self.segments@))
    }

    /// Builds an id from its segments.
    pub fn new(segments: Vec<String>) -> (r: Result<ConceptId, ConceptIdError>)
        ensures
            r is Ok <==> valid_segments(string_views(segments@)),
            r matches Ok(id) ==> id@ == string_views(segments@),
    {
        if segments.len() == 0 {
            return Err(ConceptIdError::Empty);
        }
        let mut i: usize = 0;
        while i < segments.len()
            invariant
                i <= segments@.len(),
                forall|k: int| 0 <= k < i ==> valid_segment(#[trigger] string_views(segments@)[k]),
            decreases segments.len() - i,
        {
            let s = chars_of(segments[i].as_str());
            if !valid_segment_v(&s) {
                assert(!valid_segment(string_views(segments@)[i as int]));
                return Err(ConceptIdError::InvalidSegment(segments[i].clone()));
            }
            i += 1;
        }
        Ok(ConceptId { segments })
    }

    /// Parses a `/`-separated id such as `policies/travel`.
    pub fn parse(s: &str) -> (r: Result<ConceptId, ConceptIdError>)
        ensures
            r is Ok <==> valid_segments(split(s@, '/')),
            r matches Ok(id) ==> id@ == split(s@, '/'),
    {
        let v = chars_of(s);
        let parts = split_v(&v, '/');
        let mut segs: Vec<String> = Vec::new();
        let mut i: usize = 0;
        while i < parts.len()
            invariant
                i <= parts@.len(),
                segs@.len() == i,
                string_views(segs@) == views(parts@).take(i as int),
            decreases parts.len() - i,
        {
            let seg = string_of(&parts[i]);
            assert(seg@ == views(parts@)[i as int]);
            let ghost prev = string_views(segs@);
            segs.push(seg);
            assert(string_views(segs@) =~= prev.push(seg@));
            i += 1;
            assert(string_views(segs@) =~= views(parts@).take(i as int));
        }
        assert(views(parts@).take(i as int) =~= views(parts@));
        ConceptId::new(segs)
    }

    /// The segments.
    pub fn segments(&self) -> (r: &Vec<String>)
        ensures
            string_views(r@) == self@,
            valid_segments(self@),
    {
        proof {
            use_type_invariant(self);
        }
        &self.segments
    }

    /// The last segment: the concept's file stem.
    pub fn name(&self) -> (r: String)
        ensures
            r@ == self@.last(),
    {
        proof {
            use_type_invariant(self);
        }
        self.segments[self.segments.len() - 1].clone()
    }

    /// The directory holding the concept, as an id; `None` at the root.
    pub fn parent(&self) -> (r: Option<ConceptId>)
        ensures
            r is None <==> self@.len() == 1,
            r matches Some(p) ==> p@ == self@.drop_last(),
    {
        proof {
            use_type_invariant(self);
        }
        let n = self.segments.len();
        if n == 1 {
            return None;
        }
        let mut segs: Vec<String> = Vec::new();
        let mut i: usize = 0;
        while i < n - 1
            invariant
                n == self.segments@.len(),
                n > 1,
                i <= n - 1,
                segs@.len() == i,
                string_views(segs@) == self@.take(i as int),
            decreases n - 1 - i,
        {
            let seg = self.segments[i].clone();
            assert(seg@ == self@[i as int]);
            let ghost prev = string_views(segs@);
            segs.push(seg);
            assert(string_views(segs@) =~= prev.push(seg@));
            i += 1;
            assert(string_views(segs@) =~= self@.take(i as int));
        }
        assert(self@.take(i as int) =~= self@.drop_last());
        let r = ConceptId::new(segs);
        match r {
            Ok(p) => Some(p),
            Err(_) => {
                proof {
                    assert(valid_segments(self@));
                    assert(valid_segments(self@.drop_last())) by {
                        assert forall|k: int| 0 <= k < self@.drop_last().len() implies valid_segment(
                            #[trigger] self@.drop_last()[k],
                        ) by {
                            assert(self@.drop_last()[k] == self@[k]);
                        }
                    }
                }
                None
            },
        }
    }

    /// The id as a path: its segments joined with `/`.
    pub fn to_path(&self) -> (r: String)
        ensures
            r@ == join(self@, seq!['/']),
    {
        let mut parts: Vec<Vec<char>> = Vec::new();
        let mut i: usize = 0;
        while i < self.segments.len()
            invariant
                i <= self.segments@.len(),
                parts@.len() == i,
                views(parts@) == self@.take(i as int),
            decreases self.segments.len() - i,
        {
            let seg = chars_of(self.segments[i].as_str());
            assert(seg@ == self@[i as int]);
            let ghost prev = views(parts@);
            parts.push(seg);
            assert(views(parts@) =~= prev.push(seg@));
            i += 1;
            assert(views(parts@) =~= self@.take(i as int));
        }
        assert(self@.take(i as int) =~= self@);
        let sep = vec!['/'];
        assert(sep@ =~= seq!['/']);
        let v = join_v(&parts, &sep);
        string_of(&v)
    }

    /// Whether two ids name the same concept.
    pub fn same(&self, other: &ConceptId) -> (r: bool)
        ensures
            r == (self@ == other@),
    {
        if self.segments.len() != other.segments.len() {
            return false;
        }
        let mut i: usize = 0;
        while i < self.segments.len()
            invariant
                self@.len() == other@.len(),
                i <= self@.len(),
                forall|k: int| 0 <= k < i ==> self@[k] == other@[k],
            decreases self.segments.len() - i,
        {
            let a = chars_of(self.segments[i].as_str());
            let b = chars_of(other.segments[i].as_str());
            assert(a@ == self@[i as int]);
            assert(b@ == other@[i as int]);
            if !crate::markdown::eq_chars(&a, &b) {
                return false;
            }
            i += 1;
        }
        assert(self@ =~= other@);
        true
    }
}

fn valid_segment_v(s: &[char]) -> (r: bool)
    ensures
        r == valid_segment(s@),
{
    if s.len() == 0 {
        return false;
    }
    if s.len() == 1 && s[0] == '.' {
        assert(s@ =~= seq!['.']);
        return false;
    }
    if s.len() == 2 && s[0] == '.' && s[1] == '.' {
        assert(s@ =~= seq!['.', '.']);
        return false;
    }
    let mut i: usize = 0;
    while i < s.len()
        invariant
            i <= s@.len(),
            forall|k: int| 0 <= k < i ==> s@[k] != '/',
        decreases s.len() - i,
    {
        if s[i] == '/' {
            return false;
        }
        i += 1;
    }
    proof {
        if s@.len() == 1 {
            assert(s@ != seq!['.', '.']);
            if s@ == seq!['.'] {
                assert(s@[0] == '.');
            }
        }
        if s@.len() == 2 && s@ == seq!['.', '.'] {
            assert(s@[0] == '.' && s@[1] == '.');
        }
    }
    true
}

} // verus!

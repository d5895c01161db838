//! Navigation paths: ordered sequences of segments that lead from a root
//! value to a sub-value. A path is immutable once produced for a given
//! indexing step; extending a reference appends a copy of the prior path
//! plus one segment.

use vstd::prelude::*;

verus! {

/// One navigation step from a value to a sub-value.
#[derive(Debug)]
pub enum PathSegment {
    /// A named field of a struct-shaped value.
    Field(String),
    /// A position inside a tuple-shaped value (also steps into the payload
    /// of an option-shaped value at position zero).
    TupleIndex(usize),
    /// A zero-based position inside a list-shaped value.
    ListIndex(usize),
    /// A key of a map-shaped value.
    MapKey(String),
}

/// The mathematical shape of one navigation step.
pub enum Seg {
    Field(Seq<char>),
    TupleIndex(int),
    ListIndex(int),
    MapKey(Seq<char>),
}

impl DeepView for PathSegment {
    type V = Seg;

    open spec fn deep_view(&self) -> Seg {
        match self {
            PathSegment::Field(name) => Seg::Field(name@),
            PathSegment::TupleIndex(i) => Seg::TupleIndex(*i as int),
            PathSegment::ListIndex(i) => Seg::ListIndex(*i as int),
            PathSegment::MapKey(key) => Seg::MapKey(key@),
        }
    }
}

impl PathSegment {
    /// An equal copy of this segment.
    pub fn dup(&self) -> (r: PathSegment)
        ensures
            r.deep_view() == self.deep_view(),
    {
        match self {
            PathSegment::Field(name) => PathSegment::Field(name.clone()),
            PathSegment::TupleIndex(i) => PathSegment::TupleIndex(*i),
            PathSegment::ListIndex(i) => PathSegment::ListIndex(*i),
            PathSegment::MapKey(key) => PathSegment::MapKey(key.clone()),
        }
    }
}

/// One navigation step moved from a one-indexed convention to the
/// zero-indexed one: numeric positions drop by one, names stay.
pub open spec fn seg_to_zero_indexed(seg: Seg) -> Seg {
    match seg {
        Seg::TupleIndex(i) => Seg::TupleIndex(i - 1),
        Seg::ListIndex(i) => Seg::ListIndex(i - 1),
        other => other,
    }
}

/// The path from a reference's root value to the value it denotes.
/// Segments are walked strictly left to right; each segment is resolved
/// against the intermediate value the previous segments led to.
#[derive(Debug)]
pub struct AccessPath {
    pub segments: Vec<PathSegment>,
}

impl DeepView for AccessPath {
    type V = Seq<Seg>;

    open spec fn deep_view(&self) -> Seq<Seg> {
        self.segments.deep_view()
    }
}

impl AccessPath {
    /// The empty path, which denotes the root value itself.
    pub fn empty() -> (r: AccessPath)
        ensures
            r.deep_view() == Seq::<Seg>::empty(),
    {
        let r = AccessPath { segments: Vec::new() };
        proof {
            assert(r.deep_view() =~= Seq::<Seg>::empty());
        }
        r
    }

    /// How many segments the path holds.
    pub fn len(&self) -> (n: usize)
        ensures
            n == self.deep_view().len(),
    {
        self.segments.len()
    }

    /// Whether the path denotes the root value itself.
    pub fn is_empty(&self) -> (b: bool)
        ensures
            b == (self.deep_view().len() == 0),
    {
        self.segments.len() == 0
    }

    /// Appends one segment in place.
    pub fn push(&mut self, seg: PathSegment)
        ensures
            final(self).deep_view() == old(self).deep_view().push(seg.deep_view()),
    {
        let ghost before = self.segments.deep_view();
        self.segments.push(seg);
        proof {
            assert(self.segments.deep_view() =~= before.push(seg.deep_view()));
        }
    }

    /// An equal copy of this path.
    pub fn dup(&self) -> (r: AccessPath)
        ensures
            r.deep_view() == self.deep_view(),
    {
        let mut segments: Vec<PathSegment> = Vec::new();
        let mut i: usize = 0;
        while i < self.segments.len()
            invariant
                i <= self.segments.len(),
                segments.deep_view().len() == i as int,
                forall|k: int|
                    0 <= k < i ==> segments.deep_view()[k] == self.segments.deep_view()[k],
            decreases self.segments.len() - i,
        {
            let ghost before = segments.deep_view();
            segments.push(self.segments[i].dup());
            proof {
                assert(segments.deep_view() =~= before.push(
                    self.segments.deep_view()[i as int],
                ));
            }
            i += 1;
        }
        let r = AccessPath { segments };
        proof {
            assert(r.deep_view() =~= self.deep_view());
        }
        r
    }

    /// Reinterprets this path, built under a script language's one-indexed
    /// convention, as the zero-indexed one used internally: every numeric
    /// segment moves down by one, named segments stay. The translation is
    /// the script boundary's single entry point for index conventions;
    /// nothing past it stores a one-indexed path.
    pub fn convert_to_0_indexed(&mut self)
        requires
            forall|k: int|
                0 <= k < old(self).deep_view().len() ==> match #[trigger] old(self).deep_view()[k] {
                    Seg::TupleIndex(i) => i >= 1,
                    Seg::ListIndex(i) => i >= 1,
                    _ => true,
                },
        ensures
            final(self).deep_view().len() == old(self).deep_view().len(),
            forall|k: int|
                0 <= k < old(self).deep_view().len() ==> #[trigger] final(self).deep_view()[k]
                    == seg_to_zero_indexed(old(self).deep_view()[k]),
    {
        let ghost orig = self.segments.deep_view();
        let mut i: usize = 0;
        while i < self.segments.len()
            invariant
                i <= self.segments.len(),
                self.segments.deep_view().len() == orig.len(),
                forall|k: int|
                    0 <= k < i ==> #[trigger] self.segments.deep_view()[k] == seg_to_zero_indexed(
                        orig[k],
                    ),
                forall|k: int|
                    i <= k < orig.len() ==> #[trigger] self.segments.deep_view()[k] == orig[k],
                forall|k: int|
                    0 <= k < orig.len() ==> match #[trigger] orig[k] {
                        Seg::TupleIndex(n) => n >= 1,
                        Seg::ListIndex(n) => n >= 1,
                        _ => true,
                    },
            decreases self.segments.len() - i,
        {
            let ghost before = self.segments.deep_view();
            let ghost bv = self.segments@;
            proof {
                assert(before[i as int] == bv[i as int].deep_view());
                assert(before[i as int] == orig[i as int]);
            }
            let seg = self.segments.remove(i);
            let lowered = match seg {
                PathSegment::TupleIndex(n) => PathSegment::TupleIndex(n - 1),
                PathSegment::ListIndex(n) => PathSegment::ListIndex(n - 1),
                other => other,
            };
            self.segments.insert(i, lowered);
            proof {
                assert forall|k: int|
                    0 <= k < self.segments@.len() && k != i implies #[trigger] self.segments.deep_view()[
                    k
                ] == before[k] by {
                    assert(self.segments.deep_view()[k] == self.segments@[k].deep_view());
                    assert(self.segments@[k] == bv[k]);
                    assert(before[k] == bv[k].deep_view());
                }
                assert(self.segments.deep_view()[i as int] == self.segments@[
                    i as int
                ].deep_view());
                assert(self.segments.deep_view()[i as int] == seg_to_zero_indexed(orig[i as int]));
            }
            i += 1;
        }
    }

    /// A copy of this path with every segment of `other` appended after
    /// this path's own segments.
    pub fn join(&self, other: &AccessPath) -> (r: AccessPath)
        ensures
            r.deep_view() == self.deep_view() + other.deep_view(),
    {
        let mut r = self.dup();
        let mut i: usize = 0;
        while i < other.segments.len()
            invariant
                i <= other.segments.len(),
                r.deep_view() =~= self.deep_view() + other.deep_view().take(i as int),
            decreases other.segments.len() - i,
        {
            let ghost before = r.deep_view();
            r.push(other.segments[i].dup());
            proof {
                assert(r.deep_view() =~= self.deep_view() + other.deep_view().take(
                    i as int + 1,
                ));
            }
            i += 1;
        }
        proof {
            assert(other.deep_view().take(other.segments.len() as int) =~= other.deep_view());
        }
        r
    }
}

} // verus!

//! The path by which a match arm is ordered, from what its pattern is.

use crate::compare::{Path, Segment};
use vstd::prelude::*;

verus! {

/// What of a pattern the check looks at.
#[derive(Clone, Debug, PartialEq, Eq)]
pub enum Pattern {
    /// A string literal, by its text.
    Str(String),
    /// A name that the pattern binds, and whether it is bound by `ref`, bound
    /// as `mut`, or followed by `@` and a pattern.
    Ident { name: String, by_ref: bool, mutable: bool, subpattern: bool },
    /// A path, by its names.
    Path(Vec<String>),
    /// A struct pattern, by the names of its path.
    Struct(Vec<String>),
    /// A tuple struct pattern, by the names of its path.
    TupleStruct(Vec<String>),
    /// The pattern `_`.
    Wild,
    /// Any other pattern.
    Other,
}

/// The pattern of a match arm: one pattern, or several with `|` between
/// them.
#[derive(Clone, Debug, PartialEq, Eq)]
pub enum Arm {
    Single(Pattern),
    Or(Vec<Pattern>),
}

impl Pattern {
    /// The segments of the path by which this pattern is ordered, or `None`
    /// where the pattern is not one that can be ordered: a string literal by
    /// its text, a plain binding by its name, a path, a struct or a tuple
    /// struct by the names of its path, and `_`.
    pub open spec fn segments(self) -> Option<Seq<Segment>> {
        match self {
            Pattern::Str(text) => Some(seq![Segment::Literal(text)]),
            Pattern::Ident { name, by_ref, mutable, subpattern } => if !by_ref && !mutable
                && !subpattern {
                Some(seq![Segment::Identifier(name)])
            } else {
                None
            },
            Pattern::Path(names) => Some(identifiers(names@)),
            Pattern::Struct(names) => Some(identifiers(names@)),
            Pattern::TupleStruct(names) => Some(identifiers(names@)),
            Pattern::Wild => Some(seq![Segment::Wildcard]),
            Pattern::Other => None,
        }
    }
}

impl Arm {
    /// An or-pattern has at least one case.
    pub open spec fn wf(self) -> bool {
        match self {
            Arm::Single(_) => true,
            Arm::Or(cases) => cases@.len() > 0,
        }
    }

    /// The pattern that decides where the arm belongs: of an or-pattern the
    /// first case.
    pub open spec fn deciding(self) -> Pattern {
        match self {
            Arm::Single(pattern) => pattern,
            Arm::Or(cases) => cases@[0],
        }
    }
}

/// One identifier segment for each name.
pub open spec fn identifiers(names: Seq<String>) -> Seq<Segment> {
    names.map_values(|name: String| Segment::Identifier(name))
}

/// The path whose segments are the names of a path in the source.
pub fn comparables_of_path(names: &Vec<String>) -> (path: Path)
    ensures
        path.category is None,
        path.segments@ == identifiers(names@),
{
    let mut segments: Vec<Segment> = Vec::new();
    let mut i: usize = 0;
    while i < names.len()
        invariant
            i <= names@.len(),
            segments@ == identifiers(names@.take(i as int)),
        decreases names@.len() - i,
    {
        segments.push(Segment::Identifier(names[i].clone()));
        proof {
            assert(names@.take(i + 1) =~= names@.take(i as int).push(names@[i as int]));
            assert(segments@ =~= identifiers(names@.take(i + 1)));
        }
        i += 1;
    }
    proof {
        assert(names@.take(i as int) =~= names@);
    }
    Path { category: None, segments }
}

impl Arm {
    /// The path by which the arm is ordered, which has no bucket: that of its
    /// pattern, or of the first case of its or-pattern. `None` where that
    /// pattern is not one that can be ordered.
    pub fn to_path(&self) -> (r: Option<Path>)
        requires
            self.wf(),
        ensures
            match r {
                Some(path) => path.category is None && self.deciding().segments() == Some(
                    path.segments@,
                ),
                None => self.deciding().segments() is None,
            },
    {
        // Sort by just the first pat.
        let pat = match self {
            Arm::Single(pattern) => pattern,
            Arm::Or(cases) => &cases[0],
        };

        match pat {
            Pattern::Str(text) => Some(Path::of(Segment::Literal(text.clone()))),
            Pattern::Ident { name, by_ref, mutable, subpattern } => {
                if !*by_ref && !*mutable && !*subpattern {
                    Some(Path::of(Segment::Identifier(name.clone())))
                } else {
                    None
                }
            },
            Pattern::Path(names) => Some(comparables_of_path(names)),
            Pattern::Struct(names) => Some(comparables_of_path(names)),
            Pattern::TupleStruct(names) => Some(comparables_of_path(names)),
            Pattern::Wild => Some(Path::of(Segment::Wildcard)),
            Pattern::Other => None,
        }
    }
}

} // verus!

//! The words in which a violation is reported.

use crate::compare::{Path, Segment};
use vstd::prelude::*;
use vstd::string::StringExecFns;

verus! {

/// The names one after the other, with `::` between them.
pub open spec fn joined(names: Seq<Seq<char>>) -> Seq<char>
    decreases names.len(),
{
    if names.len() == 0 {
        Seq::empty()
    } else if names.len() == 1 {
        names[0]
    } else {
        joined(names.drop_last()) + "::"@ + names.last()
    }
}

/// The names of a path as they are shown.
pub open spec fn labels(path: Path) -> Seq<Seq<char>> {
    path.segments@.map_values(|s: Segment| s.label())
}

/// A path as it is shown: its names with `::` between them.
pub fn display(path: &Path) -> (text: String)
    ensures
        text@ == joined(labels(*path)),
{
    let mut text = String::new();
    let mut i: usize = 0;
    while i < path.segments.len()
        invariant
            i <= path.segments@.len(),
            text@ == joined(labels(*path).take(i as int)),
        decreases path.segments@.len() - i,
    {
        if i > 0 {
            text.append("::");
        }
        text.append(path.segments[i].text());
        proof {
            let now = labels(*path).take(i + 1);
            assert(now.drop_last() =~= labels(*path).take(i as int));
            assert(now.last() == path.segments@[i as int].label());
        }
        i += 1;
    }
    proof {
        assert(labels(*path).take(i as int) =~= labels(*path));
    }
    text
}

/// What is said of an item that is out of place and the item in front of
/// which it belongs.
pub fn message(lesser: &Path, greater: &Path) -> (text: String)
    ensures
        text@ == joined(labels(*lesser)) + " should sort before "@ + joined(labels(*greater)),
{
    let mut text = display(lesser);
    text.append(" should sort before ");
    let second = display(greater);
    text.append(second.as_str());
    text
}

} // verus!

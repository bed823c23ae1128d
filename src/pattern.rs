//! The matching model: how action and resource strings become segment
//! sequences, and when a rule path matches a concrete segment sequence.
use vstd::prelude::*;

use crate::glob::glob_accepts;
use vstd::string::StrSliceExecFns;

verus! {

/// The separator between the segments of an action.
pub const ACTION_SEPARATOR: char = ':';

/// The separator between the segments of a resource path.
pub const RESOURCE_SEPARATOR: char = '/';

/// The wildcard metacharacter: a segment pattern holding it is a glob.
pub const WILDCARD: char = '*';

/// A sequence of segments, each a sequence of characters.
pub type Segments = Seq<Seq<char>>;

/// The parts of `s` between occurrences of `sep`, in order. An empty string
/// has one empty part, and two adjacent separators enclose an empty part.
pub open spec fn split_on(s: Seq<char>, sep: char) -> Segments
    decreases s.len(),
{
    if s.len() == 0 {
        seq![Seq::<char>::empty()]
    } else {
        let rest = split_on(s.drop_first(), sep);
        if s[0] == sep {
            seq![Seq::<char>::empty()] + rest
        } else {
            rest.update(0, seq![s[0]] + rest[0])
        }
    }
}

/// The match key of a request or a rule: the action's segments followed by
/// the resource path's segments.
pub open spec fn match_key(action: Seq<char>, resource: Seq<char>) -> Segments {
    split_on(action, ACTION_SEPARATOR) + split_on(resource, RESOURCE_SEPARATOR)
}

/// The views of a sequence of string slices.
pub open spec fn views_of(s: Seq<&str>) -> Segments {
    s.map_values(|x: &str| x@)
}

/// A segment pattern is a glob when it holds the wildcard metacharacter, and
/// a literal otherwise.
pub open spec fn is_glob(p: Seq<char>) -> bool {
    p.contains(WILDCARD)
}

/// A literal pattern matches exactly the equal segment; a glob matches the
/// segments that globset accepts for it.
pub open spec fn segment_matches(p: Seq<char>, s: Seq<char>) -> bool {
    if is_glob(p) {
        glob_accepts(p, s)
    } else {
        p == s
    }
}

/// A rule path matches a segment sequence of the same length whose segments
/// its patterns match one by one.
pub open spec fn path_matches(p: Segments, s: Segments) -> bool {
    &&& p.len() == s.len()
    &&& forall|i: int| 0 <= i < p.len() ==> segment_matches(#[trigger] p[i], s[i])
}

/// Some rule of `rules` matches `s`.
pub open spec fn rules_match(rules: Set<Segments>, s: Segments) -> bool {
    exists|p: Segments| #[trigger] rules.contains(p) && path_matches(p, s)
}

/// Relies on `str::split` with a `char` pattern: the substrings between the
/// occurrences of `sep`, empty ones included.
#[verifier::external_body]
pub(crate) fn split_str<'a>(s: &'a str, sep: char) -> (r: Vec<&'a str>)
    ensures
        views_of(r@) == split_on(s@, sep),
{
    s.split(sep).collect()
}

/// Whether `s` holds the character `c`.
pub(crate) fn has_char(s: &str, c: char) -> (r: bool)
    ensures
        r == s@.contains(c),
{
    let n = s.unicode_len();
    let mut i: usize = 0;
    while i < n
        invariant
            n == s@.len(),
            i <= n,
            forall|k: int| 0 <= k < i ==> s@[k] != c,
        decreases n - i,
    {
        if s.get_char(i) == c {
            return true;
        }
        i = i + 1;
    }
    false
}

/// The match key of `action` and `resource_path`, as slices of the two.
pub fn key_segments<'a>(action: &'a str, resource_path: &'a str) -> (r: Vec<&'a str>)
    ensures
        views_of(r@) == match_key(action@, resource_path@),
{
    let mut segments = split_str(action, ACTION_SEPARATOR);
    let mut rest = split_str(resource_path, RESOURCE_SEPARATOR);
    let ghost a = segments@;
    let ghost b = rest@;
    segments.append(&mut rest);
    assert(views_of(segments@) =~= views_of(a) + views_of(b));
    segments
}

} // verus!

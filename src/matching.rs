//! What a probe at one text position finds, stated over the dictionary as a
//! set of words.
use vstd::prelude::*;

use crate::MatchType;

verus! {

/// The `len` characters of `t` from `b` on form a dictionary word.
pub open spec fn is_match(d: Set<Seq<char>>, t: Seq<char>, b: int, len: int) -> bool {
    &&& 1 <= len
    &&& 0 <= b
    &&& b + len <= t.len()
    &&& d.contains(t.subrange(b, b + len))
}

/// The least length of at least `len` that matches at `b`, or 0.
pub open spec fn shortest_from(d: Set<Seq<char>>, t: Seq<char>, b: int, len: int) -> int
    decreases t.len() - b - len + 1,
{
    if len < 1 || b + len > t.len() {
        0
    } else if is_match(d, t, b, len) {
        len
    } else {
        shortest_from(d, t, b, len + 1)
    }
}

/// The greatest length of at most `len` that matches at `b`, or 0.
pub open spec fn longest_upto(d: Set<Seq<char>>, t: Seq<char>, b: int, len: int) -> int
    decreases len,
{
    if len < 1 {
        0
    } else if is_match(d, t, b, len) {
        len
    } else {
        longest_upto(d, t, b, len - 1)
    }
}

/// Length of the shortest dictionary word that starts at `b` in `t`, or 0.
pub open spec fn shortest_match(d: Set<Seq<char>>, t: Seq<char>, b: int) -> int {
    shortest_from(d, t, b, 1)
}

/// Length of the longest dictionary word that starts at `b` in `t`, or 0.
pub open spec fn longest_match(d: Set<Seq<char>>, t: Seq<char>, b: int) -> int {
    longest_upto(d, t, b, t.len() - b)
}

/// Length of the word that a probe at `b` finds under `mt`, or 0.
pub open spec fn probe(d: Set<Seq<char>>, t: Seq<char>, b: int, mt: MatchType) -> int {
    match mt {
        MatchType::MinMatchType => shortest_match(d, t, b),
        MatchType::MaxMatchType => longest_match(d, t, b),
    }
}

pub proof fn lemma_shortest_none(d: Set<Seq<char>>, t: Seq<char>, b: int, len: int)
    requires
        len >= 1,
        forall|l: int| l >= len ==> !#[trigger] is_match(d, t, b, l),
    ensures
        shortest_from(d, t, b, len) == 0,
    decreases t.len() - b - len + 1,
{
    if b + len <= t.len() {
        lemma_shortest_none(d, t, b, len + 1);
    }
}

pub proof fn lemma_shortest_first(d: Set<Seq<char>>, t: Seq<char>, b: int, len: int, first: int)
    requires
        1 <= len <= first,
        is_match(d, t, b, first),
        forall|l: int| len <= l < first ==> !#[trigger] is_match(d, t, b, l),
    ensures
        shortest_from(d, t, b, len) == first,
    decreases first - len,
{
    if len < first {
        lemma_shortest_first(d, t, b, len + 1, first);
    }
}

pub proof fn lemma_longest_flat(d: Set<Seq<char>>, t: Seq<char>, b: int, low: int, high: int)
    requires
        0 <= low <= high,
        forall|l: int| low < l <= high ==> !#[trigger] is_match(d, t, b, l),
    ensures
        longest_upto(d, t, b, high) == longest_upto(d, t, b, low),
    decreases high - low,
{
    if low < high {
        lemma_longest_flat(d, t, b, low, high - 1);
    }
}

/// A positive result of `shortest_from` matches and is the least match from `len` on.
pub proof fn lemma_shortest_from_spec(d: Set<Seq<char>>, t: Seq<char>, b: int, len: int)
    requires
        len >= 1,
    ensures
        shortest_from(d, t, b, len) >= 0,
        shortest_from(d, t, b, len) == 0 ==> forall|l: int| l >= len ==> !#[trigger] is_match(d, t, b, l),
        shortest_from(d, t, b, len) > 0 ==> {
            &&& is_match(d, t, b, shortest_from(d, t, b, len))
            &&& len <= shortest_from(d, t, b, len)
            &&& forall|l: int| len <= l < shortest_from(d, t, b, len) ==> !#[trigger] is_match(d, t, b, l)
        },
    decreases t.len() - b - len + 1,
{
    if b + len <= t.len() && !is_match(d, t, b, len) {
        lemma_shortest_from_spec(d, t, b, len + 1);
    }
}

/// A positive result of `longest_upto` matches and is the greatest match up to `len`.
pub proof fn lemma_longest_upto_spec(d: Set<Seq<char>>, t: Seq<char>, b: int, len: int)
    ensures
        longest_upto(d, t, b, len) >= 0,
        longest_upto(d, t, b, len) == 0 ==> forall|l: int| l <= len ==> !#[trigger] is_match(d, t, b, l),
        longest_upto(d, t, b, len) > 0 ==> {
            &&& is_match(d, t, b, longest_upto(d, t, b, len))
            &&& longest_upto(d, t, b, len) <= len
            &&& forall|l: int| longest_upto(d, t, b, len) < l <= len ==> !#[trigger] is_match(d, t, b, l)
        },
    decreases len,
{
    if len >= 1 && !is_match(d, t, b, len) {
        lemma_longest_upto_spec(d, t, b, len - 1);
    }
}

/// A probe finds nothing exactly when no dictionary word starts at `b`; what
/// it finds is a dictionary word there, the shortest or the longest one.
pub proof fn lemma_probe_spec(d: Set<Seq<char>>, t: Seq<char>, b: int, mt: MatchType)
    ensures
        0 <= probe(d, t, b, mt),
        probe(d, t, b, mt) == 0 <==> forall|l: int| !#[trigger] is_match(d, t, b, l),
        probe(d, t, b, mt) > 0 ==> is_match(d, t, b, probe(d, t, b, mt)),
        mt is MinMatchType ==> forall|l: int| #[trigger] is_match(d, t, b, l) ==> probe(d, t, b, mt) <= l,
        mt is MaxMatchType ==> forall|l: int| #[trigger] is_match(d, t, b, l) ==> l <= probe(d, t, b, mt),
{
    lemma_shortest_from_spec(d, t, b, 1);
    lemma_longest_upto_spec(d, t, b, t.len() - b);
    if longest_match(d, t, b) == 0 {
        assert forall|l: int| !#[trigger] is_match(d, t, b, l) by {
            if is_match(d, t, b, l) {
                assert(l <= t.len() - b);
            }
        }
    }
    if shortest_match(d, t, b) == 0 {
        assert forall|l: int| !#[trigger] is_match(d, t, b, l) by {
            if is_match(d, t, b, l) {
                assert(l >= 1);
            }
        }
    }
}

/// At any position, the shortest match is no longer than the longest one.
pub proof fn lemma_shortest_le_longest(d: Set<Seq<char>>, t: Seq<char>, b: int)
    ensures
        probe(d, t, b, MatchType::MinMatchType) <= probe(d, t, b, MatchType::MaxMatchType),
{
    lemma_probe_spec(d, t, b, MatchType::MinMatchType);
    lemma_probe_spec(d, t, b, MatchType::MaxMatchType);
    if probe(d, t, b, MatchType::MinMatchType) > 0 {
        assert(is_match(d, t, b, probe(d, t, b, MatchType::MinMatchType)));
    }
}

} // verus!

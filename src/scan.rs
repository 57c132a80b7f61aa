//! The left-to-right scan that collects the dictionary words of a text,
//! skipping over each span it has matched.
use vstd::prelude::*;

use crate::matching::{is_match, lemma_probe_spec, probe};
use crate::order::{char_views, insert_sorted, strictly_sorted};
use crate::text::{from_chars, to_chars};
use crate::trie::{check_sensitive_word, views, SensitiveWordMap};
use crate::MatchType;

verus! {

/// The spans (start, length) that a scan from position `i` consumes, in order.
pub open spec fn scan_spans(d: Set<Seq<char>>, t: Seq<char>, i: int, mt: MatchType) -> Seq<
    (int, int),
>
    decreases t.len() - i via scan_spans_decreases
{
    if i < 0 || i >= t.len() {
        seq![]
    } else if probe(d, t, i, mt) > 0 {
        seq![(i, probe(d, t, i, mt))] + scan_spans(d, t, i + probe(d, t, i, mt), mt)
    } else {
        scan_spans(d, t, i + 1, mt)
    }
}

#[via_fn]
proof fn scan_spans_decreases(d: Set<Seq<char>>, t: Seq<char>, i: int, mt: MatchType) {
    lemma_probe_spec(d, t, i, mt);
}

/// The text of a span.
pub open spec fn span_text(t: Seq<char>, s: (int, int)) -> Seq<char> {
    t.subrange(s.0, s.0 + s.1)
}

/// The distinct texts of the spans that a scan from `i` consumes.
pub open spec fn scan_words(d: Set<Seq<char>>, t: Seq<char>, i: int, mt: MatchType) -> Set<
    Seq<char>,
> {
    Set::new(
        |w: Seq<char>|
            exists|k: int|
                0 <= k < scan_spans(d, t, i, mt).len() && w == span_text(
                    t,
                    #[trigger] scan_spans(d, t, i, mt)[k],
                ),
    )
}

/// The dictionary words that a scan of the whole text finds.
pub open spec fn found_words(d: Set<Seq<char>>, t: Seq<char>, mt: MatchType) -> Set<Seq<char>> {
    scan_words(d, t, 0, mt)
}

proof fn lemma_scan_words_step(d: Set<Seq<char>>, t: Seq<char>, i: int, mt: MatchType)
    requires
        0 <= i < t.len(),
    ensures
        scan_words(d, t, i, mt) == if probe(d, t, i, mt) > 0 {
            scan_words(d, t, i + probe(d, t, i, mt), mt).insert(
                t.subrange(i, i + probe(d, t, i, mt)),
            )
        } else {
            scan_words(d, t, i + 1, mt)
        },
{
    let p = probe(d, t, i, mt);
    if p > 0 {
        let head = (i, p);
        let rest = scan_spans(d, t, i + p, mt);
        let all = scan_spans(d, t, i, mt);
        assert(all == seq![head] + rest);
        assert forall|w: Seq<char>| #[trigger]
            scan_words(d, t, i, mt).contains(w) <==> scan_words(d, t, i + p, mt).insert(
                t.subrange(i, i + p),
            ).contains(w) by {
            if scan_words(d, t, i, mt).contains(w) {
                let k = choose|k: int| 0 <= k < all.len() && w == span_text(t, #[trigger] all[k]);
                if k > 0 {
                    assert(all[k] == rest[k - 1]);
                }
            }
            if scan_words(d, t, i + p, mt).contains(w) {
                let k = choose|k: int| 0 <= k < rest.len() && w == span_text(t, #[trigger] rest[k]);
                assert(all[k + 1] == rest[k]);
            }
            if w == t.subrange(i, i + p) {
                assert(all[0] == head);
            }
        }
        assert(scan_words(d, t, i, mt) =~= scan_words(d, t, i + p, mt).insert(
            t.subrange(i, i + p),
        ));
    } else {
        assert(scan_words(d, t, i, mt) =~= scan_words(d, t, i + 1, mt));
    }
}

/// The spans of a scan from `i` lie in the text at or after `i`, each spells a
/// dictionary word, and each ends at or before the start of the next one.
pub proof fn lemma_spans_disjoint(d: Set<Seq<char>>, t: Seq<char>, i: int, mt: MatchType)
    requires
        0 <= i,
    ensures
        forall|k: int|
            #![trigger scan_spans(d, t, i, mt)[k]]
            0 <= k < scan_spans(d, t, i, mt).len() ==> i <= scan_spans(d, t, i, mt)[k].0
                && is_match(d, t, scan_spans(d, t, i, mt)[k].0, scan_spans(d, t, i, mt)[k].1),
        forall|a: int, b: int|
            0 <= a < b < scan_spans(d, t, i, mt).len() ==> #[trigger] scan_spans(d, t, i, mt)[a].0
                + scan_spans(d, t, i, mt)[a].1 <= #[trigger] scan_spans(d, t, i, mt)[b].0,
    decreases t.len() - i,
{
    let all = scan_spans(d, t, i, mt);
    if i < t.len() {
        let p = probe(d, t, i, mt);
        lemma_probe_spec(d, t, i, mt);
        if p > 0 {
            lemma_spans_disjoint(d, t, i + p, mt);
            let rest = scan_spans(d, t, i + p, mt);
            assert(all == seq![(i, p)] + rest);
            assert forall|k: int| 0 <= k < all.len() implies i <= #[trigger] all[k].0 && is_match(
                d,
                t,
                all[k].0,
                all[k].1,
            ) by {
                if k > 0 {
                    assert(all[k] == rest[k - 1]);
                }
            }
            assert forall|a: int, b: int| 0 <= a < b < all.len() implies #[trigger] all[a].0
                + all[a].1 <= #[trigger] all[b].0 by {
                assert(all[b] == rest[b - 1]);
                if a > 0 {
                    assert(all[a] == rest[a - 1]);
                }
            }
        } else {
            lemma_spans_disjoint(d, t, i + 1, mt);
            assert(all == scan_spans(d, t, i + 1, mt));
        }
    } else {
        assert(all.len() == 0);
    }
}

/// Every word that a scan finds is a dictionary word that occurs in the text.
pub proof fn lemma_found_in_text(d: Set<Seq<char>>, t: Seq<char>, mt: MatchType)
    ensures
        forall|w: Seq<char>| #[trigger]
            found_words(d, t, mt).contains(w) ==> d.contains(w) && exists|a: int, b: int|
                0 <= a <= b <= t.len() && w == t.subrange(a, b),
{
    lemma_spans_disjoint(d, t, 0, mt);
    assert forall|w: Seq<char>| #[trigger] found_words(d, t, mt).contains(w) implies d.contains(w)
        && exists|a: int, b: int| 0 <= a <= b <= t.len() && w == t.subrange(a, b) by {
        let all = scan_spans(d, t, 0, mt);
        let k = choose|k: int| 0 <= k < all.len() && w == span_text(t, #[trigger] all[k]);
        let s = all[k];
        assert(is_match(d, t, s.0, s.1));
        assert(w == t.subrange(s.0, s.0 + s.1));
    }
}

/// Copies `v[from..to]`.
fn sub_chars(v: &Vec<char>, from: usize, to: usize) -> (r: Vec<char>)
    requires
        from <= to <= v.len(),
    ensures
        r@ == v@.subrange(from as int, to as int),
{
    let mut r: Vec<char> = Vec::new();
    let mut k: usize = from;
    while k < to
        invariant
            from <= k <= to <= v.len(),
            r@ == v@.subrange(from as int, k as int),
        decreases to - k,
    {
        r.push(v[k]);
        k = k + 1;
    }
    r
}

/// The distinct dictionary words that a scan of `txt` finds, in
/// lexicographic order.
pub fn find_sensitive_word(map: &SensitiveWordMap, txt: &str, match_type: &MatchType) -> (r: Vec<
    String,
>)
    requires
        map.wf(),
    ensures
        strictly_sorted(views(r@)),
        views(r@).to_set() == found_words(map@, txt@, *match_type),
{
    let ghost d = map@;
    let ghost mt = *match_type;
    let chars = to_chars(txt);
    let ghost t = chars@;
    let mut acc: Vec<Vec<char>> = Vec::new();
    let mut i: usize = 0;
    while i < chars.len()
        invariant
            map.wf(),
            d == map@,
            mt == *match_type,
            t == chars@,
            i <= chars.len(),
            strictly_sorted(char_views(acc@)),
            found_words(d, t, mt) == char_views(acc@).to_set().union(
                scan_words(d, t, i as int, mt),
            ),
        decreases chars.len() - i,
    {
        let length = check_sensitive_word(map, &chars, i, match_type);
        proof {
            lemma_probe_spec(d, t, i as int, mt);
            lemma_scan_words_step(d, t, i as int, mt);
        }
        if length > 0 {
            let w = sub_chars(&chars, i, i + length);
            let ghost before = char_views(acc@);
            let ghost wv = w@;
            insert_sorted(&mut acc, w);
            proof {
                let next = scan_words(d, t, i + length, mt);
                assert(scan_words(d, t, i as int, mt) == next.insert(wv));
                assert(char_views(acc@).to_set().union(next) =~= before.to_set().union(
                    scan_words(d, t, i as int, mt),
                )) by {
                    assert forall|x: Seq<char>| #[trigger]
                        char_views(acc@).to_set().contains(x) <==> (before.contains(x) || x == wv) by {
                        assert(char_views(acc@).contains(x) <==> (before.contains(x) || x == wv));
                    }
                }
            }
            i = i + length;
        } else {
            i = i + 1;
        }
    }
    proof {
        assert(scan_spans(d, t, i as int, mt).len() == 0);
        assert(scan_words(d, t, i as int, mt) =~= Set::empty());
        assert(found_words(d, t, mt) =~= char_views(acc@).to_set());
    }
    let mut out: Vec<String> = Vec::new();
    let mut k: usize = 0;
    while k < acc.len()
        invariant
            k <= acc.len(),
            out@.len() == k,
            views(out@) == char_views(acc@).subrange(0, k as int),
        decreases acc.len() - k,
    {
        let s = from_chars(&acc[k]);
        let ghost prev = out@;
        out.push(s);
        proof {
            assert(out@ == prev.push(s));
            assert(out@[k as int] == s);
            assert(views(out@)[k as int] == out@[k as int]@);
            assert(views(out@)[k as int] == acc@[k as int]@);
            assert(views(out@) =~= char_views(acc@).subrange(0, k + 1));
        }
        k = k + 1;
    }
    proof {
        assert(views(out@) =~= char_views(acc@));
    }
    out
}

} // verus!

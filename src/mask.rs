//! Masking: every occurrence of each found word is replaced by a run of the
//! replacement character of the same length.
use vstd::prelude::*;

use crate::order::{lemma_lt_irreflexive, lemma_lt_transitive, seq_lt, strictly_sorted};
use crate::scan::{find_sensitive_word, found_words};
use crate::text::{from_chars, to_chars};
use crate::trie::{views, SensitiveWordMap};
use crate::MatchType;

verus! {

/// `pat` occurs in `s` at position `i`.
pub open spec fn occurs_at(s: Seq<char>, pat: Seq<char>, i: int) -> bool {
    0 <= i && i + pat.len() <= s.len() && s.subrange(i, i + pat.len()) == pat
}

/// `s[i..]` with each occurrence of a non-empty `pat`, taken left to right
/// without overlap, replaced by `rep`, as `str::replace` does.
pub open spec fn replace_from(s: Seq<char>, pat: Seq<char>, rep: Seq<char>, i: int) -> Seq<char>
    decreases s.len() - i,
{
    if i < 0 || i >= s.len() {
        seq![]
    } else if pat.len() > 0 && occurs_at(s, pat, i) {
        rep + replace_from(s, pat, rep, i + pat.len())
    } else {
        seq![s[i]] + replace_from(s, pat, rep, i + 1)
    }
}

pub open spec fn replace_all(s: Seq<char>, pat: Seq<char>, rep: Seq<char>) -> Seq<char> {
    replace_from(s, pat, rep, 0)
}

/// `n` copies of `c`.
pub open spec fn fill(c: char, n: nat) -> Seq<char> {
    Seq::new(n, |_i: int| c)
}

/// `s` with the words of `ws` masked by `c` one after the other, in order.
pub open spec fn mask_all(s: Seq<char>, ws: Seq<Seq<char>>, c: char) -> Seq<char>
    decreases ws.len(),
{
    if ws.len() == 0 {
        s
    } else {
        mask_all(replace_all(s, ws[0], fill(c, ws[0].len())), ws.drop_first(), c)
    }
}

/// The found words of `t`, in lexicographic order.
pub open spec fn sorted_found(d: Set<Seq<char>>, t: Seq<char>, mt: MatchType) -> Seq<Seq<char>> {
    choose|ws: Seq<Seq<char>>| strictly_sorted(ws) && ws.to_set() == found_words(d, t, mt)
}

/// Two strictly sorted lists that hold the same elements are equal.
pub proof fn lemma_sorted_unique(a: Seq<Seq<char>>, b: Seq<Seq<char>>)
    requires
        strictly_sorted(a),
        strictly_sorted(b),
        a.to_set() == b.to_set(),
    ensures
        a == b,
    decreases a.len(),
{
    if a.len() == 0 {
        if b.len() > 0 {
            assert(a.to_set().contains(b[0]));
        }
        assert(a =~= b);
    } else if b.len() == 0 {
        assert(b.to_set().contains(a[0]));
    } else {
        assert(b.to_set().contains(a[0]));
        assert(a.to_set().contains(b[0]));
        let i = choose|i: int| 0 <= i < a.len() && a[i] == b[0];
        let j = choose|j: int| 0 <= j < b.len() && b[j] == a[0];
        if a[0] != b[0] {
            assert(i > 0 && j > 0);
            assert(seq_lt(a[0], a[i]));
            assert(seq_lt(b[0], b[j]));
            lemma_lt_transitive(a[0], b[0], a[0]);
            lemma_lt_irreflexive(a[0]);
        }
        let ra = a.drop_first();
        let rb = b.drop_first();
        assert forall|x: Seq<char>| #[trigger] ra.to_set().contains(x) <==> rb.to_set().contains(x) by {
            if ra.to_set().contains(x) {
                let k = choose|k: int| 0 <= k < ra.len() && ra[k] == x;
                assert(a[k + 1] == x);
                assert(seq_lt(a[0], x));
                lemma_lt_irreflexive(x);
                assert(b.to_set().contains(x));
                let m = choose|m: int| 0 <= m < b.len() && b[m] == x;
                assert(m != 0);
                assert(rb[m - 1] == x);
            }
            if rb.to_set().contains(x) {
                let k = choose|k: int| 0 <= k < rb.len() && rb[k] == x;
                assert(b[k + 1] == x);
                assert(seq_lt(b[0], x));
                lemma_lt_irreflexive(x);
                assert(a.to_set().contains(x));
                let m = choose|m: int| 0 <= m < a.len() && a[m] == x;
                assert(m != 0);
                assert(ra[m - 1] == x);
            }
        }
        assert(ra.to_set() =~= rb.to_set());
        lemma_sorted_unique(ra, rb);
        assert(a =~= seq![a[0]] + ra);
        assert(b =~= seq![b[0]] + rb);
    }
}

/// `pat` occurs in `s` at `i`.
fn occurs_at_exec(s: &Vec<char>, pat: &Vec<char>, i: usize) -> (r: bool)
    ensures
        r == occurs_at(s@, pat@, i as int),
{
    if pat.len() > s.len() || i > s.len() - pat.len() {
        return false;
    }
    let mut k: usize = 0;
    while k < pat.len()
        invariant
            i + pat.len() <= s.len(),
            k <= pat.len(),
            forall|m: int| 0 <= m < k ==> s@[i + m] == pat@[m],
        decreases pat.len() - k,
    {
        if s[i + k] != pat[k] {
            proof {
                assert(s@.subrange(i as int, i + pat.len())[k as int] != pat@[k as int]);
            }
            return false;
        }
        k = k + 1;
    }
    assert(s@.subrange(i as int, i + pat.len()) =~= pat@);
    true
}

/// `s` with each occurrence of `pat` (not empty), left to right and without
/// overlap, replaced by `rep`.
pub fn replace_chars(s: &Vec<char>, pat: &Vec<char>, rep: &Vec<char>) -> (r: Vec<char>)
    ensures
        r@ == replace_all(s@, pat@, rep@),
{
    let mut out: Vec<char> = Vec::new();
    let mut i: usize = 0;
    while i < s.len()
        invariant
            i <= s.len(),
            out@ + replace_from(s@, pat@, rep@, i as int) == replace_all(s@, pat@, rep@),
        decreases s.len() - i,
    {
        let ghost before = out@;
        if pat.len() > 0 && occurs_at_exec(s, pat, i) {
            let mut k: usize = 0;
            while k < rep.len()
                invariant
                    k <= rep.len(),
                    out@ == before + rep@.subrange(0, k as int),
                decreases rep.len() - k,
            {
                out.push(rep[k]);
                proof {
                    assert(rep@.subrange(0, k + 1) =~= rep@.subrange(0, k as int).push(rep@[k as int]));
                    assert(out@ =~= before + rep@.subrange(0, k + 1));
                }
                k = k + 1;
            }
            proof {
                assert(rep@.subrange(0, rep.len() as int) =~= rep@);
                assert(out@ + replace_from(s@, pat@, rep@, i + pat.len()) =~= before
                    + replace_from(s@, pat@, rep@, i as int));
            }
            i = i + pat.len();
        } else {
            out.push(s[i]);
            proof {
                assert(out@ + replace_from(s@, pat@, rep@, i + 1) =~= before + replace_from(
                    s@,
                    pat@,
                    rep@,
                    i as int,
                ));
            }
            i = i + 1;
        }
    }
    assert(out@ + replace_from(s@, pat@, rep@, i as int) =~= out@);
    out
}

/// `n` copies of `c`.
fn fill_chars(c: char, n: usize) -> (r: Vec<char>)
    ensures
        r@ == fill(c, n as nat),
{
    let mut r: Vec<char> = Vec::new();
    let mut k: usize = 0;
    while k < n
        invariant
            k <= n,
            r@ =~= fill(c, k as nat),
        decreases n - k,
    {
        r.push(c);
        k = k + 1;
    }
    r
}

/// `txt` with the words of `words` masked by `replace_char` one after the
/// other: every occurrence of a word becomes as many `replace_char`s as the
/// word has characters.
pub fn mask_words(txt: &str, words: &Vec<String>, replace_char: char) -> (r: String)
    ensures
        r@ == mask_all(txt@, views(words@), replace_char),
{
    let ghost ws = views(words@);
    let mut cur = to_chars(txt);
    let mut k: usize = 0;
    assert(ws.skip(0) =~= ws);
    while k < words.len()
        invariant
            k <= words.len(),
            ws == views(words@),
            mask_all(cur@, ws.skip(k as int), replace_char) == mask_all(txt@, ws, replace_char),
        decreases words.len() - k,
    {
        let pat = to_chars(words[k].as_str());
        let rep = fill_chars(replace_char, pat.len());
        proof {
            let rest = ws.skip(k as int);
            assert(rest[0] == pat@);
            assert(rest.drop_first() =~= ws.skip(k + 1));
        }
        cur = replace_chars(&cur, &pat, &rep);
        k = k + 1;
    }
    proof {
        assert(ws.skip(k as int) =~= Seq::<Seq<char>>::empty());
    }
    from_chars(&cur)
}

/// `txt` with every occurrence of each word that a scan of `txt` finds masked
/// by `replace_char`, the words taken in lexicographic order.
pub fn replace_sensitive_word(
    map: &SensitiveWordMap,
    txt: &str,
    match_type: &MatchType,
    replace_char: char,
) -> (r: String)
    requires
        map.wf(),
    ensures
        r@ == mask_all(txt@, sorted_found(map@, txt@, *match_type), replace_char),
{
    let words = find_sensitive_word(map, txt, match_type);
    proof {
        let ws = views(words@);
        let chosen = sorted_found(map@, txt@, *match_type);
        assert(strictly_sorted(chosen) && chosen.to_set() == found_words(map@, txt@, *match_type));
        lemma_sorted_unique(ws, chosen);
    }
    mask_words(txt, &words, replace_char)
}

/// Masking leaves unchanged a text in which a scan finds no word. Applied to
/// a text that has been masked once, this says that a second pass changes
/// nothing whenever the first left no word for a scan to find.
pub proof fn lemma_mask_clean(d: Set<Seq<char>>, t: Seq<char>, mt: MatchType, c: char)
    requires
        found_words(d, t, mt) == Set::<Seq<char>>::empty(),
    ensures
        sorted_found(d, t, mt) == Seq::<Seq<char>>::empty(),
        mask_all(t, sorted_found(d, t, mt), c) == t,
{
    let e = Seq::<Seq<char>>::empty();
    assert(e.to_set() =~= Set::<Seq<char>>::empty());
    let chosen = sorted_found(d, t, mt);
    assert(strictly_sorted(chosen) && chosen.to_set() == found_words(d, t, mt));
    lemma_sorted_unique(e, chosen);
}

} // verus!

//! Lexicographic order on character sequences, the order of `String`'s `Ord`
//! (code points compare as their scalar values, which is how UTF-8 bytes sort).
use vstd::prelude::*;

verus! {

/// `a` sorts strictly before `b`.
pub open spec fn seq_lt(a: Seq<char>, b: Seq<char>) -> bool
    decreases a.len(),
{
    if a.len() == 0 {
        b.len() > 0
    } else if b.len() == 0 {
        false
    } else if a[0] != b[0] {
        a[0] < b[0]
    } else {
        seq_lt(a.drop_first(), b.drop_first())
    }
}

/// Each element sorts strictly before every later one.
pub open spec fn strictly_sorted(ws: Seq<Seq<char>>) -> bool {
    forall|a: int, b: int| 0 <= a < b < ws.len() ==> seq_lt(#[trigger] ws[a], #[trigger] ws[b])
}

/// The character sequences of a list of character vectors.
pub open spec fn char_views(vs: Seq<Vec<char>>) -> Seq<Seq<char>> {
    vs.map_values(|v: Vec<char>| v@)
}

pub proof fn lemma_lt_irreflexive(a: Seq<char>)
    ensures
        !seq_lt(a, a),
    decreases a.len(),
{
    if a.len() > 0 {
        lemma_lt_irreflexive(a.drop_first());
    }
}

pub proof fn lemma_lt_transitive(a: Seq<char>, b: Seq<char>, c: Seq<char>)
    requires
        seq_lt(a, b),
        seq_lt(b, c),
    ensures
        seq_lt(a, c),
    decreases a.len(),
{
    if a.len() > 0 && b.len() > 0 && c.len() > 0 && a[0] == b[0] && b[0] == c[0] {
        lemma_lt_transitive(a.drop_first(), b.drop_first(), c.drop_first());
    }
}

/// Compares `a` with `b`: negative when `a` sorts first, zero when they are
/// equal, positive when `b` sorts first.
pub fn compare_chars(a: &Vec<char>, b: &Vec<char>) -> (r: i8)
    ensures
        r < 0 <==> seq_lt(a@, b@),
        r == 0 <==> a@ == b@,
        r > 0 <==> seq_lt(b@, a@),
{
    let mut k: usize = 0;
    proof {
        assert(a@.skip(0) =~= a@);
        assert(b@.skip(0) =~= b@);
    }
    while k < a.len() && k < b.len()
        invariant
            k <= a.len(),
            k <= b.len(),
            a@.subrange(0, k as int) == b@.subrange(0, k as int),
            seq_lt(a@, b@) == seq_lt(a@.skip(k as int), b@.skip(k as int)),
            seq_lt(b@, a@) == seq_lt(b@.skip(k as int), a@.skip(k as int)),
            (a@ == b@) == (a@.skip(k as int) == b@.skip(k as int)),
        decreases a.len() - k,
    {
        let x = a[k];
        let y = b[k];
        proof {
            let sa = a@.skip(k as int);
            let sb = b@.skip(k as int);
            assert(sa[0] == x);
            assert(sb[0] == y);
            assert(sa.drop_first() =~= a@.skip(k + 1));
            assert(sb.drop_first() =~= b@.skip(k + 1));
            assert(sa =~= seq![x] + sa.drop_first());
            assert(sb =~= seq![y] + sb.drop_first());
        }
        if x < y {
            return -1;
        }
        if y < x {
            return 1;
        }
        proof {
            assert(a@.subrange(0, k + 1) =~= a@.subrange(0, k as int).push(x));
            assert(b@.subrange(0, k + 1) =~= b@.subrange(0, k as int).push(y));
        }
        k = k + 1;
    }
    proof {
        lemma_lt_irreflexive(a@);
        if a@.skip(k as int) == b@.skip(k as int) {
            assert(a@ =~= a@.subrange(0, k as int) + a@.skip(k as int));
            assert(b@ =~= b@.subrange(0, k as int) + b@.skip(k as int));
        }
    }
    if k < a.len() {
        1
    } else if k < b.len() {
        -1
    } else {
        proof {
            assert(a@ =~= a@.subrange(0, k as int));
            assert(b@ =~= b@.subrange(0, k as int));
        }
        0
    }
}

/// Adds `w` to the strictly sorted list `acc`, where it is not there yet.
pub fn insert_sorted(acc: &mut Vec<Vec<char>>, w: Vec<char>)
    requires
        strictly_sorted(char_views(old(acc)@)),
    ensures
        strictly_sorted(char_views(final(acc)@)),
        forall|x: Seq<char>|
            #[trigger] char_views(final(acc)@).contains(x) <==> (char_views(old(acc)@).contains(x)
                || x == w@),
{
    let ghost before = char_views(acc@);
    let mut k: usize = 0;
    let mut done = false;
    while !done && k < acc.len()
        invariant
            k <= acc.len(),
            before == char_views(acc@),
            forall|a: int| 0 <= a < k ==> seq_lt(#[trigger] before[a], w@),
            done ==> k < acc.len() && !seq_lt(before[k as int], w@),
        decreases acc.len() - k + (if done { 0int } else { 1int }),
    {
        let r = compare_chars(&acc[k], &w);
        if r >= 0 {
            done = true;
        } else {
            k = k + 1;
        }
    }
    let r: i8 = if k < acc.len() {
        compare_chars(&acc[k], &w)
    } else {
        1
    };
    if r == 0 {
        proof {
            assert(before[k as int] == w@);
        }
        return;
    }
    let ghost wv = w@;
    proof {
        if k < acc.len() {
            assert(before[k as int] == acc@[k as int]@);
        }
    }
    acc.insert(k, w);
    proof {
        let after = char_views(acc@);
        assert(after =~= before.insert(k as int, wv));
        if k < before.len() {
            assert(seq_lt(wv, before[k as int]));
        }
        assert forall|a: int, b: int| 0 <= a < b < after.len() implies seq_lt(
            #[trigger] after[a],
            #[trigger] after[b],
        ) by {
            if b < k {
                assert(after[a] == before[a] && after[b] == before[b]);
            } else if b == k {
                assert(after[b] == wv);
            } else if a == k {
                assert(after[b] == before[b - 1]);
                if b - 1 > k {
                    assert(seq_lt(before[k as int], before[b - 1]));
                    lemma_lt_transitive(wv, before[k as int], before[b - 1]);
                }
            } else if a < k {
                assert(after[b] == before[b - 1]);
                assert(seq_lt(before[a], wv));
                if b - 1 > k {
                    assert(seq_lt(before[k as int], before[b - 1]));
                    lemma_lt_transitive(wv, before[k as int], before[b - 1]);
                }
                lemma_lt_transitive(before[a], wv, before[b - 1]);
            } else {
                assert(after[a] == before[a - 1] && after[b] == before[b - 1]);
            }
        }
        assert forall|x: Seq<char>| #[trigger] after.contains(x) <==> (before.contains(x) || x
            == wv) by {
            if after.contains(x) {
                let i = choose|i: int| 0 <= i < after.len() && after[i] == x;
                if i < k {
                    assert(before[i] == x);
                } else if i > k {
                    assert(before[i - 1] == x);
                }
            }
            if before.contains(x) {
                let i = choose|i: int| 0 <= i < before.len() && before[i] == x;
                if i < k {
                    assert(after[i] == x);
                } else {
                    assert(after[i + 1] == x);
                }
            }
            if x == wv {
                assert(after[k as int] == x);
            }
        }
    }
}

} // verus!

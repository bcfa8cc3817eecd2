//! Building the wordlist: sorting, deduplication, filtering, and the
//! laws that pin the update's outcome down.

use vstd::prelude::*;

verus! {

use crate::filter::{cleanup, is_word, word_pred};
use crate::order::{lex_lt, strictly_sorted, lemma_lex_lt_trichotomy, lemma_lex_lt_transitive,
    str_lt};
use crate::tokenize::{tokenize, tokens_of};

/// Membership in a pushed sequence: the pushed element, or an old one.
proof fn lemma_contains_push(s: Seq<Seq<char>>, x: Seq<char>)
    ensures
        forall|t: Seq<char>| #[trigger] s.push(x).contains(t) <==> s.contains(t) || t == x,
{
    assert forall|t: Seq<char>| #[trigger] s.push(x).contains(t) <==> s.contains(t) || t == x by {
        if s.contains(t) {
            let k = choose|k: int| 0 <= k < s.len() && s[k] == t;
            assert(s.push(x)[k] == t);
        }
        if t == x {
            assert(s.push(x)[s.len() as int] == t);
        }
        if s.push(x).contains(t) {
            let k = choose|k: int| 0 <= k < s.push(x).len() && s.push(x)[k] == t;
            if k < s.len() {
                assert(s[k] == t);
            }
        }
    }
}

/// Membership in a sequence with one element inserted.
proof fn lemma_contains_insert(s: Seq<Seq<char>>, pos: int, x: Seq<char>)
    requires
        0 <= pos <= s.len(),
    ensures
        forall|t: Seq<char>| #[trigger] s.insert(pos, x).contains(t) <==> s.contains(t) || t == x,
{
    s.insert_ensures(pos, x);
    assert forall|t: Seq<char>| #[trigger] s.insert(pos, x).contains(t) <==> s.contains(t) || t
        == x by {
        if s.contains(t) {
            let k = choose|k: int| 0 <= k < s.len() && s[k] == t;
            if k < pos {
                assert(s.insert(pos, x)[k] == t);
            } else {
                assert(s.insert(pos, x)[k + 1] == t);
            }
        }
        if t == x {
            assert(s.insert(pos, x)[pos] == t);
        }
        if s.insert(pos, x).contains(t) {
            let k = choose|k: int| 0 <= k < s.insert(pos, x).len() && s.insert(pos, x)[k] == t;
            if k < pos {
                assert(s[k] == t);
            } else if k > pos {
                assert(s[k - 1] == t);
            }
        }
    }
}

/// Sorts the tokens into `lex_lt` order and removes exact duplicates:
/// the result is strictly sorted and holds exactly the input's tokens.
pub fn sort_dedup(input: &Vec<String>) -> (r: Vec<String>)
    ensures
        strictly_sorted(r.deep_view()),
        forall|t: Seq<char>| #[trigger] r.deep_view().contains(t) <==> input.deep_view().contains(
            t,
        ),
{
    let mut r: Vec<String> = Vec::new();
    let n = input.len();
    let mut i: usize = 0;
    proof {
        assert(input.deep_view().take(0) =~= Seq::<Seq<char>>::empty());
    }
    while i < n
        invariant
            i <= n,
            n == input@.len(),
            strictly_sorted(r.deep_view()),
            forall|t: Seq<char>| #[trigger] r.deep_view().contains(t)
                <==> input.deep_view().take(i as int).contains(t),
        decreases n - i,
    {
        let ghost prefix = input.deep_view().take(i as int);
        let w = &input[i];
        proof {
            assert(input.deep_view().take(i + 1) =~= prefix.push(w@));
            lemma_contains_push(prefix, w@);
        }
        let rlen = r.len();
        let mut pos: usize = 0;
        while pos < rlen && str_lt(r[pos].as_str(), w.as_str())
            invariant
                pos <= rlen,
                rlen == r@.len(),
                forall|k: int| 0 <= k < pos ==> lex_lt(#[trigger] r.deep_view()[k], w@),
            decreases rlen - pos,
        {
            pos = pos + 1;
        }
        let dup = pos < rlen && r[pos].eq(w);
        if dup {
            proof {
                assert(r.deep_view()[pos as int] == w@);
                assert(r.deep_view().contains(w@));
            }
        } else {
            let ghost rdv = r.deep_view();
            proof {
                if pos < rlen {
                    lemma_lex_lt_trichotomy(w@, rdv[pos as int]);
                }
                assert forall|k: int| pos <= k < rlen implies lex_lt(w@, #[trigger] rdv[k]) by {
                    if k > pos {
                        lemma_lex_lt_transitive(w@, rdv[pos as int], rdv[k]);
                    }
                }
            }
            r.insert(pos, w.clone());
            proof {
                let ghost s0 = rdv.insert(pos as int, w@);
                rdv.insert_ensures(pos as int, w@);
                assert(r.deep_view() =~= s0);
                assert(strictly_sorted(s0)) by {
                    assert forall|x: int, y: int| 0 <= x < y < s0.len() implies lex_lt(
                        s0[x],
                        s0[y],
                    ) by {
                        if y < pos {
                        } else if x < pos && y == pos {
                            assert(s0[x] == rdv[x]);
                        } else if x < pos && y > pos {
                            assert(s0[x] == rdv[x] && s0[y] == rdv[y - 1]);
                        } else if x == pos {
                            assert(s0[y] == rdv[y - 1]);
                        } else {
                            assert(s0[x] == rdv[x - 1] && s0[y] == rdv[y - 1]);
                        }
                    }
                }
                lemma_contains_insert(rdv, pos as int, w@);
            }
        }
        i = i + 1;
    }
    proof {
        assert(input.deep_view().take(n as int) =~= input.deep_view());
    }
    r
}

/// A filtered sequence holds exactly those elements of the unfiltered one
/// that the predicate accepts.
proof fn lemma_filter_membership(s: Seq<Seq<char>>, pred: spec_fn(Seq<char>) -> bool)
    ensures
        forall|t: Seq<char>| #[trigger] s.filter(pred).contains(t) <==> s.contains(t) && pred(t),
    decreases s.len(),
{
    reveal(Seq::filter);
    if s.len() == 0 {
        assert forall|t: Seq<char>| #[trigger] s.filter(pred).contains(t) <==> s.contains(t)
            && pred(t) by {
            assert(!s.contains(t));
            assert(!s.filter(pred).contains(t));
        }
    } else {
        let d = s.drop_last();
        lemma_filter_membership(d, pred);
        assert(s =~= d.push(s.last()));
        lemma_contains_push(d, s.last());
        if pred(s.last()) {
            lemma_contains_push(d.filter(pred), s.last());
        }
        assert forall|t: Seq<char>| #[trigger] s.filter(pred).contains(t) <==> s.contains(t)
            && pred(t) by {
            assert(d.filter(pred).contains(t) <==> d.contains(t) && pred(t));
            assert(d.push(s.last()).contains(t) <==> d.contains(t) || t == s.last());
            if pred(s.last()) {
                assert(s.filter(pred) == d.filter(pred).push(s.last()));
                assert(d.filter(pred).push(s.last()).contains(t) <==> d.filter(pred).contains(t)
                    || t == s.last());
            } else {
                assert(s.filter(pred) == d.filter(pred));
            }
        }
    }
}

/// Filtering keeps the strict sortedness of a sequence.
proof fn lemma_filter_sorted(s: Seq<Seq<char>>, pred: spec_fn(Seq<char>) -> bool)
    requires
        strictly_sorted(s),
    ensures
        strictly_sorted(s.filter(pred)),
    decreases s.len(),
{
    reveal(Seq::filter);
    if s.len() != 0 {
        let d = s.drop_last();
        assert(strictly_sorted(d)) by {
            assert(forall|k: int| 0 <= k < d.len() ==> d[k] == s[k]);
        }
        lemma_filter_sorted(d, pred);
        if pred(s.last()) {
            lemma_filter_membership(d, pred);
            let f = d.filter(pred);
            assert forall|k: int| 0 <= k < f.len() implies lex_lt(#[trigger] f[k], s.last()) by {
                assert(f.contains(f[k]));
                let m = choose|m: int| 0 <= m < d.len() && d[m] == f[k];
                assert(s[m] == f[k]);
                assert(lex_lt(s[m], s[s.len() - 1]));
            }
            let g = f.push(s.last());
            assert(strictly_sorted(g)) by {
                assert forall|x: int, y: int| 0 <= x < y < g.len() implies lex_lt(
                    g[x],
                    g[y],
                ) by {
                    if y < g.len() - 1 {
                        assert(g[x] == f[x] && g[y] == f[y]);
                    } else {
                        assert(g[x] == f[x] && g[y] == s.last());
                    }
                }
            }
        }
    }
}

/// The words of an update, given its tokens: sorted, deduplicated, and
/// filtered. The result is strictly sorted in `lex_lt` order — so it holds
/// no duplicate entries — and a token stands in it exactly when it occurs
/// among the tokens of the lowercased, segmented input blobs and passes the
/// word filter.
pub fn update_wordlist(blobs: &Vec<String>) -> (r: Vec<String>)
    ensures
        strictly_sorted(r.deep_view()),
        forall|t: Seq<char>| #[trigger] r.deep_view().contains(t) <==> tokens_of(
            blobs.deep_view(),
        ).contains(t) && is_word(t),
{
    let toks = tokenize(blobs);
    let uniq = sort_dedup(&toks);
    let ghost uniq_dv = uniq.deep_view();
    let r = cleanup(uniq);
    proof {
        lemma_filter_sorted(uniq_dv, word_pred());
        lemma_filter_membership(uniq_dv, word_pred());
    }
    r
}

/// A strictly sorted wordlist holds no entry twice.
pub proof fn lemma_strictly_sorted_distinct(s: Seq<Seq<char>>, i: int, j: int)
    requires
        strictly_sorted(s),
        0 <= i < j < s.len(),
    ensures
        s[i] != s[j],
{
    lemma_lex_lt_trichotomy(s[i], s[j]);
}

/// Membership in a concatenation: in the left part or in the right part.
proof fn lemma_contains_concat(x: Seq<Seq<char>>, y: Seq<Seq<char>>)
    ensures
        forall|t: Seq<char>| #[trigger] (x + y).contains(t) <==> x.contains(t) || y.contains(t),
{
    assert forall|t: Seq<char>| #[trigger] (x + y).contains(t) <==> x.contains(t) || y.contains(
        t,
    ) by {
        if x.contains(t) {
            let k = choose|k: int| 0 <= k < x.len() && x[k] == t;
            assert((x + y)[k] == t);
        }
        if y.contains(t) {
            let k = choose|k: int| 0 <= k < y.len() && y[k] == t;
            assert((x + y)[x.len() + k] == t);
        }
        if (x + y).contains(t) {
            let k = choose|k: int| 0 <= k < (x + y).len() && (x + y)[k] == t;
            if k < x.len() {
                assert(x[k] == t);
            } else {
                assert(y[k - x.len()] == t);
            }
        }
    }
}

/// Two strictly sorted sequences with the same members are the same sequence:
/// the wordlist's contract pins its result down to one value.
pub proof fn lemma_strictly_sorted_unique(a: Seq<Seq<char>>, b: Seq<Seq<char>>)
    requires
        strictly_sorted(a),
        strictly_sorted(b),
        forall|t: Seq<char>| #[trigger] a.contains(t) <==> b.contains(t),
    ensures
        a == b,
    decreases a.len(),
{
    if a.len() == 0 && b.len() == 0 {
        assert(a =~= b);
    } else if a.len() == 0 {
        assert(b.contains(b[0]));
        assert(a.contains(b[0]));
    } else if b.len() == 0 {
        assert(a.contains(a[0]));
        assert(b.contains(a[0]));
    } else {
        assert(a.contains(a[0]));
        assert(b.contains(a[0]));
        let j = choose|j: int| 0 <= j < b.len() && b[j] == a[0];
        assert(b.contains(b[0]));
        assert(a.contains(b[0]));
        let k = choose|k: int| 0 <= k < a.len() && a[k] == b[0];
        if a[0] != b[0] {
            assert(j != 0 && k != 0);
            assert(lex_lt(b[0], b[j]));
            assert(lex_lt(a[0], a[k]));
            lemma_lex_lt_trichotomy(a[0], b[0]);
        }
        let at = a.skip(1);
        let bt = b.skip(1);
        assert(forall|x: int| 0 <= x < at.len() ==> #[trigger] at[x] == a[x + 1]);
        assert(forall|x: int| 0 <= x < bt.len() ==> #[trigger] bt[x] == b[x + 1]);
        assert(strictly_sorted(at)) by {
            assert forall|x: int, y: int| 0 <= x < y < at.len() implies lex_lt(at[x], at[y]) by {
                assert(lex_lt(a[x + 1], a[y + 1]));
            }
        }
        assert(strictly_sorted(bt)) by {
            assert forall|x: int, y: int| 0 <= x < y < bt.len() implies lex_lt(bt[x], bt[y]) by {
                assert(lex_lt(b[x + 1], b[y + 1]));
            }
        }
        assert forall|t: Seq<char>| #[trigger] at.contains(t) <==> bt.contains(t) by {
            if at.contains(t) {
                let m = choose|m: int| 0 <= m < at.len() && at[m] == t;
                assert(a[m + 1] == t);
                assert(a.contains(t));
                assert(b.contains(t));
                let mb = choose|mb: int| 0 <= mb < b.len() && b[mb] == t;
                assert(lex_lt(a[0], a[m + 1]));
                lemma_lex_lt_trichotomy(a[0], t);
                assert(mb != 0);
                assert(bt[mb - 1] == t);
                assert(bt.contains(t));
            }
            if bt.contains(t) {
                let m = choose|m: int| 0 <= m < bt.len() && bt[m] == t;
                assert(b[m + 1] == t);
                assert(b.contains(t));
                assert(a.contains(t));
                let ma = choose|ma: int| 0 <= ma < a.len() && a[ma] == t;
                assert(lex_lt(b[0], b[m + 1]));
                lemma_lex_lt_trichotomy(b[0], t);
                assert(ma != 0);
                assert(at[ma - 1] == t);
                assert(at.contains(t));
            }
        }
        lemma_strictly_sorted_unique(at, bt);
        assert(a =~= b) by {
            assert(forall|x: int| 1 <= x < a.len() ==> a[x] == at[x - 1] && b[x] == bt[x - 1]);
        }
    }
}

/// Updating twice changes nothing the second time: if a wordlist `r1` is the
/// update's outcome for a token collection `ts`, and `r2` is the outcome for
/// `ts` with the words of `r1` merged back in — as happens when the persisted
/// wordlist is re-read on the next run — then `r2` is `r1` again.
pub proof fn lemma_update_idempotent(
    ts: Seq<Seq<char>>,
    r1: Seq<Seq<char>>,
    r2: Seq<Seq<char>>,
)
    requires
        strictly_sorted(r1),
        forall|t: Seq<char>| #[trigger] r1.contains(t) <==> ts.contains(t) && is_word(t),
        strictly_sorted(r2),
        forall|t: Seq<char>| #[trigger] r2.contains(t) <==> (ts + r1).contains(t) && is_word(t),
    ensures
        r2 == r1,
{
    lemma_contains_concat(ts, r1);
    assert forall|t: Seq<char>| #[trigger] r2.contains(t) <==> r1.contains(t) by {
        assert((ts + r1).contains(t) <==> ts.contains(t) || r1.contains(t));
    }
    lemma_strictly_sorted_unique(r2, r1);
}

} // verus!

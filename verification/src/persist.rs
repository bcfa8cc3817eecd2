//! The persisted wordlist text: one word per line, and its round trip.

use vstd::prelude::*;

verus! {

use crate::filter::{alpha_char, is_word};
use vstd::string::{StrSliceExecFns, StringExecFns};

/// The persisted form of a wordlist: each word followed by one newline,
/// the final line newline-terminated too.
pub open spec fn render_spec(ws: Seq<Seq<char>>) -> Seq<char>
    decreases ws.len(),
{
    if ws.len() == 0 {
        Seq::empty()
    } else {
        ws[0] + seq!['\n'] + render_spec(ws.skip(1))
    }
}

proof fn lemma_render_snoc(ws: Seq<Seq<char>>, w: Seq<char>)
    ensures
        render_spec(ws.push(w)) == render_spec(ws) + w + seq!['\n'],
    decreases ws.len(),
{
    assert(render_spec(ws.push(w)) == ws.push(w)[0] + seq!['\n'] + render_spec(
        ws.push(w).skip(1),
    ));
    if ws.len() == 0 {
        assert(ws.push(w)[0] == w);
        assert(ws.push(w).skip(1) =~= Seq::<Seq<char>>::empty());
        assert(render_spec(ws.push(w)) =~= render_spec(ws) + w + seq!['\n']);
    } else {
        assert(ws.push(w).skip(1) =~= ws.skip(1).push(w));
        lemma_render_snoc(ws.skip(1), w);
        assert(render_spec(ws.push(w)) =~= render_spec(ws) + w + seq!['\n']);
    }
}

/// Renders the wordlist into the persisted one-word-per-line text.
pub fn render_wordlist(words: &Vec<String>) -> (r: String)
    ensures
        r@ == render_spec(words.deep_view()),
{
    let mut out = String::new();
    let n = words.len();
    let mut i: usize = 0;
    proof {
        assert(words.deep_view().take(0) =~= Seq::<Seq<char>>::empty());
    }
    while i < n
        invariant
            i <= n,
            n == words@.len(),
            out@ == render_spec(words.deep_view().take(i as int)),
        decreases n - i,
    {
        let ghost prefix = words.deep_view().take(i as int);
        out.append(words[i].as_str());
        out.append("\n");
        proof {
            reveal_strlit("\n");
            assert("\n"@ =~= seq!['\n']);
            lemma_render_snoc(prefix, words.deep_view()[i as int]);
            assert(words.deep_view().take(i + 1) =~= prefix.push(words.deep_view()[i as int]));
        }
        i = i + 1;
    }
    proof {
        assert(words.deep_view().take(n as int) =~= words.deep_view());
    }
    out
}

/// The lines of a text, split at newline characters; a trailing newline
/// closes the last line rather than opening an empty one.
pub open spec fn lines_spec(s: Seq<char>) -> Seq<Seq<char>>
    decreases s.len(),
{
    if s.len() == 0 {
        Seq::empty()
    } else if s[0] == '\n' {
        seq![Seq::<char>::empty()] + lines_spec(s.skip(1))
    } else {
        let rest = lines_spec(s.skip(1));
        if rest.len() == 0 {
            seq![s]
        } else {
            seq![seq![s[0]] + rest[0]] + rest.skip(1)
        }
    }
}

/// A non-empty text without newlines is one line: itself.
proof fn lemma_lines_single(l: Seq<char>)
    requires
        l.len() > 0,
        !l.contains('\n'),
    ensures
        lines_spec(l) == seq![l],
    decreases l.len(),
{
    assert(l[0] != '\n');
    if l.len() == 1 {
        assert(lines_spec(l.skip(1)) =~= Seq::<Seq<char>>::empty());
        assert(lines_spec(l) =~= seq![l]);
    } else {
        assert(!l.skip(1).contains('\n')) by {
            if l.skip(1).contains('\n') {
                let k = choose|k: int| 0 <= k < l.skip(1).len() && l.skip(1)[k] == '\n';
                assert(l[k + 1] == '\n');
            }
        }
        lemma_lines_single(l.skip(1));
        assert(lines_spec(l) =~= seq![l]) by {
            assert(seq![l[0]] + l.skip(1) =~= l);
        }
    }
}

/// Splitting off a newline-free first line: the lines of
/// `l + '\n' + rest` are `l` and then the lines of `rest`.
proof fn lemma_lines_prefix(l: Seq<char>, rest: Seq<char>)
    requires
        !l.contains('\n'),
    ensures
        lines_spec(l + seq!['\n'] + rest) == seq![l] + lines_spec(rest),
    decreases l.len(),
{
    let s = l + seq!['\n'] + rest;
    if l.len() == 0 {
        assert(s[0] == '\n');
        assert(s.skip(1) =~= rest);
        assert(lines_spec(s) =~= seq![l] + lines_spec(rest)) by {
            assert(l =~= Seq::<char>::empty());
        }
    } else {
        assert(s[0] == l[0]);
        assert(l[0] != '\n');
        assert(!l.skip(1).contains('\n')) by {
            if l.skip(1).contains('\n') {
                let k = choose|k: int| 0 <= k < l.skip(1).len() && l.skip(1)[k] == '\n';
                assert(l[k + 1] == '\n');
            }
        }
        lemma_lines_prefix(l.skip(1), rest);
        assert(s.skip(1) =~= l.skip(1) + seq!['\n'] + rest);
        let inner = lines_spec(s.skip(1));
        assert(inner == seq![l.skip(1)] + lines_spec(rest));
        assert(inner.len() > 0);
        assert(inner[0] == l.skip(1));
        assert(lines_spec(s) =~= seq![l] + lines_spec(rest)) by {
            assert(seq![l[0]] + l.skip(1) =~= l);
            assert(inner.skip(1) =~= lines_spec(rest));
        }
    }
}

/// Rendering and re-splitting gives the wordlist back, as long as every
/// word is non-empty and free of newlines.
pub proof fn lemma_render_lines_roundtrip(ws: Seq<Seq<char>>)
    requires
        forall|i: int| 0 <= i < ws.len() ==> (#[trigger] ws[i]).len() > 0 && !ws[i].contains('\n'),
    ensures
        lines_spec(render_spec(ws)) == ws,
    decreases ws.len(),
{
    if ws.len() == 0 {
        assert(lines_spec(render_spec(ws)) =~= ws);
    } else {
        assert(forall|i: int|
            0 <= i < ws.skip(1).len() ==> (#[trigger] ws.skip(1)[i]).len() > 0 && !ws.skip(
                1,
            )[i].contains('\n')) by {
            assert(forall|i: int| 0 <= i < ws.skip(1).len() ==> ws.skip(1)[i] == ws[i + 1]);
        }
        lemma_render_lines_roundtrip(ws.skip(1));
        lemma_lines_prefix(ws[0], render_spec(ws.skip(1)));
        assert(lines_spec(render_spec(ws)) =~= ws) by {
            assert(seq![ws[0]] + ws.skip(1) =~= ws);
        }
    }
}

/// The persisted text of a sequence of words parses back into exactly the
/// same sequence, one word per line: rendering loses nothing, and the lines
/// of the persisted wordlist are the wordlist's own words in their order.
pub proof fn lemma_persisted_roundtrip(ws: Seq<Seq<char>>)
    requires
        forall|t: Seq<char>| #[trigger] ws.contains(t) ==> is_word(t),
    ensures
        lines_spec(render_spec(ws)) == ws,
{
    assert forall|i: int| 0 <= i < ws.len() implies (#[trigger] ws[i]).len() > 0 && !ws[i].contains(
        '\n',
    ) by {
        assert(ws.contains(ws[i]));
        assert(is_word(ws[i]));
        if ws[i].contains('\n') {
            let k = choose|k: int| 0 <= k < ws[i].len() && ws[i][k] == '\n';
            assert(alpha_char(ws[i][k]));
        }
    }
    lemma_render_lines_roundtrip(ws);
}

/// Splits a text into its lines.
pub fn split_lines(text: &str) -> (r: Vec<String>)
    ensures
        r.deep_view() == lines_spec(text@),
{
    let len = text.unicode_len();
    let mut r: Vec<String> = Vec::new();
    let mut start: usize = 0;
    let mut i: usize = 0;
    proof {
        assert(text@.skip(0) =~= text@);
    }
    while i < len
        invariant
            start <= i <= len,
            len == text@.len(),
            forall|k: int| start <= k < i ==> text@[k] != '\n',
            r.deep_view() + lines_spec(text@.skip(start as int)) == lines_spec(text@),
        decreases len - i,
    {
        let c = text.get_char(i);
        if c == '\n' {
            let line = text.substring_char(start, i);
            let ghost l = line@;
            let ghost old_r = r.deep_view();
            proof {
                assert(!l.contains('\n')) by {
                    if l.contains('\n') {
                        let k = choose|k: int| 0 <= k < l.len() && l[k] == '\n';
                        assert(text@[start + k] == '\n');
                    }
                }
                lemma_lines_prefix(l, text@.skip(i + 1));
                assert(text@.skip(start as int) =~= l + seq!['\n'] + text@.skip(i + 1));
            }
            r.push(line.to_owned());
            proof {
                assert(r.deep_view() =~= old_r.push(l));
                assert(old_r.push(l) + lines_spec(text@.skip(i + 1)) =~= old_r + (seq![l]
                    + lines_spec(text@.skip(i + 1))));
            }
            start = i + 1;
        }
        i = i + 1;
    }
    if start < len {
        let line = text.substring_char(start, len);
        let ghost l = line@;
        let ghost old_r = r.deep_view();
        proof {
            assert(!l.contains('\n')) by {
                if l.contains('\n') {
                    let k = choose|k: int| 0 <= k < l.len() && l[k] == '\n';
                    assert(text@[start + k] == '\n');
                }
            }
            assert(l =~= text@.skip(start as int));
            lemma_lines_single(l);
        }
        r.push(line.to_owned());
        proof {
            assert(r.deep_view() =~= old_r.push(l));
            assert(old_r.push(l) =~= old_r + seq![l]);
        }
    } else {
        proof {
            assert(text@.skip(start as int) =~= Seq::<char>::empty());
            assert(r.deep_view() + lines_spec(text@.skip(start as int)) =~= r.deep_view());
        }
    }
    r
}

} // verus!

//! The word filter: which tokens qualify as words of the wordlist.

use vstd::prelude::*;

verus! {

use vstd::string::StrSliceExecFns;

/// Whether a character beside the newline has the Unicode `Alphabetic`
/// property.
pub uninterp spec fn unicode_alpha(c: char) -> bool;

/// Whether a character counts as alphabetic. The Unicode `Alphabetic`
/// property covers letters only, so the newline — a control character —
/// never has it.
pub open spec fn alpha_char(c: char) -> bool {
    c != '\n' && unicode_alpha(c)
}

/// Relies on char::is_alphabetic: whether a character has the Unicode
/// `Alphabetic` property depends on the character alone, and a control
/// character such as the newline does not have it.
#[verifier::external_body]
fn char_is_alphabetic(c: char) -> (r: bool)
    ensures
        r == (c != '\n' && unicode_alpha(c)),
{
    c.is_alphabetic()
}

/// Every character of the token is alphabetic.
pub open spec fn all_alphabetic(s: Seq<char>) -> bool {
    forall|i: int| 0 <= i < s.len() ==> alpha_char(s[i])
}

/// One character stands at three consecutive positions starting at `i`.
pub open spec fn triple_at(s: Seq<char>, i: int) -> bool {
    s[i] == s[i + 1] && s[i] == s[i + 2]
}

/// Some character repeats three times in a row: a run of length three or more.
pub open spec fn has_triple_run(s: Seq<char>) -> bool {
    exists|i: int| 0 <= i && i + 2 < s.len() && triple_at(s, i)
}

/// A token is kept exactly when it is at least three characters long,
/// entirely alphabetic, and no run of one character reaches length three.
pub open spec fn is_word(s: Seq<char>) -> bool {
    s.len() >= 3 && all_alphabetic(s) && !has_triple_run(s)
}

/// The acceptance predicate of the filter, as a function value.
pub open spec fn word_pred() -> spec_fn(Seq<char>) -> bool {
    |t: Seq<char>| is_word(t)
}

/// Decides `is_word` for one token.
pub fn is_accepted(w: &str) -> (r: bool)
    ensures
        r == is_word(w@),
{
    let len = w.unicode_len();
    if len < 3 {
        return false;
    }
    let mut i: usize = 0;
    while i < len
        invariant
            i <= len,
            len == w@.len(),
            forall|k: int| 0 <= k < i ==> alpha_char(w@[k]),
        decreases len - i,
    {
        if !char_is_alphabetic(w.get_char(i)) {
            return false;
        }
        i = i + 1;
    }
    let mut j: usize = 2;
    while j < len
        invariant
            2 <= j,
            len == w@.len(),
            forall|k: int| 0 <= k && k + 2 < j ==> !triple_at(w@, k),
        decreases len - j,
    {
        let a = w.get_char(j - 2);
        let b = w.get_char(j - 1);
        let c = w.get_char(j);
        if a == b && a == c {
            proof {
                assert(triple_at(w@, j - 2));
            }
            return false;
        }
        j = j + 1;
    }
    true
}

/// Keeps exactly the tokens that `is_word` accepts, in their given order.
pub fn cleanup(input: Vec<String>) -> (r: Vec<String>)
    ensures
        r.deep_view() == input.deep_view().filter(word_pred()),
{
    let mut r: Vec<String> = Vec::new();
    let n = input.len();
    let mut i: usize = 0;
    proof {
        assert(input.deep_view().take(0) =~= Seq::<Seq<char>>::empty());
        reveal(Seq::filter);
    }
    while i < n
        invariant
            i <= n,
            n == input@.len(),
            r.deep_view() == input.deep_view().take(i as int).filter(word_pred()),
        decreases n - i,
    {
        let ghost prefix = input.deep_view().take(i as int);
        let ghost keep = word_pred();
        let w = &input[i];
        proof {
            assert(input.deep_view().take(i + 1).drop_last() =~= prefix);
            assert(input.deep_view().take(i + 1).last() == w@);
            reveal(Seq::filter);
        }
        if is_accepted(w.as_str()) {
            let ghost old_r = r.deep_view();
            r.push(w.clone());
            proof {
                assert(r.deep_view() =~= old_r.push(w@));
            }
        }
        i = i + 1;
    }
    proof {
        assert(input.deep_view().take(n as int) =~= input.deep_view());
    }
    r
}

} // verus!

//! Random sampling from the wordlist and display of the sample.

use vstd::prelude::*;

verus! {

use vstd::string::StringExecFns;

/// Why sampling can fail.
#[derive(Clone, Copy, Debug, PartialEq, Eq, Structural)]
pub enum SampleError {
    /// The wordlist holds no words, so nothing can be drawn from it.
    WordlistEmpty,
}

/// Relies on rand::Rng::gen_range, on a generator from rand::thread_rng:
/// for the non-empty range `0..n` it returns a value of that range. Nothing
/// is assumed about which one.
#[verifier::external_body]
fn random_below(n: usize) -> (r: usize)
    requires
        n > 0,
    ensures
        r < n,
{
    rand::Rng::gen_range(&mut rand::thread_rng(), 0..n)
}

/// Draws `count` words from the wordlist, independently and with
/// replacement. Fails exactly when the wordlist is empty; otherwise the
/// sample has exactly `count` entries and every entry is a member of the
/// wordlist.
pub fn sample_words(words: &Vec<String>, count: u32) -> (r: Result<Vec<String>, SampleError>)
    ensures
        r is Err <==> words@.len() == 0,
        r matches Err(e) ==> e == SampleError::WordlistEmpty,
        r matches Ok(s) ==> s@.len() == count && forall|k: int|
            0 <= k < s@.len() ==> words.deep_view().contains(#[trigger] s.deep_view()[k]),
{
    if words.len() == 0 {
        return Err(SampleError::WordlistEmpty);
    }
    let mut out: Vec<String> = Vec::new();
    let mut i: u32 = 0;
    while i < count
        invariant
            i <= count,
            words@.len() > 0,
            out@.len() == i,
            forall|k: int|
                0 <= k < out@.len() ==> words.deep_view().contains(#[trigger] out.deep_view()[k]),
        decreases count - i,
    {
        let idx = random_below(words.len());
        let ghost old_dv = out.deep_view();
        out.push(words[idx].clone());
        proof {
            assert(out.deep_view() =~= old_dv.push(words.deep_view()[idx as int]));
            assert(words.deep_view().contains(words.deep_view()[idx as int]));
        }
        i = i + 1;
    }
    Ok(out)
}

/// The sampled words joined for display: single spaces between words, no
/// leading or trailing separator, empty for an empty sample.
pub open spec fn join_spec(ws: Seq<Seq<char>>) -> Seq<char>
    decreases ws.len(),
{
    if ws.len() == 0 {
        Seq::empty()
    } else if ws.len() == 1 {
        ws[0]
    } else {
        ws[0] + seq![' '] + join_spec(ws.skip(1))
    }
}

proof fn lemma_join_snoc(ws: Seq<Seq<char>>, w: Seq<char>)
    requires
        ws.len() >= 1,
    ensures
        join_spec(ws.push(w)) == join_spec(ws) + seq![' '] + w,
    decreases ws.len(),
{
    if ws.len() == 1 {
        assert(ws.push(w)[0] == ws[0]);
        assert(ws.push(w).skip(1) =~= seq![w]);
        assert(join_spec(ws.push(w)) == ws[0] + seq![' '] + join_spec(seq![w]));
        assert(join_spec(seq![w]) == w);
        assert(join_spec(ws.push(w)) =~= join_spec(ws) + seq![' '] + w);
    } else {
        assert(ws.push(w).skip(1) =~= ws.skip(1).push(w));
        lemma_join_snoc(ws.skip(1), w);
        assert(join_spec(ws.push(w)) == ws[0] + seq![' '] + join_spec(ws.skip(1).push(w)));
        assert(join_spec(ws.push(w)) =~= join_spec(ws) + seq![' '] + w);
    }
}

/// Joins the words with single spaces.
pub fn join(words: &Vec<String>) -> (r: String)
    ensures
        r@ == join_spec(words.deep_view()),
{
    let mut out = String::new();
    let n = words.len();
    if n == 0 {
        return out;
    }
    out.append(words[0].as_str());
    proof {
        assert(words.deep_view().take(1) =~= seq![words.deep_view()[0]]);
        assert(join_spec(words.deep_view().take(1)) == words.deep_view()[0]);
        assert(out@ =~= words.deep_view()[0]);
    }
    let mut i: usize = 1;
    while i < n
        invariant
            1 <= i <= n,
            n == words@.len(),
            out@ == join_spec(words.deep_view().take(i as int)),
        decreases n - i,
    {
        let ghost prefix = words.deep_view().take(i as int);
        out.append(" ");
        out.append(words[i].as_str());
        proof {
            reveal_strlit(" ");
            assert(" "@ =~= seq![' ']);
            lemma_join_snoc(prefix, words.deep_view()[i as int]);
            assert(words.deep_view().take(i + 1) =~= prefix.push(words.deep_view()[i as int]));
        }
        i = i + 1;
    }
    proof {
        assert(words.deep_view().take(n as int) =~= words.deep_view());
    }
    out
}

} // verus!

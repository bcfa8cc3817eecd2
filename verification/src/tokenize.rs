//! Tokenization: lowercasing text blobs and segmenting them into tokens.

use vstd::prelude::*;

verus! {

use unicode_segmentation::UnicodeSegmentation;

/// The Unicode lowercasing of a sequence of characters.
pub uninterp spec fn lower_of(s: Seq<char>) -> Seq<char>;

/// Relies on str::to_lowercase: the lowercase equivalent of a string
/// depends on its characters alone.
#[verifier::external_body]
fn lowercase(s: &str) -> (r: String)
    ensures
        r@ == lower_of(s@),
{
    s.to_lowercase()
}

/// The words that Unicode word-boundary segmentation finds in a text.
pub uninterp spec fn unicode_words_of(s: Seq<char>) -> Seq<Seq<char>>;

/// Relies on unicode_segmentation::UnicodeSegmentation::unicode_words:
/// the word segments of a text depend on its characters alone.
#[verifier::external_body]
fn unicode_words(s: &str) -> (r: Vec<String>)
    ensures
        r.deep_view() == unicode_words_of(s@),
{
    s.unicode_words().map(|w| w.to_string()).collect()
}

/// The tokens of one text blob: lowercase the whole blob, then segment it
/// at Unicode word boundaries.
pub open spec fn tokens_of_blob(b: Seq<char>) -> Seq<Seq<char>> {
    unicode_words_of(lower_of(b))
}

/// The tokens of a series of blobs, merged in order into one collection.
pub open spec fn tokens_of(blobs: Seq<Seq<char>>) -> Seq<Seq<char>>
    decreases blobs.len(),
{
    if blobs.len() == 0 {
        Seq::empty()
    } else {
        tokens_of_blob(blobs[0]) + tokens_of(blobs.skip(1))
    }
}

proof fn lemma_tokens_of_snoc(blobs: Seq<Seq<char>>, b: Seq<char>)
    ensures
        tokens_of(blobs.push(b)) == tokens_of(blobs) + tokens_of_blob(b),
    decreases blobs.len(),
{
    if blobs.len() == 0 {
        assert(blobs.push(b)[0] == b);
        assert(blobs.push(b).skip(1) =~= Seq::<Seq<char>>::empty());
        assert(tokens_of(blobs.push(b)) == tokens_of_blob(b) + tokens_of(
            Seq::<Seq<char>>::empty(),
        ));
        assert(tokens_of(blobs.push(b)) =~= tokens_of(blobs) + tokens_of_blob(b));
    } else {
        assert(blobs.push(b).skip(1) =~= blobs.skip(1).push(b));
        lemma_tokens_of_snoc(blobs.skip(1), b);
        assert(tokens_of(blobs.push(b)) =~= tokens_of(blobs) + tokens_of_blob(b));
    }
}

/// Lowercases and segments every blob and merges all tokens, in order,
/// into one collection.
pub fn tokenize(blobs: &Vec<String>) -> (r: Vec<String>)
    ensures
        r.deep_view() == tokens_of(blobs.deep_view()),
{
    let mut r: Vec<String> = Vec::new();
    let n = blobs.len();
    let mut i: usize = 0;
    proof {
        assert(blobs.deep_view().take(0) =~= Seq::<Seq<char>>::empty());
    }
    while i < n
        invariant
            i <= n,
            n == blobs@.len(),
            r.deep_view() == tokens_of(blobs.deep_view().take(i as int)),
        decreases n - i,
    {
        let ghost prefix = blobs.deep_view().take(i as int);
        let low = lowercase(blobs[i].as_str());
        let mut ws = unicode_words(low.as_str());
        let ghost old_r = r.deep_view();
        let ghost new_words = ws.deep_view();
        r.append(&mut ws);
        proof {
            assert(r.deep_view() =~= old_r + new_words);
            lemma_tokens_of_snoc(prefix, blobs.deep_view()[i as int]);
            assert(blobs.deep_view().take(i + 1) =~= prefix.push(blobs.deep_view()[i as int]));
        }
        i = i + 1;
    }
    proof {
        assert(blobs.deep_view().take(n as int) =~= blobs.deep_view());
    }
    r
}

} // verus!

//! Properties of the scan as a whole.
use vstd::prelude::*;
use crate::grammar::{
    is_keyword, lemma_recognize_advances, lemma_skip_trivia_bounded, lemma_trivia_end_bounded,
    recognize, scan, skip_trivia, trivia_end, word_token,
};

verus! {

/// Skipping trivia stops where no more trivia starts.
pub proof fn lemma_skip_trivia_stops(s: Seq<u8>, p: int)
    requires
        0 <= p <= s.len(),
    ensures
        skip_trivia(s, skip_trivia(s, p)) == skip_trivia(s, p),
    decreases s.len() - p,
{
    if p < s.len() && trivia_end(s, p) > p {
        lemma_trivia_end_bounded(s, p);
        lemma_skip_trivia_stops(s, trivia_end(s, p));
    } else {
        assert(skip_trivia(s, p) == p);
    }
}

/// Trivia is transparent: scanning from `p` gives exactly what scanning from
/// the first non-trivia byte after `p` gives.
pub proof fn lemma_trivia_transparent(s: Seq<u8>, p: int)
    requires
        0 <= p <= s.len(),
    ensures
        scan(s, skip_trivia(s, p)) == scan(s, p),
{
    lemma_skip_trivia_bounded(s, p);
    lemma_skip_trivia_stops(s, p);
}

/// A word that spells a keyword becomes that keyword's token, never an identifier.
pub proof fn lemma_keywords_are_not_identifiers(text: Seq<char>)
    ensures
        word_token(text) is Identifier <==> !is_keyword(text),
{
}

/// No identifier that a successful scan yields spells a keyword.
pub proof fn lemma_identifiers_are_not_keywords(s: Seq<u8>, p: int)
    requires
        0 <= p <= s.len(),
        scan(s, p) is Ok,
    ensures
        forall|i: int|
            0 <= i < scan(s, p)->Ok_0.len() ==> (#[trigger] scan(s, p)->Ok_0[i] is Identifier
                ==> !is_keyword(scan(s, p)->Ok_0[i]->Identifier_0)),
    decreases s.len() - p,
{
    lemma_skip_trivia_bounded(s, p);
    let q = skip_trivia(s, p);
    if q < s.len() {
        lemma_recognize_advances(s, q);
        let (r, e) = recognize(s, q);
        lemma_identifiers_are_not_keywords(s, e);
        let ts = scan(s, p)->Ok_0;
        let rest = scan(s, e)->Ok_0;
        assert forall|i: int| 0 <= i < ts.len() && #[trigger] ts[i] is Identifier implies !is_keyword(
            ts[i]->Identifier_0,
        ) by {
            if i > 0 {
                assert(ts[i] == rest[i - 1]);
            }
        }
    }
}

/// The scan is a function of the text and the starting offset alone: equal
/// inputs give identical outcomes.
pub proof fn lemma_scan_deterministic(s1: Seq<u8>, s2: Seq<u8>, p: int)
    requires
        s1 == s2,
    ensures
        scan(s1, p) == scan(s2, p),
{
}

} // verus!

//! Turning text into tokens: segmentation into words, and the choice of the
//! words that count.

use vstd::prelude::*;
use unobtanium_segmenter::augmentation::AugmentationClassify;
use unobtanium_segmenter::augmentation::AugmentationDetectLanguage;
use unobtanium_segmenter::chain::ChainAugmenter;
use unobtanium_segmenter::chain::ChainSegmenter;
use unobtanium_segmenter::chain::StartSegmentationChain;
use unobtanium_segmenter::normalization::NormalizationLowercase;
use unobtanium_segmenter::normalization::NormalizationRustStemmers;
use unobtanium_segmenter::segmentation::UnicodeSentenceSplitter;
use unobtanium_segmenter::segmentation::UnicodeWordSplitter;
use unobtanium_segmenter::SegmentedTokenKind;

verus! {

/// What a piece of segmented text is made of.
#[derive(Debug, Clone, Copy, PartialEq, Eq, Structural)]
pub enum SegmentKind {
    /// Letters or digits.
    AlphaNumeric,
    /// Punctuation or white space.
    Separator,
    /// Symbols and other characters.
    Symbol,
    /// Nothing that the classification knows.
    Unclassified,
}

/// One piece of segmented text: its normalised form where it has one, else
/// the text as it stood, and its kind.
#[derive(Debug, Clone)]
pub struct Segment {
    pub text: String,
    pub kind: SegmentKind,
}

impl View for Segment {
    type V = (Seq<char>, SegmentKind);

    open spec fn view(&self) -> (Seq<char>, SegmentKind) {
        (self.text@, self.kind)
    }
}

/// The segments of a vector as plain values.
pub open spec fn segments_view(segments: Seq<Segment>) -> Seq<(Seq<char>, SegmentKind)> {
    segments.map_values(|s: Segment| s@)
}

/// The segments that the segmentation chain yields for a text, left to right.
pub uninterp spec fn segmentation(text: Seq<char>) -> Seq<(Seq<char>, SegmentKind)>;

/// The tokens among segments: the texts of the alphanumeric ones, in order.
pub open spec fn words_of(segments: Seq<(Seq<char>, SegmentKind)>) -> Seq<Seq<char>> {
    segments.filter(|s: (Seq<char>, SegmentKind)| s.1 == SegmentKind::AlphaNumeric).map_values(
        |s: (Seq<char>, SegmentKind)| s.0,
    )
}

/// Runs the chain of `unobtanium_segmenter` on a text: sentences, language
/// detection, words, classification, lower-casing, stemming. Claimed: the
/// chain is a function of the text alone, and each segment comes back with
/// the text that `get_text_prefer_normalized_owned` gives and with its kind.
#[verifier::external_body]
fn segment(input: &str) -> (segments: Vec<Segment>)
    ensures
        segments_view(segments@) == segmentation(input@),
{
    input.start_segmentation_chain().chain_owned_segmenter(UnicodeSentenceSplitter::new())
        .chain_owned_augmenter(AugmentationDetectLanguage::new())
        .chain_owned_segmenter(UnicodeWordSplitter::new())
        .chain_owned_augmenter(AugmentationClassify::new())
        .chain_owned_augmenter(NormalizationLowercase::new())
        .chain_owned_augmenter(NormalizationRustStemmers::new())
        .map(|token| Segment { text: token.get_text_prefer_normalized_owned(), kind: match token.kind {
            Some(SegmentedTokenKind::AlphaNumeric) => SegmentKind::AlphaNumeric,
            Some(SegmentedTokenKind::Separator) => SegmentKind::Separator,
            Some(SegmentedTokenKind::Symbol) => SegmentKind::Symbol,
            None => SegmentKind::Unclassified,
        } }).collect()
}

/// Keeps the alphanumeric segments and hands out their texts.
pub fn select_words(segments: &Vec<Segment>) -> (tokens: Vec<String>)
    ensures
        tokens.deep_view() == words_of(segments_view(segments@)),
{
    let ghost all = segments_view(segments@);
    let ghost keep = |s: (Seq<char>, SegmentKind)| s.1 == SegmentKind::AlphaNumeric;
    let mut tokens: Vec<String> = Vec::new();
    let mut i: usize = 0;
    proof {
        reveal(Seq::filter);
        assert(all.take(0) =~= Seq::empty());
        assert(tokens.deep_view() =~= words_of(all.take(0)));
    }
    while i < segments.len()
        invariant
            i <= segments.len(),
            all == segments_view(segments@),
            keep == |s: (Seq<char>, SegmentKind)| s.1 == SegmentKind::AlphaNumeric,
            tokens.deep_view() == words_of(all.take(i as int)),
        decreases segments.len() - i,
    {
        proof {
            reveal(Seq::filter);
            assert(all.take(i + 1).drop_last() =~= all.take(i as int));
            assert(all.take(i + 1).last() == segments[i as int]@);
        }
        let ghost before = tokens.deep_view();
        if segments[i].kind == SegmentKind::AlphaNumeric {
            let text = segments[i].text.clone();
            tokens.push(text);
            assert(tokens.deep_view() =~= before.push(segments[i as int].text@));
            assert(all.take(i + 1).filter(keep) == all.take(i as int).filter(keep).push(
                all[i as int],
            ));
            assert(words_of(all.take(i + 1)) =~= words_of(all.take(i as int)).push(
                all[i as int].0,
            ));
        } else {
            assert(all.take(i + 1).filter(keep) == all.take(i as int).filter(keep));
        }
        i += 1;
    }
    assert(all.take(i as int) =~= all);
    tokens
}

/// Splits a text into its tokens: lower-cased, normalised words, in the
/// order in which they occur; punctuation, symbols and white space are left out.
pub fn tokenize(input: &str) -> (tokens: Vec<String>)
    ensures
        tokens.deep_view() == words_of(segmentation(input@)),
{
    let segments = segment(input);
    select_words(&segments)
}

} // verus!

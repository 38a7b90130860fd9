//! The integer half of classification: a loaded model with its totals, and
//! the counters of the tokens of a text. The probability that is computed
//! from them is floating-point arithmetic and lives with the caller.

use vstd::prelude::*;
use vstd::utf8::encode_utf8;
use crate::counter::Counter;
use crate::stats::ClassifierStats;
use crate::store::lookup;
use crate::store::TokenStore;
use crate::tokenizer::segmentation;
use crate::tokenizer::tokenize;
use crate::tokenizer::words_of;

verus! {

/// The counter of a token in a list of entries; zero for a token that is not there.
pub open spec fn counter_of(entries: Seq<(Seq<u8>, Counter)>, token: Seq<u8>) -> Counter {
    match lookup(entries, token) {
        Some(counter) => counter,
        None => Counter { spam: 0, ham: 0 },
    }
}

/// The counters of a sequence of tokens, one for each occurrence, in order.
pub open spec fn counters_of(entries: Seq<(Seq<u8>, Counter)>, tokens: Seq<Seq<char>>) -> Seq<
    Counter,
> {
    tokens.map_values(|t: Seq<char>| counter_of(entries, encode_utf8(t)))
}

/// A model ready for classification: a token store and the totals over it.
pub struct NaiveBayesClassifier {
    model: TokenStore,
    stats: ClassifierStats,
}

impl NaiveBayesClassifier {
    /// The totals are those of the store.
    #[verifier::type_invariant]
    pub closed spec fn wf(&self) -> bool {
        self.model.wf() && self.stats == ClassifierStats::of_entries(self.model@)
    }

    /// The entries of the model, in stored order.
    pub closed spec fn entries(&self) -> Seq<(Seq<u8>, Counter)> {
        self.model@
    }

    /// Takes a store into service and scans it once for its totals.
    pub fn from_model(model: TokenStore) -> (classifier: NaiveBayesClassifier)
        ensures
            classifier.wf(),
            classifier.entries() == model@,
    {
        proof {
            use_type_invariant(&model);
        }
        let stats = ClassifierStats::from_model(&model);
        NaiveBayesClassifier { model, stats }
    }

    /// The totals over the model.
    pub fn stats(&self) -> (stats: ClassifierStats)
        ensures
            stats == ClassifierStats::of_entries(self.entries()),
    {
        proof {
            use_type_invariant(self);
        }
        self.stats
    }

    /// The store behind the classifier.
    pub fn model(&self) -> (model: &TokenStore)
        ensures
            model@ == self.entries(),
    {
        &self.model
    }

    /// The counter of one token; zero for a token the model does not know.
    pub fn get_token_counter(&self, word: &str) -> (counter: Counter)
        ensures
            counter == counter_of(self.entries(), encode_utf8(word@)),
    {
        match self.model.get(word.as_bytes()) {
            Some(counter) => counter,
            None => Counter { spam: 0, ham: 0 },
        }
    }

    /// The counters of tokens that the tokenizer handed out, one per occurrence.
    pub fn lookup_tokens(&self, tokens: &Vec<String>) -> (counters: Vec<Counter>)
        ensures
            counters@ == counters_of(self.entries(), tokens.deep_view()),
    {
        let mut counters: Vec<Counter> = Vec::new();
        let mut i: usize = 0;
        while i < tokens.len()
            invariant
                i <= tokens.len(),
                counters@ == counters_of(self.entries(), tokens.deep_view().take(i as int)),
            decreases tokens.len() - i,
        {
            let counter = self.get_token_counter(tokens[i].as_str());
            counters.push(counter);
            proof {
                let all = tokens.deep_view();
                assert(all[i as int] == tokens[i as int]@);
                assert(all.take(i + 1) =~= all.take(i as int).push(all[i as int]));
                assert(counters@ =~= counters_of(self.entries(), all.take(i + 1)));
            }
            i += 1;
        }
        assert(tokens.deep_view().take(i as int) =~= tokens.deep_view());
        counters
    }

    /// The counters of the tokens of a text, in the order in which the
    /// tokens occur; empty where the text holds no token.
    pub fn token_counters(&self, text: &str) -> (counters: Vec<Counter>)
        ensures
            counters@ == counters_of(self.entries(), words_of(segmentation(text@))),
    {
        let tokens = tokenize(text);
        self.lookup_tokens(&tokens)
    }
}

} // verus!

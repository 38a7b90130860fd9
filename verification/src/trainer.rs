//! The trainer: counts the tokens of labelled samples on top of an earlier
//! store, and builds the next store from the counts.

use vstd::prelude::*;
use vstd::string::StrSliceExecFns;
use vstd::utf8::encode_utf8;
use vstd::utf8::encode_utf8_decode_utf8;
use crate::counter::Counter;
use crate::model::bump;
use crate::model::entries_map;
use crate::model::lemma_lookup_at;
use crate::model::lemma_map_insert;
use crate::model::lemma_map_update;
use crate::model::observed;
use crate::model::recorded;
use crate::model::Label;
use crate::order::compare_bytes;
use crate::order::lemma_lex_lt_irreflexive;
use crate::order::lemma_lex_lt_transitive;
use crate::order::lex_lt;
use crate::order::strictly_ascending;
use crate::order::Relation;
use crate::stats::ham_sum;
use crate::stats::spam_sum;
use crate::stats::wrap32;
use crate::stats::ClassifierStats;
use crate::store::entries_view;
use crate::store::has_token;
use crate::store::keys_of;
use crate::store::BuildError;
use crate::store::TokenEntry;
use crate::store::TokenStore;
use crate::tokenizer::segmentation;
use crate::tokenizer::tokenize;
use crate::tokenizer::words_of;

verus! {

/// The label that a label text stands for: `spam`, `ham`, or neither.
pub open spec fn label_of(text: Seq<char>) -> Label {
    if text == "spam"@ {
        Label::Spam
    } else if text == "ham"@ {
        Label::Ham
    } else {
        Label::Other
    }
}

/// The tokens of a sample as store keys: each token in its UTF-8 bytes.
pub open spec fn token_keys(tokens: Seq<Seq<char>>) -> Seq<Seq<u8>> {
    tokens.map_values(|t: Seq<char>| encode_utf8(t))
}

/// Reads a label text.
pub fn parse_label(label: &str) -> (r: Label)
    ensures
        r == label_of(label@),
{
    proof {
        encode_utf8_decode_utf8(label@);
        encode_utf8_decode_utf8("spam"@);
        encode_utf8_decode_utf8("ham"@);
    }
    if compare_bytes(label.as_bytes(), "spam".as_bytes()) == Relation::Same {
        Label::Spam
    } else if compare_bytes(label.as_bytes(), "ham".as_bytes()) == Relation::Same {
        Label::Ham
    } else {
        Label::Other
    }
}

/// Counts kept over a training run.
#[derive(Debug, Clone, Copy, PartialEq, Eq, Structural)]
pub struct TrainingStats {
    pub total_samples: u32,
    pub spam_samples: u32,
    pub ham_samples: u32,
    pub total_tokens: u32,
    pub unique_tokens: u32,
}

impl TrainingStats {
    /// The counts before anything was seen.
    pub fn new() -> (stats: TrainingStats)
        ensures
            stats == (TrainingStats {
                total_samples: 0,
                spam_samples: 0,
                ham_samples: 0,
                total_tokens: 0,
                unique_tokens: 0,
            }),
    {
        TrainingStats {
            total_samples: 0,
            spam_samples: 0,
            ham_samples: 0,
            total_tokens: 0,
            unique_tokens: 0,
        }
    }

    /// The sample counts after one more sample with `tokens` tokens; the
    /// number of unique tokens is left as it was.
    pub open spec fn after_sample(self, label: Label, tokens: nat) -> TrainingStats {
        TrainingStats {
            total_samples: wrap32(self.total_samples as nat + 1),
            spam_samples: if label == Label::Spam {
                wrap32(self.spam_samples as nat + 1)
            } else {
                self.spam_samples
            },
            ham_samples: if label == Label::Ham {
                wrap32(self.ham_samples as nat + 1)
            } else {
                self.ham_samples
            },
            total_tokens: wrap32(self.total_tokens as nat + tokens),
            unique_tokens: self.unique_tokens,
        }
    }
}

/// Where `token` stands among ascending entries: at `index` if `found`, else
/// `index` is the place at which it keeps the order.
pub open spec fn is_place(entries: Seq<(Seq<u8>, Counter)>, token: Seq<u8>, found: bool, index: int) -> bool {
    &&& 0 <= index <= entries.len()
    &&& found ==> index < entries.len() && entries[index].0 == token
    &&& !found ==> {
        &&& forall|j: int| 0 <= j < index ==> lex_lt(#[trigger] keys_of(entries)[j], token)
        &&& forall|j: int| index <= j < entries.len() ==> lex_lt(token, #[trigger] keys_of(entries)[j])
    }
}

/// Finds a token among ascending entries by halving.
pub fn find_place(entries: &Vec<TokenEntry>, token: &[u8]) -> (r: (bool, usize))
    requires
        strictly_ascending(keys_of(entries_view(entries@))),
    ensures
        is_place(entries_view(entries@), token@, r.0, r.1 as int),
        r.0 == has_token(entries_view(entries@), token@),
{
    let ghost all = entries_view(entries@);
    let ghost keys = keys_of(all);
    let mut low: usize = 0;
    let mut high: usize = entries.len();
    while low < high
        invariant
            low <= high <= entries.len(),
            all == entries_view(entries@),
            keys == keys_of(all),
            strictly_ascending(keys),
            forall|j: int| 0 <= j < low ==> lex_lt(#[trigger] keys[j], token@),
            forall|j: int| high <= j < keys.len() ==> lex_lt(token@, #[trigger] keys[j]),
        decreases high - low,
    {
        let middle = low + (high - low) / 2;
        let relation = compare_bytes(entries[middle].token.as_slice(), token);
        assert(keys[middle as int] == entries[middle as int].token@);
        match relation {
            Relation::Same => {
                assert(all[middle as int].0 == token@);
                return (true, middle);
            },
            Relation::Before => {
                assert forall|j: int| 0 <= j < middle + 1 implies lex_lt(#[trigger] keys[j], token@) by {
                    if j < middle {
                        lemma_lex_lt_transitive(keys[j], keys[middle as int], token@);
                    }
                }
                low = middle + 1;
            },
            Relation::After => {
                assert forall|j: int| middle <= j < keys.len() implies lex_lt(token@, #[trigger] keys[j]) by {
                    if middle < j {
                        lemma_lex_lt_transitive(token@, keys[middle as int], keys[j]);
                    }
                }
                high = middle;
            },
        }
    }
    proof {
        lemma_lex_lt_irreflexive(token@);
        if has_token(all, token@) {
            let j = crate::store::token_index(all, token@);
            assert(keys[j] == token@);
        }
    }
    (false, low)
}

/// The counts of a training run in the making: every token seen so far with
/// its counter, tokens in strictly ascending order.
pub struct Trainer {
    entries: Vec<TokenEntry>,
    stats: TrainingStats,
}

impl View for Trainer {
    type V = Seq<(Seq<u8>, Counter)>;

    /// The entries counted so far, in ascending order of their tokens.
    closed spec fn view(&self) -> Seq<(Seq<u8>, Counter)> {
        entries_view(self.entries@)
    }
}

impl Trainer {
    /// The tokens are strictly ascending, and as many as the counts say.
    pub closed spec fn wf(&self) -> bool {
        &&& strictly_ascending(keys_of(entries_view(self.entries@)))
        &&& self.stats.unique_tokens == wrap32(self.entries@.len())
    }

    /// The counts kept besides the entries.
    pub closed spec fn stats_view(&self) -> TrainingStats {
        self.stats
    }

    /// A trainer that has seen nothing.
    pub fn new() -> (trainer: Trainer)
        ensures
            trainer.wf(),
            trainer@ == Seq::<(Seq<u8>, Counter)>::empty(),
            trainer.stats_view() == (TrainingStats {
                total_samples: 0,
                spam_samples: 0,
                ham_samples: 0,
                total_tokens: 0,
                unique_tokens: 0,
            }),
    {
        let trainer = Trainer { entries: Vec::new(), stats: TrainingStats::new() };
        assert(entries_view(trainer.entries@) =~= Seq::empty());
        trainer
    }

    /// A trainer that starts from the entries of an earlier store.
    pub fn from_store(store: &TokenStore) -> (trainer: Trainer)
        ensures
            trainer.wf(),
            trainer@ == store@,
            trainer.stats_view() == (TrainingStats {
                total_samples: 0,
                spam_samples: 0,
                ham_samples: 0,
                total_tokens: wrap32(spam_sum(store@) + ham_sum(store@)),
                unique_tokens: wrap32(store@.len()),
            }),
    {
        let entries = store.iterate();
        let totals = ClassifierStats::from_entries(&entries);
        let stats = TrainingStats {
            total_samples: 0,
            spam_samples: 0,
            ham_samples: 0,
            total_tokens: totals.total_tokens,
            unique_tokens: totals.unique_tokens,
        };
        Trainer { entries, stats }
    }

    /// The counts of the run so far.
    pub fn stats(&self) -> (stats: TrainingStats)
        requires
            self.wf(),
        ensures
            stats == self.stats_view(),
            stats.unique_tokens == wrap32(self@.len()),
    {
        self.stats
    }

    /// The entries counted so far, tokens in strictly ascending order.
    pub fn entries(&self) -> (entries: &Vec<TokenEntry>)
        requires
            self.wf(),
        ensures
            entries_view(entries@) == self@,
            strictly_ascending(keys_of(self@)),
    {
        &self.entries
    }

    /// Counts one occurrence of `token` under `label`: a token not seen
    /// before becomes known, and `Other` counts for neither class.
    pub fn record(&mut self, token: Vec<u8>, label: Label)
        requires
            old(self).wf(),
        ensures
            final(self).wf(),
            entries_map(final(self)@) == recorded(entries_map(old(self)@), token@, label),
            final(self).stats_view() == (TrainingStats {
                unique_tokens: wrap32(final(self)@.len()),
                ..old(self).stats_view()
            }),
            final(self)@.len() == old(self)@.len() + if has_token(old(self)@, token@) {
                0int
            } else {
                1int
            },
    {
        let ghost before = entries_view(self.entries@);
        let (found, index) = find_place(&self.entries, token.as_slice());
        if found {
            let counter = bump(self.entries[index].counter, label);
            proof {
                lemma_lookup_at(before, index as int);
                lemma_map_update(before, index as int, counter);
            }
            let ghost key = token@;
            self.entries.set(index, TokenEntry { token, counter });
            assert(entries_view(self.entries@) =~= before.update(index as int, (key, counter)));
        } else {
            let counter = bump(Counter { spam: 0, ham: 0 }, label);
            proof {
                lemma_map_insert(before, index as int, token@, counter);
            }
            let ghost key = token@;
            self.entries.insert(index, TokenEntry { token, counter });
            assert(entries_view(self.entries@) =~= before.insert(index as int, (key, counter)));
            self.stats.unique_tokens = self.stats.unique_tokens.wrapping_add(1);
        }
    }

    /// Counts the tokens of one sample, given as the tokenizer hands them out.
    pub fn observe(&mut self, tokens: &Vec<String>, label: &str)
        requires
            old(self).wf(),
        ensures
            final(self).wf(),
            entries_map(final(self)@) == observed(
                entries_map(old(self)@),
                token_keys(tokens.deep_view()),
                label_of(label@),
            ),
            final(self).stats_view() == (TrainingStats {
                unique_tokens: wrap32(final(self)@.len()),
                ..old(self).stats_view().after_sample(label_of(label@), tokens@.len())
            }),
    {
        let label = parse_label(label);
        let ghost keys = token_keys(tokens.deep_view());
        let ghost start = entries_map(self@);
        match label {
            Label::Spam => {
                self.stats.spam_samples = self.stats.spam_samples.wrapping_add(1);
            },
            Label::Ham => {
                self.stats.ham_samples = self.stats.ham_samples.wrapping_add(1);
            },
            Label::Other => {},
        }
        self.stats.total_samples = self.stats.total_samples.wrapping_add(1);
        let count = (tokens.len() as u64 % 0x1_0000_0000) as u32;
        self.stats.total_tokens = self.stats.total_tokens.wrapping_add(count);
        let ghost counted = self.stats;
        let mut i: usize = 0;
        assert(keys.take(0) =~= Seq::empty());
        while i < tokens.len()
            invariant
                i <= tokens.len(),
                self.wf(),
                keys == token_keys(tokens.deep_view()),
                entries_map(self@) == observed(start, keys.take(i as int), label),
                self.stats_view() == (TrainingStats {
                    unique_tokens: wrap32(self@.len()),
                    ..counted
                }),
            decreases tokens.len() - i,
        {
            let token = tokens[i].as_str().as_bytes_vec();
            proof {
                assert(tokens.deep_view()[i as int] == tokens[i as int]@);
                assert(keys[i as int] == token@);
                assert(keys.take(i + 1).drop_last() =~= keys.take(i as int));
                assert(keys.take(i + 1).last() == keys[i as int]);
            }
            self.record(token, label);
            i += 1;
        }
        assert(keys.take(i as int) =~= keys);
    }

    /// Splits the text of one sample into tokens and counts them.
    pub fn train(&mut self, text: &str, label: &str)
        requires
            old(self).wf(),
        ensures
            final(self).wf(),
            entries_map(final(self)@) == observed(
                entries_map(old(self)@),
                token_keys(words_of(segmentation(text@))),
                label_of(label@),
            ),
            final(self).stats_view() == (TrainingStats {
                unique_tokens: wrap32(final(self)@.len()),
                ..old(self).stats_view().after_sample(
                    label_of(label@),
                    words_of(segmentation(text@)).len(),
                )
            }),
    {
        let tokens = tokenize(text);
        assert(tokens.deep_view().len() == tokens@.len());
        self.observe(&tokens, label);
    }

    /// Builds the store that holds the entries counted so far.
    pub fn build(&self) -> (r: Result<TokenStore, BuildError>)
        requires
            self.wf(),
        ensures
            r matches Ok(store) && store.wf() && store@ == self@,
            strictly_ascending(keys_of(self@)),
    {
        TokenStore::build(&self.entries)
    }
}

} // verus!

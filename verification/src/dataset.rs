//! Training from a dataset: tabular records of text and label, counted on top
//! of an earlier model, and written out as the next model.

use vstd::prelude::*;
use crate::counter::Counter;
use crate::model::entries_map;
use crate::model::observed;
use crate::model::Model;
use crate::model::Label;
use crate::model::count_of;
use crate::model::hits;
use crate::model::lemma_observed_counts;
use crate::order::strictly_ascending;
use crate::stats::ham_sum;
use crate::stats::spam_sum;
use crate::stats::wrap32;
use crate::stats::lemma_wrap32_add;
use crate::stats::ClassifierStats;
use crate::store::decode_error;
use crate::store::admissible;
use crate::store::decode;
use crate::store::keys_of;
use crate::store::BuildError;
use crate::store::StoreError;
use crate::store::TokenStore;
use crate::tokenizer::segmentation;
use crate::tokenizer::words_of;
use crate::trainer::label_of;
use crate::trainer::token_keys;
use crate::trainer::Trainer;
use crate::trainer::TrainingStats;

verus! {

/// The records that the CSV reader finds in a dataset after its header line,
/// each with its fields, or `None` for a record that it cannot read.
pub uninterp spec fn csv_records(data: Seq<u8>) -> Seq<Option<Seq<Seq<char>>>>;

/// Reads a dataset with `csv::Reader`, built by `csv::ReaderBuilder` with a
/// header line, through `into_records`. Claimed: the records are a function
/// of the bytes alone; a record that the reader reports as an error comes
/// back as `None`, every other one with its fields in order.
#[verifier::external_body]
fn read_records(data: &[u8]) -> (records: Vec<Option<Vec<String>>>)
    ensures
        records.deep_view() == csv_records(data@),
{
    csv::ReaderBuilder::new().has_headers(true).from_reader(data).into_records().map(
        |record| record.ok().map(|fields| fields.iter().map(String::from).collect()),
    ).collect()
}

/// The sample that a record holds: its first field as text and its second as
/// label. A record that could not be read, or has fewer than two fields, holds none.
pub open spec fn sample_of(record: Option<Seq<Seq<char>>>) -> Option<(Seq<char>, Seq<char>)> {
    match record {
        Some(fields) => if fields.len() >= 2 {
            Some((fields[0], fields[1]))
        } else {
            None
        },
        None => None,
    }
}

/// The model after the samples of all records, in order; records without a
/// sample are passed over.
pub open spec fn learned(model: Model, records: Seq<Option<Seq<Seq<char>>>>) -> Model
    decreases records.len(),
{
    if records.len() == 0 {
        model
    } else {
        let before = learned(model, records.drop_last());
        match sample_of(records.last()) {
            Some(sample) => observed(
                before,
                token_keys(words_of(segmentation(sample.0))),
                label_of(sample.1),
            ),
            None => before,
        }
    }
}

/// The sample counts after the samples of all records; the number of unique
/// tokens is left as it was.
pub open spec fn counted(stats: TrainingStats, records: Seq<Option<Seq<Seq<char>>>>) -> TrainingStats
    decreases records.len(),
{
    if records.len() == 0 {
        stats
    } else {
        let before = counted(stats, records.drop_last());
        match sample_of(records.last()) {
            Some(sample) => before.after_sample(
                label_of(sample.1),
                words_of(segmentation(sample.0)).len(),
            ),
            None => before,
        }
    }
}

/// Counts the samples of a list of records; a record without text and label is skipped.
pub fn train_records(trainer: &mut Trainer, records: &Vec<Option<Vec<String>>>)
    requires
        old(trainer).wf(),
    ensures
        final(trainer).wf(),
        entries_map(final(trainer)@) == learned(entries_map(old(trainer)@), records.deep_view()),
        final(trainer).stats_view() == (TrainingStats {
            unique_tokens: wrap32(final(trainer)@.len()),
            ..counted(old(trainer).stats_view(), records.deep_view())
        }),
{
    let ghost all = records.deep_view();
    let ghost start = entries_map(trainer@);
    let ghost start_stats = trainer.stats_view();
    let stats = trainer.stats();
    let mut i: usize = 0;
    assert(all.take(0) =~= Seq::empty());
    while i < records.len()
        invariant
            i <= records.len(),
            trainer.wf(),
            all == records.deep_view(),
            entries_map(trainer@) == learned(start, all.take(i as int)),
            trainer.stats_view() == (TrainingStats {
                unique_tokens: wrap32(trainer@.len()),
                ..counted(start_stats, all.take(i as int))
            }),
        decreases records.len() - i,
    {
        proof {
            assert(all.take(i + 1).drop_last() =~= all.take(i as int));
            assert(all.take(i + 1).last() == all[i as int]);
            assert(all[i as int] == records[i as int].deep_view());
        }
        match &records[i] {
            Some(fields) => {
                proof {
                    let plain = fields.deep_view();
                    assert(plain.len() == fields.len());
                    if fields.len() >= 2 {
                        assert(plain[0] == fields[0]@ && plain[1] == fields[1]@);
                    }
                }
                if fields.len() >= 2 {
                    trainer.train(fields[0].as_str(), fields[1].as_str());
                }
            },
            None => {},
        }
        i += 1;
    }
    assert(all.take(i as int) =~= all);
}

/// Why a training run produced no model.
#[derive(Debug, Clone, Copy, PartialEq, Eq, Structural)]
pub enum TrainError {
    /// The earlier model is not a sound store.
    CorruptModel(StoreError),
    /// The counted entries were not accepted for a store.
    Build(BuildError),
}

/// What a training run produced.
#[derive(Debug, Clone)]
pub struct TrainingOutcome {
    /// The blob of the new model.
    pub model: Vec<u8>,
    /// The counts of the run.
    pub training: TrainingStats,
    /// The totals of the new model, taken from the blob read back.
    pub model_stats: ClassifierStats,
}

/// The sample counts a run starts with on top of the given entries.
pub open spec fn starting_stats(entries: Seq<(Seq<u8>, Counter)>) -> TrainingStats {
    TrainingStats {
        total_samples: 0,
        spam_samples: 0,
        ham_samples: 0,
        total_tokens: wrap32(spam_sum(entries) + ham_sum(entries)),
        unique_tokens: wrap32(entries.len()),
    }
}

/// The entries a run starts from: none without an earlier model, else what
/// the earlier blob holds, and `None` where that blob is not a sound store.
pub open spec fn starting_entries(prior: Option<Vec<u8>>) -> Option<Seq<(Seq<u8>, Counter)>> {
    match prior {
        Some(blob) => decode(blob@),
        None => Some(Seq::empty()),
    }
}

/// `entries` is what a run over `dataset` leaves on top of `start`.
pub open spec fn is_trained(
    entries: Seq<(Seq<u8>, Counter)>,
    start: Seq<(Seq<u8>, Counter)>,
    dataset: Seq<u8>,
) -> bool {
    &&& strictly_ascending(keys_of(entries))
    &&& entries_map(entries) == learned(entries_map(start), csv_records(dataset))
}

/// One training run: loads the earlier model where there is one, counts the
/// samples of the dataset on top of it, builds and writes out the new model,
/// and reads it back for its totals.
///
/// The earlier model is read as `TokenStore::deserialize` reads a blob: damage
/// that its header, length or checksum shows is reported, and beyond that
/// it has to be a blob that an earlier run wrote.
pub fn train_dataset(prior: Option<Vec<u8>>, dataset: &[u8]) -> (r: Result<
    TrainingOutcome,
    TrainError,
>)
    requires
        prior matches Some(blob) ==> admissible(blob@),
    ensures
        r is Ok <==> starting_entries(prior) is Some,
        r matches Err(e) ==> prior matches Some(blob) && decode_error(blob@) matches Some(why)
            && e == TrainError::CorruptModel(why),
        r matches Ok(outcome) ==> {
            &&& admissible(outcome.model@)
            &&& decode(outcome.model@) matches Some(entries)
            &&& is_trained(entries, starting_entries(prior)->0, dataset@)
            &&& outcome.model_stats == ClassifierStats::of_entries(entries)
            &&& outcome.training == (TrainingStats {
                unique_tokens: wrap32(entries.len()),
                ..counted(starting_stats(starting_entries(prior)->0), csv_records(dataset@))
            })
        },
{
    let mut trainer = match prior {
        Some(blob) => match TokenStore::deserialize(blob) {
            Ok(store) => Trainer::from_store(&store),
            Err(e) => {
                return Err(TrainError::CorruptModel(e));
            },
        },
        None => Trainer::new(),
    };
    proof {
        assert(spam_sum(Seq::<(Seq<u8>, Counter)>::empty()) == 0);
        assert(ham_sum(Seq::<(Seq<u8>, Counter)>::empty()) == 0);
    }
    let records = read_records(dataset);
    train_records(&mut trainer, &records);
    let training = trainer.stats();
    match trainer.build() {
        Err(e) => Err(TrainError::Build(e)),
        Ok(store) => match store.reload() {
            Err(e) => Err(TrainError::CorruptModel(e)),
            Ok(reloaded) => {
                let model_stats = ClassifierStats::from_model(&reloaded);
                let model = reloaded.serialize();
                Ok(TrainingOutcome { model, training, model_stats })
            },
        },
    }
}

/// A first training run, with no earlier model to build on.
pub fn train_fresh(dataset: &[u8]) -> (r: Result<TrainingOutcome, TrainError>)
    ensures
        r matches Ok(outcome) && {
            &&& admissible(outcome.model@)
            &&& decode(outcome.model@) matches Some(entries)
            &&& is_trained(entries, Seq::empty(), dataset@)
            &&& outcome.model_stats == ClassifierStats::of_entries(entries)
            &&& outcome.training == (TrainingStats {
                unique_tokens: wrap32(entries.len()),
                ..counted(starting_stats(Seq::empty()), csv_records(dataset@))
            })
        },
{
    train_dataset(None, dataset)
}

/// How often `token` occurs in the samples of `records` that carry `label`.
pub open spec fn label_hits(records: Seq<Option<Seq<Seq<char>>>>, label: Label, token: Seq<u8>) -> nat
    decreases records.len(),
{
    if records.len() == 0 {
        0
    } else {
        label_hits(records.drop_last(), label, token) + match sample_of(records.last()) {
            Some(sample) => if label_of(sample.1) == label {
                hits(token_keys(words_of(segmentation(sample.0))), token)
            } else {
                0nat
            },
            None => 0nat,
        }
    }
}

/// `token` occurs in some sample of `records`, whatever its label.
pub open spec fn mentioned(records: Seq<Option<Seq<Seq<char>>>>, token: Seq<u8>) -> bool {
    label_hits(records, Label::Spam, token) + label_hits(records, Label::Ham, token) + label_hits(
        records,
        Label::Other,
        token,
    ) > 0
}

/// Training adds to what was there: after a run, the spam count of every
/// token is its count before plus its occurrences in spam samples, the ham
/// count likewise, each as 32 bits hold it; the tokens known are those known
/// before and those that occur in a sample.
pub proof fn lemma_learned_counts(model: Model, records: Seq<Option<Seq<Seq<char>>>>, token: Seq<u8>)
    ensures
        count_of(learned(model, records), token) == (Counter {
            spam: wrap32(count_of(model, token).spam as nat + label_hits(records, Label::Spam, token)),
            ham: wrap32(count_of(model, token).ham as nat + label_hits(records, Label::Ham, token)),
        }),
        learned(model, records).dom().contains(token) <==> model.dom().contains(token)
            || mentioned(records, token),
    decreases records.len(),
{
    if records.len() > 0 {
        let earlier = records.drop_last();
        let before = learned(model, earlier);
        lemma_learned_counts(model, earlier, token);
        match sample_of(records.last()) {
            Some(sample) => {
                let tokens = token_keys(words_of(segmentation(sample.0)));
                let label = label_of(sample.1);
                let n = hits(tokens, token);
                lemma_observed_counts(before, tokens, label, token);
                assert(learned(model, records) == observed(before, tokens, label));
                let start = count_of(model, token);
                let spam_before = label_hits(earlier, Label::Spam, token);
                let ham_before = label_hits(earlier, Label::Ham, token);
                lemma_wrap32_add(start.spam as nat + spam_before, n);
                lemma_wrap32_add(start.ham as nat + ham_before, n);
                match label {
                    Label::Spam => {
                        assert(label_hits(records, Label::Spam, token) == spam_before + n);
                        assert(label_hits(records, Label::Ham, token) == ham_before);
                    },
                    Label::Ham => {
                        assert(label_hits(records, Label::Spam, token) == spam_before);
                        assert(label_hits(records, Label::Ham, token) == ham_before + n);
                    },
                    Label::Other => {
                        assert(label_hits(records, Label::Spam, token) == spam_before);
                        assert(label_hits(records, Label::Ham, token) == ham_before);
                    },
                }
            },
            None => {},
        }
    }
}

/// Training once more on the same data doubles the counts: for a token whose
/// doubled counts fit in 32 bits, a run on top of the model that the same
/// records gave from nothing leaves exactly twice the spam and twice the ham
/// count, and makes no token known that was not known before.
pub proof fn lemma_retraining_doubles(records: Seq<Option<Seq<Seq<char>>>>, token: Seq<u8>)
    requires
        2 * label_hits(records, Label::Spam, token) <= u32::MAX,
        2 * label_hits(records, Label::Ham, token) <= u32::MAX,
    ensures
        ({
            let once = learned(Map::empty(), records);
            let twice = learned(once, records);
            &&& count_of(once, token).spam == label_hits(records, Label::Spam, token)
            &&& count_of(once, token).ham == label_hits(records, Label::Ham, token)
            &&& count_of(twice, token).spam == 2 * count_of(once, token).spam
            &&& count_of(twice, token).ham == 2 * count_of(once, token).ham
            &&& twice.dom().contains(token) == once.dom().contains(token)
        }),
{
    let once = learned(Map::empty(), records);
    lemma_learned_counts(Map::empty(), records, token);
    lemma_learned_counts(once, records, token);
}

} // verus!

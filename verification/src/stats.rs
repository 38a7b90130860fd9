//! Totals over a token store: how many spam and ham occurrences it holds and
//! how many tokens it knows.

use vstd::prelude::*;
use crate::counter::Counter;
use crate::order::strictly_ascending;
use crate::order::lemma_lex_lt_irreflexive;
use crate::store::TokenStore;
use crate::store::TokenEntry;
use crate::store::entries_view;
use crate::store::keys_of;

verus! {

/// Sum of the spam counts of all entries.
pub open spec fn spam_sum(entries: Seq<(Seq<u8>, Counter)>) -> nat
    decreases entries.len(),
{
    if entries.len() == 0 {
        0
    } else {
        spam_sum(entries.drop_last()) + entries.last().1.spam as nat
    }
}

/// Sum of the ham counts of all entries.
pub open spec fn ham_sum(entries: Seq<(Seq<u8>, Counter)>) -> nat
    decreases entries.len(),
{
    if entries.len() == 0 {
        0
    } else {
        ham_sum(entries.drop_last()) + entries.last().1.ham as nat
    }
}

/// A count as 32 bits hold it: totals beyond `u32::MAX` wrap around.
pub open spec fn wrap32(n: nat) -> u32 {
    (n % 0x1_0000_0000) as u32
}

/// Wrapping a sum is the same whether or not its first part was wrapped before.
pub proof fn lemma_wrap32_add(a: nat, n: nat)
    ensures
        ((wrap32(a) + n) % 0x1_0000_0000) as u32 == wrap32(a + n),
        wrap32(wrap32(a) as nat + n) == wrap32(a + n),
{
    vstd::arithmetic::div_mod::lemma_add_mod_noop_right(n as int, a as int, 0x1_0000_0000);
}

/// Totals of a model.
#[derive(Debug, Clone, Copy, PartialEq, Eq, Structural)]
pub struct ClassifierStats {
    pub total_spam: u32,
    pub total_ham: u32,
    pub total_tokens: u32,
    pub unique_tokens: u32,
}

impl ClassifierStats {
    /// The totals of a list of entries, each held in 32 bits.
    pub open spec fn of_entries(entries: Seq<(Seq<u8>, Counter)>) -> ClassifierStats {
        ClassifierStats {
            total_spam: wrap32(spam_sum(entries)),
            total_ham: wrap32(ham_sum(entries)),
            total_tokens: wrap32(spam_sum(entries) + ham_sum(entries)),
            unique_tokens: wrap32(entries.len()),
        }
    }

    /// The prior odds of spam as numerator and denominator: spam occurrences
    /// over all occurrences, and one half where nothing was counted.
    pub open spec fn prior(self) -> (u32, u32) {
        if self.total_tokens == 0 {
            (1, 2)
        } else {
            (self.total_spam, self.total_tokens)
        }
    }

    /// The totals of a model without data.
    pub fn new() -> (stats: ClassifierStats)
        ensures
            stats == ClassifierStats::of_entries(Seq::empty()),
            stats.total_spam == 0 && stats.total_ham == 0 && stats.total_tokens == 0
                && stats.unique_tokens == 0,
    {
        ClassifierStats { total_spam: 0, total_ham: 0, total_tokens: 0, unique_tokens: 0 }
    }

    /// Scans a store once and adds up its counters.
    pub fn from_model(model: &TokenStore) -> (stats: ClassifierStats)
        ensures
            stats == ClassifierStats::of_entries(model@),
    {
        let entries = model.iterate();
        ClassifierStats::from_entries(&entries)
    }

    /// Adds up the counters of a list of entries.
    pub fn from_entries(entries: &Vec<TokenEntry>) -> (stats: ClassifierStats)
        ensures
            stats == ClassifierStats::of_entries(entries_view(entries@)),
    {
        let ghost all = entries_view(entries@);
        let mut stats = ClassifierStats::new();
        let mut i: usize = 0;
        while i < entries.len()
            invariant
                i <= entries.len(),
                all == entries_view(entries@),
                stats.total_spam == wrap32(spam_sum(all.take(i as int))),
                stats.total_ham == wrap32(ham_sum(all.take(i as int))),
                stats.unique_tokens == wrap32(i as nat),
            decreases entries.len() - i,
        {
            let counter = entries[i].counter;
            proof {
                assert(all.take(i + 1).drop_last() =~= all.take(i as int));
                assert(all.take(i + 1).last() == all[i as int]);
                assert(all[i as int].1 == counter);
            }
            stats.total_spam = stats.total_spam.wrapping_add(counter.spam);
            stats.total_ham = stats.total_ham.wrapping_add(counter.ham);
            stats.unique_tokens = stats.unique_tokens.wrapping_add(1);
            i += 1;
        }
        assert(all.take(i as int) =~= all);
        stats.total_tokens = stats.total_spam.wrapping_add(stats.total_ham);
        stats
    }

    /// The prior odds of spam as numerator and denominator.
    pub fn prior_ratio(&self) -> (ratio: (u32, u32))
        ensures
            ratio == self.prior(),
            ratio.1 != 0,
            self.total_tokens == 0 ==> ratio == (1u32, 2u32),
    {
        if self.total_tokens == 0 {
            (1, 2)
        } else {
            (self.total_spam, self.total_tokens)
        }
    }
}

impl Default for ClassifierStats {
    fn default() -> (stats: ClassifierStats)
        ensures
            stats == ClassifierStats::of_entries(Seq::empty()),
    {
        ClassifierStats::new()
    }
}

/// Where the occurrences of a store fit in 32 bits, its totals are exact:
/// all occurrences are the spam and the ham occurrences together, and a
/// store without occurrences has the prior of one half.
pub proof fn lemma_stats_exact(entries: Seq<(Seq<u8>, Counter)>)
    requires
        spam_sum(entries) + ham_sum(entries) <= u32::MAX,
    ensures
        ClassifierStats::of_entries(entries).total_spam == spam_sum(entries),
        ClassifierStats::of_entries(entries).total_ham == ham_sum(entries),
        ClassifierStats::of_entries(entries).total_tokens == ClassifierStats::of_entries(
            entries,
        ).total_spam + ClassifierStats::of_entries(entries).total_ham,
        ClassifierStats::of_entries(entries).total_tokens == 0 ==> ClassifierStats::of_entries(
            entries,
        ).prior() == (1u32, 2u32),
{
}

/// The number of unique tokens is the number of distinct keys of the store,
/// as long as that number fits in 32 bits.
pub proof fn lemma_unique_tokens_exact(entries: Seq<(Seq<u8>, Counter)>)
    requires
        strictly_ascending(keys_of(entries)),
        entries.len() <= u32::MAX,
    ensures
        ClassifierStats::of_entries(entries).unique_tokens == keys_of(entries).to_set().len(),
{
    lemma_ascending_distinct(keys_of(entries));
    keys_of(entries).unique_seq_to_set();
}

/// Whatever the size of a store, its totals agree modulo 2^32: the count of
/// all occurrences is the wrapped sum of the spam and ham totals.
pub proof fn lemma_stats_wrapped(entries: Seq<(Seq<u8>, Counter)>)
    ensures
        ClassifierStats::of_entries(entries).total_tokens == wrap32(
            (ClassifierStats::of_entries(entries).total_spam + ClassifierStats::of_entries(
                entries,
            ).total_ham) as nat,
        ),
{
}

/// Strictly ascending keys are pairwise distinct.
pub proof fn lemma_ascending_distinct(keys: Seq<Seq<u8>>)
    requires
        strictly_ascending(keys),
    ensures
        keys.no_duplicates(),
{
    assert forall|i: int, j: int| 0 <= i < keys.len() && 0 <= j < keys.len() && i != j implies keys[i]
        != keys[j] by {
        lemma_lex_lt_irreflexive(keys[i]);
        if i < j {
            assert(crate::order::lex_lt(keys[i], keys[j]));
        } else {
            assert(crate::order::lex_lt(keys[j], keys[i]));
        }
    }
}

} // verus!

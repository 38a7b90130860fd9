//! The map from tokens to counters that a list of entries stands for, and
//! how that map changes when a token is counted.

use vstd::prelude::*;
use crate::counter::Counter;
use crate::order::lex_lt;
use crate::order::strictly_ascending;
use crate::order::lemma_lex_lt_irreflexive;
use crate::store::keys_of;
use crate::store::lookup;
use crate::store::position;
use crate::store::token_index;
use crate::store::has_token;

verus! {

/// The class a training sample is labelled with.
#[derive(Debug, Clone, Copy, PartialEq, Eq, Structural)]
pub enum Label {
    Spam,
    Ham,
    /// Any label but `spam` and `ham`: the sample's tokens become known and count for neither class.
    Other,
}

/// A model as a map: the counter of every known token.
pub type Model = Map<Seq<u8>, Counter>;

/// The map that a list of entries stands for.
pub open spec fn entries_map(entries: Seq<(Seq<u8>, Counter)>) -> Model {
    Map::new(
        |key: Seq<u8>| position(entries, key) is Some,
        |key: Seq<u8>| entries[position(entries, key)->0].1,
    )
}

/// The counter of a token in a model; zero for a token it does not know.
pub open spec fn count_of(model: Model, token: Seq<u8>) -> Counter {
    if model.dom().contains(token) {
        model[token]
    } else {
        Counter { spam: 0, ham: 0 }
    }
}

/// A count one higher, as 32 bits hold it: after `u32::MAX` comes zero.
pub open spec fn next_count(n: u32) -> u32 {
    if n == u32::MAX {
        0
    } else {
        (n + 1) as u32
    }
}

/// The counter after one more occurrence under `label`.
pub open spec fn bumped(counter: Counter, label: Label) -> Counter {
    match label {
        Label::Spam => Counter { spam: next_count(counter.spam), ham: counter.ham },
        Label::Ham => Counter { spam: counter.spam, ham: next_count(counter.ham) },
        Label::Other => counter,
    }
}

/// The model after one occurrence of `token` in a sample labelled `label`.
pub open spec fn recorded(model: Model, token: Seq<u8>, label: Label) -> Model {
    model.insert(token, bumped(count_of(model, token), label))
}

/// The model after all tokens of one sample, taken left to right.
pub open spec fn observed(model: Model, tokens: Seq<Seq<u8>>, label: Label) -> Model
    decreases tokens.len(),
{
    if tokens.len() == 0 {
        model
    } else {
        recorded(observed(model, tokens.drop_last(), label), tokens.last(), label)
    }
}

/// Counts one more occurrence under `label`.
pub fn bump(counter: Counter, label: Label) -> (r: Counter)
    ensures
        r == bumped(counter, label),
{
    match label {
        Label::Spam => Counter { spam: counter.spam.wrapping_add(1), ham: counter.ham },
        Label::Ham => Counter { spam: counter.spam, ham: counter.ham.wrapping_add(1) },
        Label::Other => counter,
    }
}

/// In a list with strictly ascending tokens, an entry is found under its token.
pub proof fn lemma_lookup_at(entries: Seq<(Seq<u8>, Counter)>, i: int)
    requires
        strictly_ascending(keys_of(entries)),
        0 <= i < entries.len(),
    ensures
        position(entries, entries[i].0) == Some(i),
        lookup(entries, entries[i].0) == Some(entries[i].1),
        entries_map(entries).dom().contains(entries[i].0),
        entries_map(entries)[entries[i].0] == entries[i].1,
{
    let key = entries[i].0;
    assert(0 <= i < entries.len() && entries[i].0 == key);
    let j = token_index(entries, key);
    lemma_lex_lt_irreflexive(key);
    let keys = keys_of(entries);
    assert(keys[i] == key && keys[j] == key);
    if j < i {
        assert(lex_lt(keys[j], keys[i]));
    } else if i < j {
        assert(lex_lt(keys[i], keys[j]));
    }
}

/// Replacing the counter of one entry replaces it in the map and keeps the order.
pub proof fn lemma_map_update(entries: Seq<(Seq<u8>, Counter)>, i: int, counter: Counter)
    requires
        strictly_ascending(keys_of(entries)),
        0 <= i < entries.len(),
    ensures
        strictly_ascending(keys_of(entries.update(i, (entries[i].0, counter)))),
        entries_map(entries.update(i, (entries[i].0, counter))) == entries_map(entries).insert(
            entries[i].0,
            counter,
        ),
{
    let after = entries.update(i, (entries[i].0, counter));
    let expected = entries_map(entries).insert(entries[i].0, counter);
    assert(keys_of(after) =~= keys_of(entries));
    lemma_lookup_at(entries, i);
    lemma_lookup_at(after, i);
    assert forall|key: Seq<u8>| #[trigger]
        entries_map(after).dom().contains(key) == expected.dom().contains(key) by {
        if has_token(entries, key) {
            let j = token_index(entries, key);
            assert(after[j].0 == key);
        } else if has_token(after, key) {
            let j = token_index(after, key);
            assert(entries[j].0 == key);
        }
    }
    assert forall|key: Seq<u8>| entries_map(after).dom().contains(key) implies #[trigger]
        entries_map(after)[key] == expected[key] by {
        let j = token_index(after, key);
        lemma_lookup_at(after, j);
        lemma_lookup_at(entries, j);
    }
    assert(entries_map(after) =~= expected);
}

/// Putting a new token at its place in the order adds it to the map and keeps the order.
pub proof fn lemma_map_insert(
    entries: Seq<(Seq<u8>, Counter)>,
    i: int,
    token: Seq<u8>,
    counter: Counter,
)
    requires
        strictly_ascending(keys_of(entries)),
        0 <= i <= entries.len(),
        forall|j: int| 0 <= j < i ==> lex_lt(#[trigger] keys_of(entries)[j], token),
        forall|j: int| i <= j < entries.len() ==> lex_lt(token, #[trigger] keys_of(entries)[j]),
    ensures
        !entries_map(entries).dom().contains(token),
        strictly_ascending(keys_of(entries.insert(i, (token, counter)))),
        entries_map(entries.insert(i, (token, counter))) == entries_map(entries).insert(
            token,
            counter,
        ),
{
    let after = entries.insert(i, (token, counter));
    let keys = keys_of(entries);
    lemma_lex_lt_irreflexive(token);
    assert forall|a: int, b: int| 0 <= a < b < after.len() implies lex_lt(
        #[trigger] keys_of(after)[a],
        #[trigger] keys_of(after)[b],
    ) by {
        let a0 = if a < i { a } else { a - 1 };
        let b0 = if b < i { b } else { b - 1 };
        if a == i {
            assert(keys_of(after)[b] == keys[b0]);
        } else if b == i {
            assert(keys_of(after)[a] == keys[a0]);
        } else {
            assert(keys_of(after)[a] == keys[a0] && keys_of(after)[b] == keys[b0]);
            assert(lex_lt(keys[a0], keys[b0]));
        }
    }
    let expected = entries_map(entries).insert(token, counter);
    if has_token(entries, token) {
        let j = token_index(entries, token);
        assert(keys[j] == token);
    }
    assert(after[i].0 == token);
    lemma_lookup_at(after, i);
    assert forall|key: Seq<u8>| #[trigger]
        entries_map(after).dom().contains(key) == expected.dom().contains(key) by {
        if key == token {
        } else if has_token(entries, key) {
            let j = token_index(entries, key);
            let j1 = if j < i { j } else { j + 1 };
            assert(after[j1] == entries[j]);
        } else if has_token(after, key) {
            let j = token_index(after, key);
            let j0 = if j < i { j } else { j - 1 };
            assert(entries[j0].0 == key);
        }
    }
    assert forall|key: Seq<u8>| entries_map(after).dom().contains(key) implies #[trigger]
        entries_map(after)[key] == expected[key] by {
        let j = token_index(after, key);
        lemma_lookup_at(after, j);
        if j != i {
            let j0 = if j < i { j } else { j - 1 };
            assert(entries[j0] == after[j]);
            lemma_lookup_at(entries, j0);
        }
    }
    assert(entries_map(after) =~= expected);
}

/// How often `token` occurs among `tokens`.
pub open spec fn hits(tokens: Seq<Seq<u8>>, token: Seq<u8>) -> nat
    decreases tokens.len(),
{
    if tokens.len() == 0 {
        0
    } else {
        hits(tokens.drop_last(), token) + if tokens.last() == token {
            1nat
        } else {
            0nat
        }
    }
}

/// The counter after `n` more occurrences under `label`, as 32 bits hold it.
pub open spec fn raised(counter: Counter, label: Label, n: nat) -> Counter {
    match label {
        Label::Spam => Counter {
            spam: ((counter.spam + n) % 0x1_0000_0000) as u32,
            ham: counter.ham,
        },
        Label::Ham => Counter {
            spam: counter.spam,
            ham: ((counter.ham + n) % 0x1_0000_0000) as u32,
        },
        Label::Other => counter,
    }
}

/// One sample raises the counter of every token by the number of its
/// occurrences in the sample, under the sample's label; a token is known
/// afterwards if it was known before or occurs in the sample.
pub proof fn lemma_observed_counts(model: Model, tokens: Seq<Seq<u8>>, label: Label, token: Seq<u8>)
    ensures
        count_of(observed(model, tokens, label), token) == raised(
            count_of(model, token),
            label,
            hits(tokens, token),
        ),
        observed(model, tokens, label).dom().contains(token) <==> model.dom().contains(token)
            || hits(tokens, token) > 0,
    decreases tokens.len(),
{
    if tokens.len() > 0 {
        lemma_observed_counts(model, tokens.drop_last(), label, token);
    }
}

} // verus!

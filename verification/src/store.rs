//! The token store: an immutable map from tokens to counters, kept in
//! ascending byte order and held as one contiguous blob.

use vstd::prelude::*;
use crate::counter::Counter;
use crate::counter::lemma_unpack_pack;
use crate::order::strictly_ascending;
use crate::order::lex_lt;
use crate::order::compare_bytes;
use crate::order::Relation;
use crate::order::lemma_lex_lt_transitive;
use crate::model::lemma_lookup_at;
use vstd::slice::slice_to_vec;

verus! {

/// `fst::Map`, the ordered map behind a store; nothing of its inside is read here.
#[verifier::external_type_specification]
#[verifier::external_body]
#[verifier::reject_recursive_types(D)]
pub struct ExFstMap<D>(fst::Map<D>);

/// `fst::Error`, carried from a failed call to the place that names the failure.
#[verifier::external_type_specification]
#[verifier::external_body]
pub struct ExFstError(fst::Error);

/// The bytes that a map was opened on or built into.
pub uninterp spec fn map_blob(map: fst::Map<Vec<u8>>) -> Seq<u8>;

/// Whether `fst::Map::new` accepts a blob.
pub uninterp spec fn blob_opens(blob: Seq<u8>) -> bool;

/// Whether the checksum stored in a blob matches its contents.
pub uninterp spec fn blob_checksum_ok(blob: Seq<u8>) -> bool;

/// The blob that the in-memory builder writes for key-value pairs given in
/// strictly ascending order of their keys.
pub uninterp spec fn built_blob(pairs: Seq<(Seq<u8>, u64)>) -> Seq<u8>;

/// The keys of a list of pairs, in order.
pub open spec fn pair_keys(pairs: Seq<(Seq<u8>, u64)>) -> Seq<Seq<u8>> {
    pairs.map_values(|p: (Seq<u8>, u64)| p.0)
}

/// `blob` is what the builder writes for `pairs`, and `pairs` are such as it accepts.
pub open spec fn builds(pairs: Seq<(Seq<u8>, u64)>, blob: Seq<u8>) -> bool {
    strictly_ascending(pair_keys(pairs)) && built_blob(pairs) == blob
}

/// The blob is one that the builder wrote.
pub open spec fn is_built(blob: Seq<u8>) -> bool {
    exists|pairs: Seq<(Seq<u8>, u64)>| #[trigger] builds(pairs, blob)
}

/// The pairs that a blob was built from.
pub open spec fn blob_pairs(blob: Seq<u8>) -> Seq<(Seq<u8>, u64)> {
    choose|pairs: Seq<(Seq<u8>, u64)>| #[trigger] builds(pairs, blob)
}

/// What a reader of blobs has to take on trust: the encoder looks at a
/// blob's header, its length and its checksum and reads the rest as it
/// stands, so a blob that passes these must be one that the builder wrote.
/// A blob shorter than the 36 bytes of header and trailer passes none.
pub open spec fn admissible(blob: Seq<u8>) -> bool {
    blob.len() >= 36 && addresses_fit(blob) && blob_opens(blob) && blob_checksum_ok(blob)
        ==> is_built(blob)
}

/// Some pair carries the key `key`.
pub open spec fn has_pair(pairs: Seq<(Seq<u8>, u64)>, key: Seq<u8>) -> bool {
    exists|i: int| 0 <= i < pairs.len() && (#[trigger] pairs[i]).0 == key
}

/// A position at which `pairs` carry the key `key`, where there is one.
pub open spec fn pair_index(pairs: Seq<(Seq<u8>, u64)>, key: Seq<u8>) -> int {
    choose|i: int| 0 <= i < pairs.len() && (#[trigger] pairs[i]).0 == key
}

/// The value that `pairs` hold under `key`, if any.
pub open spec fn pair_value(pairs: Seq<(Seq<u8>, u64)>, key: Seq<u8>) -> Option<u64> {
    if has_pair(pairs, key) {
        Some(pairs[pair_index(pairs, key)].1)
    } else {
        None
    }
}

/// One token with its counter.
#[derive(Debug, Clone)]
pub struct TokenEntry {
    pub token: Vec<u8>,
    pub counter: Counter,
}

impl View for TokenEntry {
    type V = (Seq<u8>, Counter);

    open spec fn view(&self) -> (Seq<u8>, Counter) {
        (self.token@, self.counter)
    }
}

/// The entries of a vector as plain values.
pub open spec fn entries_view(entries: Seq<TokenEntry>) -> Seq<(Seq<u8>, Counter)> {
    entries.map_values(|e: TokenEntry| e@)
}

/// The tokens of a list of entries, in order.
pub open spec fn keys_of(entries: Seq<(Seq<u8>, Counter)>) -> Seq<Seq<u8>> {
    entries.map_values(|e: (Seq<u8>, Counter)| e.0)
}

/// Raw pairs read as entries: each value unpacked into its counter.
pub open spec fn unpack_pairs(pairs: Seq<(Seq<u8>, u64)>) -> Seq<(Seq<u8>, Counter)> {
    pairs.map_values(|p: (Seq<u8>, u64)| (p.0, Counter::unpacked(p.1)))
}

/// Entries as raw pairs: each counter packed into one value.
pub open spec fn pack_entries(entries: Seq<(Seq<u8>, Counter)>) -> Seq<(Seq<u8>, u64)> {
    entries.map_values(|e: (Seq<u8>, Counter)| (e.0, e.1.packed() as u64))
}

/// Some entry carries the token `key`.
pub open spec fn has_token(entries: Seq<(Seq<u8>, Counter)>, key: Seq<u8>) -> bool {
    exists|i: int| 0 <= i < entries.len() && (#[trigger] entries[i]).0 == key
}

/// A position at which `entries` carries the token `key`, where there is one.
pub open spec fn token_index(entries: Seq<(Seq<u8>, Counter)>, key: Seq<u8>) -> int {
    choose|i: int| 0 <= i < entries.len() && (#[trigger] entries[i]).0 == key
}

/// The position of `key` among `entries`, if it is there.
pub open spec fn position(entries: Seq<(Seq<u8>, Counter)>, key: Seq<u8>) -> Option<int> {
    if has_token(entries, key) {
        Some(token_index(entries, key))
    } else {
        None
    }
}

/// The counter stored under `key`, if any.
pub open spec fn lookup(entries: Seq<(Seq<u8>, Counter)>, key: Seq<u8>) -> Option<Counter> {
    match position(entries, key) {
        Some(i) => Some(entries[i].1),
        None => None,
    }
}

/// The number that eight bytes from `at` on stand for, lowest byte first.
pub open spec fn le_u64(bytes: Seq<u8>, at: int) -> int {
    bytes[at] + bytes[at + 1] * 0x100 + bytes[at + 2] * 0x1_0000 + bytes[at + 3] * 0x100_0000
        + bytes[at + 4] * 0x1_0000_0000 + bytes[at + 5] * 0x100_0000_0000 + bytes[at + 6]
        * 0x1_0000_0000_0000 + bytes[at + 7] * 0x100_0000_0000_0000
}

/// Where the trailer of a blob ends: before the checksum, which blobs have from version 3 on.
pub open spec fn trailer_end(blob: Seq<u8>) -> int {
    if le_u64(blob, 0) <= 2 {
        blob.len() as int
    } else {
        blob.len() - 4
    }
}

/// The two addresses in the trailer of a blob are such as the machine can
/// hold. Only a blob long enough, and of a version that is read, has a
/// trailer that is looked at.
pub open spec fn addresses_fit(blob: Seq<u8>) -> bool {
    blob.len() >= 36 && 1 <= le_u64(blob, 0) <= 3 ==> le_u64(blob, trailer_end(blob) - 8)
        <= usize::MAX && le_u64(blob, trailer_end(blob) - 16) <= usize::MAX
}

/// Reads eight bytes as a number, lowest byte first.
pub fn read_le_u64(bytes: &[u8], at: usize) -> (value: u64)
    requires
        at + 8 <= bytes.len(),
    ensures
        value == le_u64(bytes@, at as int),
{
    let low: u64 = bytes[at] as u64 + bytes[at + 1] as u64 * 0x100 + bytes[at + 2] as u64
        * 0x1_0000 + bytes[at + 3] as u64 * 0x100_0000;
    let high: u64 = bytes[at + 4] as u64 + bytes[at + 5] as u64 * 0x100 + bytes[at + 6] as u64
        * 0x1_0000 + bytes[at + 7] as u64 * 0x100_0000;
    low + high * 0x1_0000_0000
}

/// Tests whether the addresses in the trailer of a blob fit the machine.
pub fn check_addresses(blob: &[u8]) -> (fit: bool)
    ensures
        fit == addresses_fit(blob@),
{
    if blob.len() < 36 {
        return true;
    }
    let version = read_le_u64(blob, 0);
    if version == 0 || version > 3 {
        return true;
    }
    let end: usize = if version <= 2 {
        blob.len()
    } else {
        blob.len() - 4
    };
    let root = read_le_u64(blob, end - 8);
    let count = read_le_u64(blob, end - 16);
    root <= usize::MAX as u64 && count <= usize::MAX as u64
}

/// Why a blob is not a store, if it is none: the first of the two checks that it fails.
pub open spec fn decode_error(blob: Seq<u8>) -> Option<StoreError> {
    if !addresses_fit(blob) || !blob_opens(blob) {
        Some(StoreError::Malformed)
    } else if !blob_checksum_ok(blob) {
        Some(StoreError::Checksum)
    } else {
        None
    }
}

/// What a blob holds: the entries it was built from, in stored order, and
/// `None` where the blob does not open or its checksum fails.
pub open spec fn decode(blob: Seq<u8>) -> Option<Seq<(Seq<u8>, Counter)>> {
    if decode_error(blob) is None {
        Some(unpack_pairs(blob_pairs(blob)))
    } else {
        None
    }
}

/// Calls `fst::Map::new`, which reads the header and trailer of the blob.
/// Claimed: it succeeds on exactly the blobs named by `blob_opens`, none of
/// them shorter than the 36 bytes of header and trailer, and the map it
/// returns is the one over the given bytes. Left out: a blob whose stored
/// addresses the machine cannot hold.
#[verifier::external_body]
fn map_open(data: Vec<u8>) -> (r: Result<fst::Map<Vec<u8>>, fst::Error>)
    requires
        addresses_fit(data@),
    ensures
        r is Ok <==> blob_opens(data@),
        r is Ok ==> data@.len() >= 36,
        r matches Ok(map) ==> map_blob(map) == data@,
{
    fst::Map::new(data)
}

/// Calls `fst::raw::Fst::verify`, which recomputes the checksum over the
/// whole blob. Claimed: it succeeds exactly where the blob carries a
/// checksum and the checksum matches.
#[verifier::external_body]
fn map_verify(map: &fst::Map<Vec<u8>>) -> (r: Result<(), fst::Error>)
    requires
        blob_opens(map_blob(*map)),
    ensures
        r is Ok <==> blob_checksum_ok(map_blob(*map)),
{
    map.as_fst().verify()
}

/// Calls `fst::Map::get` on a map over a blob that the builder wrote.
/// Claimed: the value that the pairs it was built from hold under the key,
/// or `None` where none of them has the key.
#[verifier::external_body]
fn map_get(map: &fst::Map<Vec<u8>>, key: &[u8]) -> (r: Option<u64>)
    requires
        is_built(map_blob(*map)),
    ensures
        forall|pairs: Seq<(Seq<u8>, u64)>| #[trigger]
            builds(pairs, map_blob(*map)) ==> r == pair_value(pairs, key@),
{
    map.get(key)
}

/// Calls `fst::Map::stream` and `into_byte_vec` on it, on a map over a blob
/// that the builder wrote. Claimed: the pairs it was built from, in their order.
#[verifier::external_body]
fn map_pairs(map: &fst::Map<Vec<u8>>) -> (r: Vec<(Vec<u8>, u64)>)
    requires
        is_built(map_blob(*map)),
    ensures
        forall|pairs: Seq<(Seq<u8>, u64)>| #[trigger]
            builds(pairs, map_blob(*map)) ==> r.deep_view() == pairs,
{
    map.stream().into_byte_vec()
}

/// Calls `fst::raw::Fst::as_bytes`. Claimed: the bytes the map stands on.
#[verifier::external_body]
fn map_bytes(map: &fst::Map<Vec<u8>>) -> (r: Vec<u8>)
    ensures
        r@ == map_blob(*map),
{
    map.as_fst().as_bytes().to_vec()
}

/// Calls `fst::Map::from_iter`, which feeds an in-memory builder and opens
/// what it wrote. Claimed: it fails exactly where a key is not after the one
/// before it; the blob it writes is the built blob of the pairs it was
/// given and of no other pairs, its addresses fit the machine that wrote
/// it, it opens, and it carries a matching checksum.
#[verifier::external_body]
fn map_from_entries(entries: &Vec<TokenEntry>) -> (r: Result<fst::Map<Vec<u8>>, fst::Error>)
    ensures
        r is Ok <==> strictly_ascending(keys_of(entries_view(entries@))),
        r matches Ok(map) ==> map_blob(map) == built_blob(pack_entries(entries_view(entries@)))
            && addresses_fit(map_blob(map)) && blob_opens(map_blob(map)) && blob_checksum_ok(
            map_blob(map),
        ),
        r matches Ok(map) ==> forall|pairs: Seq<(Seq<u8>, u64)>| #[trigger]
            builds(pairs, map_blob(map)) ==> pairs == pack_entries(entries_view(entries@)),
{
    fst::Map::from_iter(entries.iter().map(|e| (e.token.as_slice(), e.counter.to_u64())))
}

/// Why a blob was not accepted as a store.
#[derive(Debug, Clone, Copy, PartialEq, Eq, Structural)]
pub enum StoreError {
    /// The blob is truncated, or its header or trailer is not that of a store.
    Malformed,
    /// The blob carries no checksum, or one that does not match its contents.
    Checksum,
}

/// Why a list of entries was not accepted for a store.
#[derive(Debug, Clone, Copy, PartialEq, Eq, Structural)]
pub enum BuildError {
    /// The token at `index` comes before the token in front of it.
    OutOfOrder { index: usize },
    /// The token at `index` equals the token in front of it.
    DuplicateKey { index: usize },
    /// The encoder refused entries that are in order; it does not, as far as its code shows.
    Refused,
}

/// The first position whose token is not after the token in front of it,
/// with the error that names it; `None` where the tokens are strictly ascending.
pub open spec fn first_disorder(keys: Seq<Seq<u8>>) -> Option<BuildError> {
    if strictly_ascending(keys) {
        None
    } else {
        let index = choose|i: int| is_first_disorder(keys, i);
        if keys[index - 1] == keys[index] {
            Some(BuildError::DuplicateKey { index: index as usize })
        } else {
            Some(BuildError::OutOfOrder { index: index as usize })
        }
    }
}

/// All tokens before `index` are strictly ascending, and the one at `index`
/// is not after its predecessor.
pub open spec fn is_first_disorder(keys: Seq<Seq<u8>>, index: int) -> bool {
    &&& 0 < index < keys.len()
    &&& strictly_ascending(keys.take(index))
    &&& !lex_lt(keys[index - 1], keys[index])
}

/// At most one position is the first disorder.
pub proof fn lemma_first_disorder_unique(keys: Seq<Seq<u8>>, i: int, j: int)
    requires
        is_first_disorder(keys, i),
        is_first_disorder(keys, j),
    ensures
        i == j,
{
    if i < j {
        assert(keys.take(j)[i - 1] == keys[i - 1] && keys.take(j)[i] == keys[i]);
    } else if j < i {
        assert(keys.take(i)[j - 1] == keys[j - 1] && keys.take(i)[j] == keys[j]);
    }
}

/// Looks for the first token that is not after the token in front of it.
pub fn find_disorder(entries: &Vec<TokenEntry>) -> (r: Option<BuildError>)
    ensures
        r == first_disorder(keys_of(entries_view(entries@))),
{
    let ghost keys = keys_of(entries_view(entries@));
    if entries.len() < 2 {
        return None;
    }
    let mut i: usize = 1;
    while i < entries.len()
        invariant
            1 <= i <= entries.len(),
            keys == keys_of(entries_view(entries@)),
            keys.len() == entries.len(),
            strictly_ascending(keys.take(i as int)),
        decreases entries.len() - i,
    {
        let relation = compare_bytes(entries[i - 1].token.as_slice(), entries[i].token.as_slice());
        assert(keys[i - 1] == entries[i - 1].token@ && keys[i as int] == entries[i as int].token@);
        if relation != Relation::Before {
            proof {
                assert(is_first_disorder(keys, i as int));
                assert(!strictly_ascending(keys));
                let index = choose|k: int| is_first_disorder(keys, k);
                lemma_first_disorder_unique(keys, i as int, index);
            }
            if relation == Relation::Same {
                return Some(BuildError::DuplicateKey { index: i });
            } else {
                return Some(BuildError::OutOfOrder { index: i });
            }
        }
        proof {
            let next = keys.take(i + 1);
            assert forall|a: int, b: int| 0 <= a < b < next.len() implies lex_lt(
                #[trigger] next[a],
                #[trigger] next[b],
            ) by {
                if b < i {
                    assert(keys.take(i as int)[a] == next[a] && keys.take(i as int)[b] == next[b]);
                } else if a < i - 1 {
                    assert(keys.take(i as int)[a] == next[a] && keys.take(i as int)[i - 1]
                        == keys[i - 1]);
                    lemma_lex_lt_transitive(next[a], keys[i - 1], next[b]);
                }
            }
        }
        i += 1;
    }
    assert(keys.take(i as int) =~= keys);
    None
}

/// An immutable map from tokens to counters, with its tokens in strictly
/// ascending byte order.
pub struct TokenStore {
    map: fst::Map<Vec<u8>>,
}

impl View for TokenStore {
    type V = Seq<(Seq<u8>, Counter)>;

    /// The entries of the store, in stored order.
    closed spec fn view(&self) -> Seq<(Seq<u8>, Counter)> {
        unpack_pairs(blob_pairs(map_blob(self.map)))
    }
}

impl TokenStore {
    /// The blob the store stands on.
    pub closed spec fn blob(&self) -> Seq<u8> {
        map_blob(self.map)
    }

    /// The blob's addresses fit, it opens, its checksum matches, and the builder wrote it.
    #[verifier::type_invariant]
    pub closed spec fn wf(&self) -> bool {
        &&& addresses_fit(map_blob(self.map))
        &&& blob_opens(map_blob(self.map))
        &&& blob_checksum_ok(map_blob(self.map))
        &&& is_built(map_blob(self.map))
    }

    /// Builds a store from entries whose tokens are strictly ascending, and
    /// rejects any other list with the first position that is out of place.
    pub fn build(entries: &Vec<TokenEntry>) -> (r: Result<TokenStore, BuildError>)
        ensures
            r is Ok <==> strictly_ascending(keys_of(entries_view(entries@))),
            r matches Ok(store) ==> store.wf() && store@ == entries_view(entries@),
            r matches Err(e) ==> Some(e) == first_disorder(keys_of(entries_view(entries@))),
    {
        match find_disorder(entries) {
            Some(e) => Err(e),
            None => match map_from_entries(entries) {
                Ok(map) => {
                    proof {
                        let given = entries_view(entries@);
                        lemma_unpack_pack_entries(given);
                        assert(pair_keys(pack_entries(given)) =~= keys_of(given));
                        assert(builds(pack_entries(given), map_blob(map)));
                        assert(builds(blob_pairs(map_blob(map)), map_blob(map)));
                    }
                    Ok(TokenStore { map })
                },
                Err(_) => Err(BuildError::Refused),
            },
        }
    }

    /// Opens a store on a blob and reads all of it once for its checksum.
    ///
    /// A truncated blob, a foreign header or a checksum that does not match
    /// is reported. Beyond that the blob is read as it stands: it has to be
    /// one that `serialize` wrote, which no test on the bytes can show, so
    /// that is for the caller to know of the blob it hands in.
    pub fn deserialize(blob: Vec<u8>) -> (r: Result<TokenStore, StoreError>)
        requires
            admissible(blob@),
        ensures
            r is Ok <==> decode(blob@) is Some,
            r matches Ok(store) ==> store.wf() && store.blob() == blob@ && Some(store@) == decode(
                blob@,
            ),
            r matches Err(e) ==> Some(e) == decode_error(blob@),
            blob@.len() < 36 ==> r == Err::<TokenStore, StoreError>(StoreError::Malformed),
    {
        if !check_addresses(blob.as_slice()) {
            return Err(StoreError::Malformed);
        }
        match map_open(blob) {
            Err(_) => Err(StoreError::Malformed),
            Ok(map) => match map_verify(&map) {
                Err(_) => Err(StoreError::Checksum),
                Ok(_) => Ok(TokenStore { map }),
            },
        }
    }

    /// The blob of the store, as written once at its making.
    pub fn serialize(&self) -> (blob: Vec<u8>)
        ensures
            blob@ == self.blob(),
            is_built(blob@),
            admissible(blob@),
            decode(blob@) == Some(self@),
    {
        proof {
            use_type_invariant(self);
        }
        map_bytes(&self.map)
    }

    /// Writes the store out and opens it again, as a reader of the blob would.
    pub fn reload(&self) -> (r: Result<TokenStore, StoreError>)
        ensures
            r matches Ok(store) && store.wf() && store.blob() == self.blob() && store@ == self@,
    {
        TokenStore::deserialize(self.serialize())
    }

    /// The counter stored under `key`, or `None` where the store has no such token.
    pub fn get(&self, key: &[u8]) -> (r: Option<Counter>)
        ensures
            r == lookup(self@, key@),
    {
        proof {
            use_type_invariant(self);
            let pairs = blob_pairs(map_blob(self.map));
            assert(builds(pairs, map_blob(self.map)));
            lemma_pair_value(pairs, key@);
        }
        match map_get(&self.map, key) {
            Some(value) => Some(Counter::from_u64(value)),
            None => None,
        }
    }

    /// All entries of the store, tokens in strictly ascending order.
    pub fn iterate(&self) -> (entries: Vec<TokenEntry>)
        ensures
            entries_view(entries@) == self@,
            strictly_ascending(keys_of(self@)),
    {
        proof {
            use_type_invariant(self);
            let pairs = blob_pairs(map_blob(self.map));
            assert(builds(pairs, map_blob(self.map)));
            assert(keys_of(unpack_pairs(pairs)) =~= pair_keys(pairs));
        }
        let raw = map_pairs(&self.map);
        unpack_entries(&raw)
    }
}

/// Reads raw pairs as entries: each key copied, each value unpacked into its counter.
pub fn unpack_entries(raw: &Vec<(Vec<u8>, u64)>) -> (entries: Vec<TokenEntry>)
    ensures
        entries_view(entries@) == unpack_pairs(raw.deep_view()),
{
    let ghost pairs = raw.deep_view();
    let mut entries: Vec<TokenEntry> = Vec::new();
    let mut i: usize = 0;
    assert(entries_view(entries@) =~= unpack_pairs(pairs).take(0));
    while i < raw.len()
        invariant
            i <= raw.len(),
            pairs == raw.deep_view(),
            pairs.len() == raw.len(),
            entries_view(entries@) == unpack_pairs(pairs).take(i as int),
        decreases raw.len() - i,
    {
        let token = slice_to_vec(raw[i].0.as_slice());
        let counter = Counter::from_u64(raw[i].1);
        proof {
            assert(pairs[i as int] == raw[i as int].deep_view());
            assert(raw[i as int].deep_view() == (raw[i as int].0@, raw[i as int].1));
        }
        let ghost before = entries_view(entries@);
        entries.push(TokenEntry { token, counter });
        assert(entries_view(entries@) =~= before.push((token@, counter)));
        assert(unpack_pairs(pairs).take(i + 1) =~= unpack_pairs(pairs).take(i as int).push(
            unpack_pairs(pairs)[i as int],
        ));
        i += 1;
    }
    assert(unpack_pairs(pairs).take(i as int) =~= unpack_pairs(pairs));
    entries
}

/// Among pairs with strictly ascending keys, looking a key up among the
/// unpacked entries gives the unpacked value of the pair with that key.
pub proof fn lemma_pair_value(pairs: Seq<(Seq<u8>, u64)>, key: Seq<u8>)
    requires
        strictly_ascending(pair_keys(pairs)),
    ensures
        lookup(unpack_pairs(pairs), key) == match pair_value(pairs, key) {
            Some(value) => Some(Counter::unpacked(value)),
            None => None,
        },
{
    let entries = unpack_pairs(pairs);
    assert(keys_of(entries) =~= pair_keys(pairs));
    if has_pair(pairs, key) {
        let j = pair_index(pairs, key);
        assert(entries[j].0 == key);
        lemma_lookup_at(entries, j);
    } else if has_token(entries, key) {
        let j = token_index(entries, key);
        assert(pairs[j].0 == key);
    }
}

/// Packing every counter of a list of entries and unpacking again gives the list back.
pub proof fn lemma_unpack_pack_entries(entries: Seq<(Seq<u8>, Counter)>)
    ensures
        unpack_pairs(pack_entries(entries)) == entries,
{
    assert forall|i: int| 0 <= i < entries.len() implies unpack_pairs(pack_entries(entries))[i]
        == entries[i] by {
        lemma_unpack_pack(entries[i].1);
    }
    assert(unpack_pairs(pack_entries(entries)) =~= entries);
}

/// A store written out and read back holds the same entries in the same order.
pub proof fn lemma_serialize_roundtrip(store: TokenStore)
    requires
        store.wf(),
    ensures
        admissible(store.blob()),
        decode(store.blob()) == Some(store@),
        strictly_ascending(keys_of(store@)),
{
    let pairs = blob_pairs(store.blob());
    assert(builds(pairs, store.blob()));
    assert(keys_of(unpack_pairs(pairs)) =~= pair_keys(pairs));
}

} // verus!

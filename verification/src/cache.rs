//! A bounded store of what the grammar engine said of each clean text, so
//! that the engine is asked once for a text however often the text turns up.
//!
//! The store is the cache of the `lru` crate. The verifier sees it through
//! [`cache_entries`] and [`cache_limit`], and the functions marked
//! `external_body` state what the crate's methods do to them.

use crate::validator::{suggestion_views, Suggestion, SuggestionView};
use vstd::prelude::*;

verus! {

#[verifier::external_type_specification]
#[verifier::external_body]
#[verifier::reject_recursive_types(K)]
#[verifier::reject_recursive_types(V)]
#[verifier::reject_recursive_types(S)]
pub struct ExLruCache<K, V, S>(lru::LruCache<K, V, S>);

#[verifier::external_type_specification]
#[verifier::external_body]
pub struct ExDefaultHasher(lru::DefaultHasher);

/// A text and what the engine said of it.
pub type Entry = (Seq<char>, Seq<SuggestionView>);

/// What a cache holds, from the entry used last to the one that has gone
/// unused longest.
pub uninterp spec fn cache_entries(cache: lru::LruCache<String, Vec<Suggestion>>) -> Seq<Entry>;

/// The number of entries that a cache was made to hold.
pub uninterp spec fn cache_limit(cache: lru::LruCache<String, Vec<Suggestion>>) -> nat;

/// The number of entries that a cache holds by default.
pub const DEFAULT_CAPACITY: usize = 1000;

/// Where the entry for `key` stands in `entries`, or `-1` where there is
/// none.
pub open spec fn key_index(entries: Seq<Entry>, key: Seq<char>) -> int
    decreases entries.len(),
{
    if entries.len() == 0 {
        -1
    } else if entries[0].0 == key {
        0
    } else {
        let rest = key_index(entries.drop_first(), key);
        if rest < 0 {
            -1
        } else {
            rest + 1
        }
    }
}

/// The entries after the one at `index` was used: it has moved to the front.
pub open spec fn touched(entries: Seq<Entry>, index: int) -> Seq<Entry> {
    seq![entries[index]] + entries.remove(index)
}

/// The entries after `value` was stored for `key` in a cache made for `limit`
/// entries. The new entry stands at the front. It takes the place of an
/// entry for the same key; else, where the cache is full, the entry that has
/// gone unused longest leaves. A cache made for no entries stores nothing.
pub open spec fn stored(entries: Seq<Entry>, limit: nat, key: Seq<char>, value: Seq<SuggestionView>) -> Seq<
    Entry,
> {
    let index = key_index(entries, key);
    if index >= 0 {
        seq![(key, value)] + entries.remove(index)
    } else if limit == 0 {
        entries
    } else if entries.len() >= limit {
        seq![(key, value)] + entries.drop_last()
    } else {
        seq![(key, value)] + entries
    }
}

/// What is said of a text by way of a cache, where `answer` is what the
/// engine says of the text: what the cache holds for the text, and the answer
/// of the engine only where it holds nothing.
pub open spec fn said(entries: Seq<Entry>, text: Seq<char>, answer: Seq<SuggestionView>) -> Seq<
    SuggestionView,
> {
    let index = key_index(entries, text);
    if index >= 0 {
        entries[index].1
    } else {
        answer
    }
}

/// The entries after a text was asked about by way of a cache made for
/// `limit` entries, where `answer` is what the engine says of the text: the
/// entry for the text was used, or, where there was none, the answer of the
/// engine was stored.
pub open spec fn asked(entries: Seq<Entry>, limit: nat, text: Seq<char>, answer: Seq<SuggestionView>) -> Seq<
    Entry,
> {
    let index = key_index(entries, text);
    if index >= 0 {
        touched(entries, index)
    } else {
        stored(entries, limit, text, answer)
    }
}

/// `LruCache::new`: an empty cache made for `limit` entries. The crate
/// allocates room for all of them at once, so a cache is made for no more
/// than the default number and grows by `cache_resize`.
#[verifier::external_body]
fn cache_new(limit: usize) -> (cache: lru::LruCache<String, Vec<Suggestion>>)
    requires
        limit <= DEFAULT_CAPACITY,
    ensures
        cache_entries(cache) == Seq::<Entry>::empty(),
        cache_limit(cache) == limit,
{
    lru::LruCache::new(limit)
}

/// `LruCache::resize` to a limit that what the cache holds fits in: the
/// cache is made for `limit` entries, and holds what it held.
#[verifier::external_body]
fn cache_resize(cache: &mut lru::LruCache<String, Vec<Suggestion>>, limit: usize)
    requires
        cache_entries(*old(cache)).len() <= limit,
    ensures
        cache_entries(*final(cache)) == cache_entries(*old(cache)),
        cache_limit(*final(cache)) == limit,
{
    cache.resize(limit)
}

/// `LruCache::len`: the number of entries, which is never more than the
/// number that the cache was made to hold.
#[verifier::external_body]
fn cache_len(cache: &lru::LruCache<String, Vec<Suggestion>>) -> (n: usize)
    ensures
        n == cache_entries(*cache).len(),
        n <= cache_limit(*cache),
{
    cache.len()
}

/// `LruCache::get`, with a copy of what it found: the value stored for `key`,
/// whose entry moves to the front; nothing, and no change, where no entry
/// has that key.
#[verifier::external_body]
fn cache_get(cache: &mut lru::LruCache<String, Vec<Suggestion>>, key: &String) -> (found: Option<
    Vec<Suggestion>,
>)
    ensures
        cache_limit(*final(cache)) == cache_limit(*old(cache)),
        found is Some <==> key_index(cache_entries(*old(cache)), key@) >= 0,
        found is Some ==> suggestion_views(found.unwrap()@) == cache_entries(*old(cache))[key_index(
            cache_entries(*old(cache)),
            key@,
        )].1,
        cache_entries(*final(cache)) == if found is Some {
            touched(cache_entries(*old(cache)), key_index(cache_entries(*old(cache)), key@))
        } else {
            cache_entries(*old(cache))
        },
{
    cache.get(key).cloned()
}

/// `LruCache::put`, with copies of the key and the value: the value is
/// stored for the key.
#[verifier::external_body]
fn cache_put(cache: &mut lru::LruCache<String, Vec<Suggestion>>, key: &String, value: &Vec<Suggestion>)
    ensures
        cache_limit(*final(cache)) == cache_limit(*old(cache)),
        cache_entries(*final(cache)) == stored(
            cache_entries(*old(cache)),
            cache_limit(*old(cache)),
            key@,
            suggestion_views(value@),
        ),
{
    cache.put(key.clone(), value.clone());
}

/// What the engine said of each of the texts it was asked about last.
pub struct SuggestionCache {
    inner: lru::LruCache<String, Vec<Suggestion>>,
}

impl SuggestionCache {
    /// The entries of the cache, from the one used last on.
    pub closed spec fn entries(&self) -> Seq<Entry> {
        cache_entries(self.inner)
    }

    /// The number of entries that the cache was made to hold.
    pub closed spec fn limit(&self) -> nat {
        cache_limit(self.inner)
    }

    /// An empty cache for the default number of entries.
    pub fn new() -> (cache: SuggestionCache)
        ensures
            cache.entries() == Seq::<Entry>::empty(),
            cache.limit() == DEFAULT_CAPACITY,
    {
        SuggestionCache { inner: cache_new(DEFAULT_CAPACITY) }
    }

    /// An empty cache for `limit` entries.
    pub fn with_capacity(limit: usize) -> (cache: SuggestionCache)
        ensures
            cache.entries() == Seq::<Entry>::empty(),
            cache.limit() == limit,
    {
        if limit <= DEFAULT_CAPACITY {
            SuggestionCache { inner: cache_new(limit) }
        } else {
            let mut inner = cache_new(DEFAULT_CAPACITY);
            cache_resize(&mut inner, limit);
            SuggestionCache { inner }
        }
    }

    /// The number of entries that the cache holds. It is never more than the
    /// number that the cache was made to hold.
    pub fn len(&self) -> (n: usize)
        ensures
            n == self.entries().len(),
            n <= self.limit(),
    {
        cache_len(&self.inner)
    }

    /// What the cache holds for `text`, if anything. The entry counts as
    /// used.
    pub fn get(&mut self, text: &String) -> (found: Option<Vec<Suggestion>>)
        ensures
            final(self).limit() == old(self).limit(),
            found is Some <==> key_index(old(self).entries(), text@) >= 0,
            found is Some ==> suggestion_views(found.unwrap()@) == old(self).entries()[key_index(
                old(self).entries(),
                text@,
            )].1,
            final(self).entries() == if found is Some {
                touched(old(self).entries(), key_index(old(self).entries(), text@))
            } else {
                old(self).entries()
            },
    {
        cache_get(&mut self.inner, text)
    }

    /// Stores `suggestions` for `text`.
    pub fn put(&mut self, text: &String, suggestions: &Vec<Suggestion>)
        ensures
            final(self).limit() == old(self).limit(),
            final(self).entries() == stored(
                old(self).entries(),
                old(self).limit(),
                text@,
                suggestion_views(suggestions@),
            ),
    {
        cache_put(&mut self.inner, text, suggestions)
    }
}

/// What was stored for a text is found for it. In a cache made for at least
/// one entry, the entry for a text stands at the front once a value was
/// stored for the text, and holds that value: a second document with the
/// same clean text is answered from the cache.
pub proof fn lemma_stored_is_found(
    entries: Seq<Entry>,
    limit: nat,
    key: Seq<char>,
    value: Seq<SuggestionView>,
)
    requires
        limit > 0,
    ensures
        key_index(stored(entries, limit, key, value), key) == 0,
        stored(entries, limit, key, value)[0].1 == value,
{
}

/// The same text is answered alike, and from the cache the second time. In a
/// cache made for at least one entry, once a text was asked about, the cache
/// holds an entry for it, and what is said of the text when it is asked
/// about again is what was said of it the first time, whatever the engine
/// would say of it then.
pub proof fn lemma_same_text_is_answered_alike(
    entries: Seq<Entry>,
    limit: nat,
    text: Seq<char>,
    first: Seq<SuggestionView>,
    second: Seq<SuggestionView>,
)
    requires
        limit > 0,
    ensures
        key_index(asked(entries, limit, text, first), text) >= 0,
        said(asked(entries, limit, text, first), text, second) == said(entries, text, first),
{
    if key_index(entries, text) >= 0 {
        lemma_touched_is_found(entries, text);
    }
}

/// A question leaves the cache within its bound: where a cache holds no more
/// entries than it was made to hold, it holds no more after a text was asked
/// about by way of it.
pub proof fn lemma_asked_stays_bounded(
    entries: Seq<Entry>,
    limit: nat,
    text: Seq<char>,
    answer: Seq<SuggestionView>,
)
    requires
        entries.len() <= limit,
    ensures
        asked(entries, limit, text, answer).len() <= limit,
{
    if key_index(entries, text) >= 0 {
        lemma_touched_is_found(entries, text);
    }
}

/// The entry that was used stands at the front and is found there.
pub proof fn lemma_touched_is_found(entries: Seq<Entry>, key: Seq<char>)
    requires
        key_index(entries, key) >= 0,
    ensures
        0 <= key_index(entries, key) < entries.len(),
        entries[key_index(entries, key)].0 == key,
        key_index(touched(entries, key_index(entries, key)), key) == 0,
        touched(entries, key_index(entries, key))[0] == entries[key_index(entries, key)],
    decreases entries.len(),
{
    if entries.len() > 0 && entries[0].0 != key {
        lemma_touched_is_found(entries.drop_first(), key);
    }
}

} // verus!

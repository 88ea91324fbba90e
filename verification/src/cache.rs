//! Worked time of past windows, kept so that they are asked for only once.

use vstd::prelude::*;
use vstd::string::*;
use crate::calendar::{instant_text, law_instant_text_injective, law_instant_text_plain, to_rfc3339};
use crate::stitch::{cut, cut_fraction, segment_of};
use crate::text::{law_text_less_strict, text_less};
use crate::text_map::{contents, descending, lemma_contents_same, TextMap};
use crate::time::{
    in_instant_range, in_span_range, law_whole_seconds, num_seconds, whole_seconds,
};
use crate::working_hours::{chronological, generous_approx, worked, worked_fits, Event};

verus! {

/// The break length with which the events of old entries are counted: ten minutes.
pub const OLD_ENTRY_BREAK: i128 = 600_000_000_000;

/// What is known of a window of time.
#[derive(Debug)]
pub struct CacheEntry {
    /// Worked time in nanoseconds.
    pub duration: Option<i128>,
    /// The events themselves, which old entries have in place of a duration.
    pub result: Option<Vec<Event>>,
    /// When the entry was made.
    pub cached_at: i128,
    /// How many seconds the entry is good for.
    pub ttl_secs: i64,
    /// The earliest start in the window.
    pub first_event_ts: Option<i128>,
    /// The latest end in the window.
    pub last_event_end_ts: Option<i128>,
}

/// A moment that the calendar holds, if there is one.
pub open spec fn instant_or_none(t: Option<i128>) -> bool {
    t matches Some(t) ==> in_instant_range(t as int)
}

impl CacheEntry {
    /// Moments and length are ones that the calendar holds.
    pub open spec fn wf(self) -> bool {
        &&& self.duration matches Some(d) ==> in_span_range(d as int)
        &&& in_instant_range(self.cached_at as int)
        &&& instant_or_none(self.first_event_ts)
        &&& instant_or_none(self.last_event_end_ts)
    }

    /// Whether the entry is too old at `now`.
    pub open spec fn expired(self, now: int) -> bool {
        whole_seconds(now - self.cached_at) > self.ttl_secs
    }

    /// Whether the worked time of an entry that has events in its place can be counted.
    pub open spec fn countable(self) -> bool {
        self.duration is None ==> (self.result matches Some(events) ==> worked_fits(
            chronological(events@),
            OLD_ENTRY_BREAK as int,
        ))
    }

    /// The entry with a duration in place of events.
    pub open spec fn migrated(self) -> CacheEntry {
        CacheEntry {
            duration: match (self.duration, self.result) {
                (None, Some(events)) => Some(
                    cut(worked(chronological(events@), OLD_ENTRY_BREAK as int)) as i128,
                ),
                _ => self.duration,
            },
            result: None,
            ..self
        }
    }

    /// Whether the entry is too old at `now`.
    pub fn is_expired(&self, now: i128) -> (r: bool)
        requires
            self.wf(),
            in_instant_range(now as int),
        ensures
            r == self.expired(now as int),
    {
        num_seconds(now - self.cached_at) > self.ttl_secs
    }

    /// The entry with a duration in place of events.
    fn migrate(self) -> (r: CacheEntry)
        requires
            self.countable(),
        ensures
            r == self.migrated(),
            self.wf() ==> r.wf(),
    {
        let duration: Option<i128> = match (self.duration, &self.result) {
            (None, Some(events)) => Some(
                cut_fraction(generous_approx(events.as_slice(), OLD_ENTRY_BREAK)),
            ),
            (duration, _) => duration,
        };
        CacheEntry {
            duration,
            result: None,
            cached_at: self.cached_at,
            ttl_secs: self.ttl_secs,
            first_event_ts: self.first_event_ts,
            last_event_end_ts: self.last_event_end_ts,
        }
    }
}

/// The key of the window from `start` to `end`.
pub open spec fn key_text(start: int, end: int) -> Seq<char> {
    instant_text(start) + seq!['|'] + instant_text(end)
}

/// The key of the window from `start` to `end`.
pub fn cache_key(start: i128, end: i128) -> (r: String)
    requires
        in_instant_range(start as int),
        in_instant_range(end as int),
    ensures
        r@ == key_text(start as int, end as int),
        r@ == instant_text(start as int) + seq!['|'] + instant_text(end as int),
{
    let mut key: String = to_rfc3339(start);
    key.push('|');
    key.append(to_rfc3339(end).as_str());
    assert(key@ =~= key_text(start as int, end as int));
    key
}

/// Two windows have the same key only if they are the same.
pub proof fn law_cache_key_injective(s1: int, e1: int, s2: int, e2: int)
    requires
        in_instant_range(s1),
        in_instant_range(e1),
        in_instant_range(s2),
        in_instant_range(e2),
        key_text(s1, e1) == key_text(s2, e2),
    ensures
        s1 == s2,
        e1 == e2,
{
    law_instant_text_plain(s1);
    law_instant_text_plain(s2);
    let (a, b) = (instant_text(s1), instant_text(s2));
    let key = key_text(s1, e1);
    assert(key[a.len() as int] == '|');
    assert(key[b.len() as int] == '|');
    if a.len() < b.len() {
        assert(key[a.len() as int] == b[a.len() as int]);
        assert(b.contains('|'));
    }
    if b.len() < a.len() {
        assert(key[b.len() as int] == a[b.len() as int]);
        assert(a.contains('|'));
    }
    assert(a =~= key.take(a.len() as int));
    assert(b =~= key.take(b.len() as int));
    assert(instant_text(e1) =~= key.skip(a.len() as int + 1));
    assert(instant_text(e2) =~= key.skip(b.len() as int + 1));
    law_instant_text_injective(s1, s2);
    law_instant_text_injective(e1, e2);
}

/// Every entry is well formed and holds no events.
pub open spec fn settled(m: Map<Seq<char>, CacheEntry>) -> bool {
    forall|k: Seq<char>| #[trigger]
        m.contains_key(k) ==> m[k].wf() && m[k].result is None
}

/// The entries that are not too old at `now`.
pub open spec fn unexpired(m: Map<Seq<char>, CacheEntry>, now: int) -> Map<Seq<char>, CacheEntry> {
    Map::new(|k: Seq<char>| m.contains_key(k) && !m[k].expired(now), |k: Seq<char>| m[k])
}

/// The entries with durations in place of events.
pub open spec fn all_migrated(m: Map<Seq<char>, CacheEntry>) -> Map<Seq<char>, CacheEntry> {
    Map::new(|k: Seq<char>| m.contains_key(k), |k: Seq<char>| m[k].migrated())
}

/// Whether an entry still holds events.
pub open spec fn any_events(m: Map<Seq<char>, CacheEntry>) -> bool {
    exists|k: Seq<char>| #[trigger] m.contains_key(k) && m[k].result is Some
}

/// What a file may hold: well formed entries that can be counted.
pub open spec fn loadable(m: Map<Seq<char>, CacheEntry>) -> bool {
    forall|k: Seq<char>| #[trigger]
        m.contains_key(k) ==> m[k].wf() && m[k].countable()
}

/// Durations in place of events, and whether there were any.
fn migrate_all(old_entries: TextMap<CacheEntry>) -> (r: (TextMap<CacheEntry>, bool))
    requires
        old_entries.wf(),
        loadable(old_entries@),
    ensures
        r.0.wf(),
        r.0@ == all_migrated(old_entries@),
        settled(r.0@),
        r.1 == any_events(old_entries@),
{
    let mut rest: TextMap<CacheEntry> = old_entries;
    let mut store: TextMap<CacheEntry> = TextMap::new();
    let mut found: bool = false;
    let ghost all = old_entries@;
    while rest.len() > 0
        invariant
            rest.wf(),
            store.wf(),
            loadable(all),
            forall|k: Seq<char>| #[trigger]
                all.contains_key(k) <==> rest@.contains_key(k) || store@.contains_key(k),
            forall|k: Seq<char>| #[trigger]
                rest@.contains_key(k) ==> !store@.contains_key(k) && rest@[k] == all[k],
            forall|k: Seq<char>| #[trigger]
                store@.contains_key(k) ==> store@[k] == all[k].migrated() && store@[k].wf(),
            found == exists|k: Seq<char>| #[trigger]
                store@.contains_key(k) && all[k].result is Some,
        decreases rest.spec_items().len(),
    {
        let ghost before = store@;
        let last: usize = rest.len() - 1;
        proof {
            rest.lemma_item(last as int);
        }
        let (key, entry): (String, CacheEntry) = rest.remove_item(last);
        let ghost k = key@;
        assert(all.contains_key(k) && entry == all[k]);
        let had: bool = entry.result.is_some();
        store.insert(key, entry.migrate());
        proof {
            if found {
                let w = choose|w: Seq<char>| #[trigger]
                    before.contains_key(w) && all[w].result is Some;
                assert(store@.contains_key(w));
            }
            if had {
                assert(store@.contains_key(k));
            }
            if exists|w: Seq<char>| #[trigger] store@.contains_key(w) && all[w].result is Some {
                let w = choose|w: Seq<char>| #[trigger]
                    store@.contains_key(w) && all[w].result is Some;
                if w != k {
                    assert(before.contains_key(w));
                }
            }
        }
        found = found || had;
    }
    proof {
        assert forall|k: Seq<char>| !rest@.contains_key(k) by {
            rest.lemma_key(k);
        }
        assert(store@ =~= all_migrated(all));
        if any_events(all) {
            let w = choose|w: Seq<char>| #[trigger] all.contains_key(w) && all[w].result is Some;
            assert(store@.contains_key(w));
        }
    }
    (store, found)
}

/// `list` holds each entry of `m` once, by key, greater keys first.
pub open spec fn lists(list: Seq<(&String, &CacheEntry)>, m: Map<Seq<char>, CacheEntry>) -> bool {
    &&& forall|i: int, j: int|
        0 <= i < j < list.len() ==> text_less((#[trigger] list[j]).0@, (#[trigger] list[i]).0@)
    &&& forall|i: int|
        0 <= i < list.len() ==> m.contains_key((#[trigger] list[i]).0@) && *list[i].1
            == m[list[i].0@]
    &&& forall|k: Seq<char>| #[trigger]
        m.contains_key(k) ==> exists|i: int| 0 <= i < list.len() && (#[trigger] list[i]).0@ == k
}

/// `saved` holds the keys and entries of `list` by value.
pub open spec fn copies(saved: Seq<(String, CacheEntry)>, list: Seq<(&String, &CacheEntry)>) -> bool {
    &&& saved.len() == list.len()
    &&& forall|i: int|
        0 <= i < saved.len() ==> (#[trigger] saved[i]).0@ == list[i].0@ && saved[i].1 == *list[i].1
}

/// The cache of one sheet on one host.
pub struct QueryCache {
    store: TextMap<CacheEntry>,
}

impl View for QueryCache {
    type V = Map<Seq<char>, CacheEntry>;

    closed spec fn view(&self) -> Map<Seq<char>, CacheEntry> {
        self.store@
    }
}

impl QueryCache {
    /// Entries are well formed and hold no events.
    pub closed spec fn wf(self) -> bool {
        self.store.wf() && settled(self.store@)
    }

    /// What `wf` says of the entries.
    pub broadcast proof fn lemma_wf(self)
        requires
            #[trigger] self.wf(),
        ensures
            settled(self@),
    {
    }

    /// The cache of the entries that a file holds, a later entry taking the place of an earlier one
    /// with the same key: events are counted and dropped, and entries that are too old are left
    /// out. The flag says whether there were any events, so that the file is out of date.
    pub fn load(entries: Vec<(String, CacheEntry)>, now: i128) -> (r: (QueryCache, bool))
        requires
            loadable(contents(entries@)),
            in_instant_range(now as int),
        ensures
            r.0.wf(),
            r.0@ == unexpired(all_migrated(contents(entries@)), now as int),
            r.1 == any_events(contents(entries@)),
    {
        let mut read: TextMap<CacheEntry> = TextMap::new();
        let ghost items = entries@;
        assert(items.take(0) =~= Seq::empty());
        for entry in it: entries
            invariant
                read.wf(),
                it.seq() == items,
                read@ == contents(items.take(it.index())),
        {
            assert(items.take(it.index() + 1).drop_last() =~= items.take(it.index()));
            read.insert(entry.0, entry.1);
        }
        assert(items.take(items.len() as int) =~= items);
        let (store, migrated): (TextMap<CacheEntry>, bool) = migrate_all(read);
        let mut cache: QueryCache = QueryCache { store };
        cache.evict_expired(now);
        (cache, migrated)
    }

    /// Leaves out the entries that are too old.
    fn evict_expired(&mut self, now: i128)
        requires
            old(self).wf(),
            in_instant_range(now as int),
        ensures
            final(self).wf(),
            final(self)@ == unexpired(old(self)@, now as int),
    {
        let ghost all = self.store@;
        let mut i: usize = 0;
        while i < self.store.len()
            invariant
                i <= self.store.spec_items().len(),
                self.wf(),
                in_instant_range(now as int),
                forall|k: Seq<char>| #[trigger]
                    self.store@.contains_key(k) ==> all.contains_key(k) && self.store@[k] == all[k],
                forall|k: Seq<char>| #[trigger]
                    all.contains_key(k) && !all[k].expired(now as int) ==> self.store@.contains_key(k),
                forall|j: int|
                    0 <= j < i ==> !(#[trigger] self.store.spec_items()[j]).1.expired(now as int),
            decreases self.store.spec_items().len() - i,
        {
            proof {
                self.store.lemma_item(i as int);
            }
            if self.store.item(i).1.is_expired(now) {
                let _ = self.store.remove_item(i);
            } else {
                i += 1;
            }
        }
        proof {
            assert forall|k: Seq<char>| #[trigger] self.store@.contains_key(k) implies !all[k].expired(
                now as int,
            ) by {
                self.store.lemma_key(k);
                let j = choose|j: int|
                    0 <= j < self.store.spec_items().len() && (
                    #[trigger] self.store.spec_items()[j]).0@ == k;
                self.store.lemma_item(j);
            }
            assert(self.store@ =~= unexpired(all, now as int));
        }
    }

    /// The entry at `key`.
    pub fn get(&self, key: &str) -> (r: Option<&CacheEntry>)
        requires
            self.wf(),
        ensures
            match r {
                Some(entry) => self@.contains_key(key@) && *entry == self@[key@],
                None => !self@.contains_key(key@),
            },
    {
        self.store.get(key)
    }

    /// Puts a new entry, made at `now`, in the place of what was at `key`.
    pub fn insert(
        &mut self,
        key: String,
        duration: i128,
        first_event_ts: Option<i128>,
        last_event_end_ts: Option<i128>,
        ttl_secs: i64,
        now: i128,
    )
        requires
            old(self).wf(),
            in_instant_range(now as int),
            in_span_range(duration as int),
            instant_or_none(first_event_ts),
            instant_or_none(last_event_end_ts),
        ensures
            final(self).wf(),
            final(self)@ == old(self)@.insert(
                key@,
                (CacheEntry {
                    duration: Some(duration),
                    result: None,
                    cached_at: now,
                    ttl_secs,
                    first_event_ts,
                    last_event_end_ts,
                }),
            ),
    {
        self.store.insert(
            key,
            CacheEntry {
                duration: Some(duration),
                result: None,
                cached_at: now,
                ttl_secs,
                first_event_ts,
                last_event_end_ts,
            },
        );
    }

    /// The entries as a file lists them: by key, newer windows first.
    pub fn serialize_entries_descending(&self) -> (r: Vec<(&String, &CacheEntry)>)
        requires
            self.wf(),
        ensures
            lists(r@, self@),
    {
        let mut entries: Vec<(&String, &CacheEntry)> = Vec::new();
        let mut i: usize = 0;
        while i < self.store.len()
            invariant
                i <= self.store.spec_items().len(),
                entries.len() == i,
                forall|j: int|
                    0 <= j < i ==> *(#[trigger] entries@[j]).0 == self.store.spec_items()[j].0
                        && *entries@[j].1 == self.store.spec_items()[j].1,
            decreases self.store.spec_items().len() - i,
        {
            let item: &(String, CacheEntry) = self.store.item(i);
            entries.push((&item.0, &item.1));
            i += 1;
        }
        proof {
            self.store.lemma_items();
            assert forall|i: int| 0 <= i < entries.len() implies self@.contains_key(
                (#[trigger] entries@[i]).0@,
            ) && *entries@[i].1 == self@[entries@[i].0@] by {
                self.store.lemma_item(i);
            }
            assert forall|k: Seq<char>| #[trigger] self@.contains_key(k) implies exists|i: int|
                0 <= i < entries.len() && (#[trigger] entries@[i]).0@ == k by {
                self.store.lemma_key(k);
                let i = choose|i: int|
                    0 <= i < self.store.spec_items().len() && (
                    #[trigger] self.store.spec_items()[i]).0@ == k;
                assert(entries@[i].0@ == k);
            }
        }
        entries
    }
}

/// A list of the entries of a map, taken by value, makes that map.
pub proof fn law_saved_list(
    saved: Seq<(String, CacheEntry)>,
    list: Seq<(&String, &CacheEntry)>,
    m: Map<Seq<char>, CacheEntry>,
)
    requires
        lists(list, m),
        copies(saved, list),
    ensures
        contents(saved) == m,
{
    assert(descending(saved)) by {
        assert forall|i: int, j: int| 0 <= i < j < saved.len() implies text_less(
            (#[trigger] saved[j]).0@,
            (#[trigger] saved[i]).0@,
        ) by {
            assert(text_less(list[j].0@, list[i].0@));
        }
    }
    assert forall|i: int| 0 <= i < saved.len() implies m.contains_key((#[trigger] saved[i]).0@)
        && m[saved[i].0@] == saved[i].1 by {
        assert(m.contains_key(list[i].0@));
    }
    assert forall|k: Seq<char>| #[trigger] m.contains_key(k) implies exists|i: int|
        0 <= i < saved.len() && (#[trigger] saved[i]).0@ == k by {
        let i = choose|i: int| 0 <= i < list.len() && (#[trigger] list[i]).0@ == k;
        assert(saved[i].0@ == k);
    }
    lemma_contents_same(saved, m);
}

/// Loading what was saved, which is what `serialize_entries_descending` lists, gives back the entries
/// that are still good, unchanged, and finds nothing to migrate.
pub proof fn law_saved_loads(
    saved: Seq<(String, CacheEntry)>,
    list: Seq<(&String, &CacheEntry)>,
    cache: QueryCache,
    now: int,
)
    requires
        cache.wf(),
        lists(list, cache@),
        copies(saved, list),
    ensures
        loadable(contents(saved)),
        unexpired(all_migrated(contents(saved)), now) == unexpired(cache@, now),
        !any_events(contents(saved)),
{
    law_saved_list(saved, list, cache@);
    cache.lemma_wf();
    let m = cache@;
    assert forall|k: Seq<char>| #[trigger] m.contains_key(k) implies m[k].migrated() == m[k] by {}
    assert(all_migrated(m) =~= m);
}

/// An entry is not found once it is too old, and not before, however often the cache was loaded in
/// between.
pub proof fn law_eviction(m: Map<Seq<char>, CacheEntry>, earlier: int, later: int)
    requires
        earlier <= later,
    ensures
        unexpired(unexpired(m, earlier), later) == unexpired(m, later),
{
    assert forall|k: Seq<char>| m.contains_key(k) && !m[k].expired(later) implies !m[k].expired(
        earlier,
    ) by {
        lemma_whole_seconds_monotone(earlier - m[k].cached_at, later - m[k].cached_at);
    }
    assert(unexpired(unexpired(m, earlier), later) =~= unexpired(m, later));
}

proof fn lemma_whole_seconds_monotone(a: int, b: int)
    requires
        a <= b,
    ensures
        whole_seconds(a) <= whole_seconds(b),
{
}

/// An entry is good for the seconds that it says, and for the fraction behind them: at the next whole
/// second it is too old, and not before.
pub proof fn law_expiry(entry: CacheEntry, now: int)
    ensures
        entry.ttl_secs >= 0 ==> (entry.expired(now) <==> now - entry.cached_at >= (entry.ttl_secs
            + 1) * 1_000_000_000),
        entry.ttl_secs < 0 ==> (entry.expired(now) <==> now - entry.cached_at > entry.ttl_secs
            * 1_000_000_000),
{
    let age = now - entry.cached_at;
    law_whole_seconds(age);
    law_whole_seconds(-age);
}

/// What a file holds is found again under its key unless it is too old, and nothing else is: its worked
/// time is the one that it says or, where it says none, that of its events, and the rest is as it was.
pub proof fn law_loaded_entries(m: Map<Seq<char>, CacheEntry>, now: int, k: Seq<char>)
    ensures
        ({
            let found = unexpired(all_migrated(m), now);
            &&& found.contains_key(k) <==> m.contains_key(k) && !m[k].expired(now)
            &&& found.contains_key(k) ==> {
                &&& found[k].cached_at == m[k].cached_at
                &&& found[k].ttl_secs == m[k].ttl_secs
                &&& found[k].first_event_ts == m[k].first_event_ts
                &&& found[k].last_event_end_ts == m[k].last_event_end_ts
                &&& found[k].result is None
                &&& m[k].duration is Some ==> found[k].duration == m[k].duration
                &&& m[k].duration is None && m[k].result is None ==> found[k].duration is None
                &&& m[k].duration is None ==> (m[k].result matches Some(events) ==> found[k].duration
                    == Some(segment_of(events@).worked))
            }
        }),
{
}

/// What was saved and loaded again is just what was there and is not too old.
pub proof fn law_saved_found(
    saved: Seq<(String, CacheEntry)>,
    list: Seq<(&String, &CacheEntry)>,
    cache: QueryCache,
    now: int,
    k: Seq<char>,
)
    requires
        cache.wf(),
        lists(list, cache@),
        copies(saved, list),
    ensures
        ({
            let found = unexpired(all_migrated(contents(saved)), now);
            &&& found.contains_key(k) <==> cache@.contains_key(k) && !cache@[k].expired(now)
            &&& found.contains_key(k) ==> found[k] == cache@[k]
        }),
{
    law_saved_loads(saved, list, cache, now);
}

/// The entries are listed by key, each once, and the greater of two keys comes first.
pub proof fn law_greater_keys_first(
    list: Seq<(&String, &CacheEntry)>,
    m: Map<Seq<char>, CacheEntry>,
    i: int,
    j: int,
)
    requires
        lists(list, m),
        0 <= i < list.len(),
        0 <= j < list.len(),
        text_less(list[i].0@, list[j].0@),
    ensures
        j < i,
        m.contains_key(list[i].0@),
        m[list[i].0@] == *list[i].1,
{
    law_text_less_strict(list[i].0@, list[j].0@);
    if i < j {
        assert(text_less(list[j].0@, list[i].0@));
    }
}

} // verus!

//! The key-value store: a mapping from keys to values, where an entry may
//! carry a time after which it counts as absent.
//!
//! Expiry is lazy.  Nothing sweeps the store in the background; a read
//! compares the entry's deadline with the time of the read, and removes what
//! it finds expired.  Time is a count of milliseconds, and every operation
//! that depends on it comes in two forms: one that is given the time of the
//! call, and one that reads the clock and hands over to the first.

use vstd::prelude::*;
use vstd::hash_map::StringHashMap;
use crate::glob::{glob_matches, lemma_star_matches_everything, matches_glob};
use crate::clock::clock_millis;
use crate::text::same_text;

verus! {

/// What the store holds under one key.
pub struct Record {
    /// The value that a read returns while the entry is present.
    pub value: Seq<char>,
    /// The time from which the entry counts as absent, if it expires.
    pub expires_at: Option<nat>,
}

/// Whether an entry still counts as present at time `now`.
pub open spec fn is_live(record: Record, now: nat) -> bool {
    match record.expires_at {
        Some(deadline) => now < deadline,
        None => true,
    }
}

/// The value that a read of `key` at time `now` finds.
pub open spec fn live_value(records: Map<Seq<char>, Record>, key: Seq<char>, now: nat) -> Option<
    Seq<char>,
> {
    if records.contains_key(key) && is_live(records[key], now) {
        Some(records[key].value)
    } else {
        None
    }
}

/// The store after a read of `key` at time `now`: an expired entry is gone.
pub open spec fn after_read(records: Map<Seq<char>, Record>, key: Seq<char>, now: nat) -> Map<
    Seq<char>,
    Record,
> {
    if records.contains_key(key) && !is_live(records[key], now) {
        records.remove(key)
    } else {
        records
    }
}

/// The entries that are still present at time `now`.
pub open spec fn live_records(records: Map<Seq<char>, Record>, now: nat) -> Map<Seq<char>, Record> {
    Map::new(
        |key: Seq<char>| records.contains_key(key) && is_live(records[key], now),
        |key: Seq<char>| records[key],
    )
}

/// The keys that are present at time `now` and match `pattern`.
pub open spec fn matching_keys(records: Map<Seq<char>, Record>, pattern: Seq<char>, now: nat) -> Set<
    Seq<char>,
> {
    Set::new(
        |key: Seq<char>|
            records.contains_key(key) && is_live(records[key], now) && glob_matches(pattern, key),
    )
}

/// The value of the first setting called `name`.
pub open spec fn config_value(config: Seq<(Seq<char>, Seq<char>)>, name: Seq<char>) -> Option<
    Seq<char>,
>
    decreases config.len(),
{
    if config.len() == 0 {
        None
    } else if config[0].0 == name {
        Some(config[0].1)
    } else {
        config_value(config.drop_first(), name)
    }
}

/// The names and values of a list of settings.
pub open spec fn settings_of(config: Seq<(String, String)>) -> Seq<(Seq<char>, Seq<char>)> {
    Seq::new(config.len(), |i: int| (config[i].0@, config[i].1@))
}

/// The text that a read found, if it found one.
pub open spec fn text_of(found: Option<String>) -> Option<Seq<char>> {
    match found {
        Some(text) => Some(text@),
        None => None,
    }
}

/// The entry that a write with a time to live stores: it expires `ttl_ms`
/// milliseconds after `now`.
pub open spec fn expiring_record(value: Seq<char>, ttl_ms: nat, now: nat) -> Record {
    Record { value, expires_at: Some(now + ttl_ms) }
}

/// The store, shared by every connection.  Besides the entries it holds a
/// list of settings that is fixed when the store is made.
pub struct Database {
    slots: StringHashMap<Slot>,
    index: Vec<String>,
    config: Vec<(String, String)>,
}

impl View for Database {
    type V = Map<Seq<char>, Record>;

    /// The entries of the store, expired ones that no read has met included.
    closed spec fn view(&self) -> Map<Seq<char>, Record> {
        records_of(self.slots@)
    }
}

impl Database {
    #[verifier::type_invariant]
    spec fn well_formed(self) -> bool {
        indexed(self.slots@, self.index.deep_view())
    }

    /// The settings of the store, in the order in which they were given.
    pub closed spec fn config(&self) -> Seq<(Seq<char>, Seq<char>)> {
        settings_of(self.config@)
    }

    /// An empty store without settings.
    pub fn new() -> (db: Database)
        ensures
            db@ == Map::<Seq<char>, Record>::empty(),
            db.config() == Seq::<(Seq<char>, Seq<char>)>::empty(),
    {
        let db = Database { slots: StringHashMap::new(), index: Vec::new(), config: Vec::new() };
        db
    }

    /// An empty store with the given settings, as pairs of name and value.
    pub fn with_config(config: Vec<(String, String)>) -> (db: Database)
        ensures
            db@ == Map::<Seq<char>, Record>::empty(),
            db.config() == settings_of(config@),
    {
        let db = Database { slots: StringHashMap::new(), index: Vec::new(), config };
        db
    }

    /// Takes the parts out of the store, which is empty until they are put
    /// back.
    fn take_parts(&mut self) -> (parts: (StringHashMap<Slot>, Vec<String>, Vec<(String, String)>))
        ensures
            parts.0 == old(self).slots,
            parts.1 == old(self).index,
            parts.2 == old(self).config,
            indexed(parts.0@, parts.1.deep_view()),
    {
        let mut state = Database::new();
        core::mem::swap(self, &mut state);
        proof {
            use_type_invariant(&state);
        }
        let Database { slots, index, config } = state;
        (slots, index, config)
    }

    fn put(&mut self, key: &str, value: &str, deadline: Option<u128>)
        ensures
            final(self)@ == old(self)@.insert(
                key@,
                Record { value: value@, expires_at: instant_of(deadline) },
            ),
            final(self).config() == old(self).config(),
    {
        let (mut slots, mut index, config) = self.take_parts();
        let slot = Slot { value: value.to_owned(), deadline };
        install(&mut slots, &mut index, key, slot);
        *self = Database { slots, index, config };
        assert(self@ =~= old(self)@.insert(
            key@,
            Record { value: value@, expires_at: instant_of(deadline) },
        ));
    }

    /// Stores `value` under `key`, in place of what was there.  The entry
    /// does not expire.
    pub fn set(&mut self, key: &str, value: &str)
        ensures
            final(self)@ == old(self)@.insert(key@, Record { value: value@, expires_at: None }),
            final(self).config() == old(self).config(),
    {
        self.put(key, value, None);
    }

    /// Stores `value` under `key` at time `now`, to expire `ttl_ms`
    /// milliseconds later.  With a time to live of zero the entry has
    /// expired by the next read.
    pub fn set_with_expire_at(&mut self, key: &str, value: &str, ttl_ms: u64, now: u64)
        ensures
            final(self)@ == old(self)@.insert(
                key@,
                expiring_record(value@, ttl_ms as nat, now as nat),
            ),
            final(self).config() == old(self).config(),
    {
        self.put(key, value, Some(now as u128 + ttl_ms as u128));
    }

    /// Stores `value` under `key`, to expire `ttl_ms` milliseconds after the
    /// time that the clock shows.
    pub fn set_with_expire(&mut self, key: &str, value: &str, ttl_ms: u64)
        ensures
            exists|now: u64|
                final(self)@ == old(self)@.insert(
                    key@,
                    #[trigger] expiring_record(value@, ttl_ms as nat, now as nat),
                ),
            final(self).config() == old(self).config(),
    {
        let now = clock_millis();
        self.set_with_expire_at(key, value, ttl_ms, now);
    }

    /// Reads `key` at time `now`.  An entry that has expired is not
    /// returned, and is removed.
    pub fn get_at(&mut self, key: &str, now: u64) -> (found: Option<String>)
        ensures
            text_of(found) == live_value(old(self)@, key@, now as nat),
            final(self)@ == after_read(old(self)@, key@, now as nat),
            final(self).config() == old(self).config(),
    {
        let (mut slots, mut index, config) = self.take_parts();
        let mut expired = false;
        let found = match slots.get(key) {
            Some(slot) => {
                if slot.live_at(now) {
                    Some(slot.value.clone())
                } else {
                    expired = true;
                    None
                }
            },
            None => None,
        };
        if expired {
            evict(&mut slots, &mut index, key);
        }
        *self = Database { slots, index, config };
        found
    }

    /// Reads `key` at the time that the clock shows.
    pub fn get(&mut self, key: &str) -> (found: Option<String>)
        ensures
            exists|now: u64|
                #![trigger live_value(old(self)@, key@, now as nat)]
                text_of(found) == live_value(old(self)@, key@, now as nat) && final(self)@
                    == after_read(old(self)@, key@, now as nat),
            final(self).config() == old(self).config(),
    {
        let now = clock_millis();
        let found = self.get_at(key, now);
        found
    }

    /// Lists, in no particular order, the keys that are present at time
    /// `now` and match `pattern`.  Every entry that has expired is removed.
    pub fn keys_at(&mut self, pattern: &str, now: u64) -> (listed: Vec<String>)
        ensures
            listed.deep_view().no_duplicates(),
            listed.deep_view().to_set() == matching_keys(old(self)@, pattern@, now as nat),
            final(self)@ == live_records(old(self)@, now as nat),
            final(self).config() == old(self).config(),
    {
        let (mut slots, mut index, config) = self.take_parts();
        sweep(&mut slots, &mut index, now);
        let listed = list_matching(&index, pattern);
        *self = Database { slots, index, config };
        listed
    }

    /// Lists the keys that are present at the time that the clock shows and
    /// match `pattern`.
    pub fn keys(&mut self, pattern: &str) -> (listed: Vec<String>)
        ensures
            listed.deep_view().no_duplicates(),
            exists|now: u64|
                #![trigger matching_keys(old(self)@, pattern@, now as nat)]
                listed.deep_view().to_set() == matching_keys(old(self)@, pattern@, now as nat)
                    && final(self)@ == live_records(old(self)@, now as nat),
            final(self).config() == old(self).config(),
    {
        let now = clock_millis();
        let listed = self.keys_at(pattern, now);
        listed
    }

    /// The value of the setting called `name`.
    pub fn config_get(&self, name: &str) -> (found: Option<String>)
        ensures
            text_of(found) == config_value(self.config(), name@),
    {
        let ghost settings = self.config();
        let mut i: usize = 0;
        assert(settings.skip(0) == settings);
        while i < self.config.len()
            invariant
                i <= self.config@.len(),
                settings == self.config(),
                config_value(settings, name@) == config_value(settings.skip(i as int), name@),
            decreases self.config@.len() - i,
        {
            assert(settings.skip(i as int).drop_first() == settings.skip(i + 1));
            if same_text(self.config[i].0.as_str(), name) {
                return Some(self.config[i].1.clone());
            }
            i += 1;
        }
        None
    }
}

/// What is stored under one key: the value, and the deadline if the entry
/// expires.  A deadline is the sum of two times of 64 bits, so it is held in
/// 128 bits and cannot wrap.
struct Slot {
    value: String,
    deadline: Option<u128>,
}

impl Slot {
    spec fn record(self) -> Record {
        Record { value: self.value@, expires_at: instant_of(self.deadline) }
    }

    fn live_at(&self, now: u64) -> (live: bool)
        ensures
            live == is_live(self.record(), now as nat),
    {
        match self.deadline {
            Some(deadline) => (now as u128) < deadline,
            None => true,
        }
    }
}

/// The entries that a map of slots stands for.
spec fn records_of(slots: Map<Seq<char>, Slot>) -> Map<Seq<char>, Record> {
    slots.map_values(|slot: Slot| slot.record())
}

/// The keys in `keys` are exactly the keys of `slots`, each listed once.
spec fn indexed(slots: Map<Seq<char>, Slot>, keys: Seq<Seq<char>>) -> bool {
    &&& keys.no_duplicates()
    &&& forall|key: Seq<char>|
        #![trigger slots.contains_key(key)]
        #![trigger keys.contains(key)]
        slots.contains_key(key) <==> keys.contains(key)
}

/// What a list of keys holds after one more key has been pushed.
proof fn lemma_pushed_key(keys: Seq<Seq<char>>, key: Seq<char>)
    ensures
        forall|other: Seq<char>|
            #![trigger keys.push(key).contains(other)]
            #![trigger keys.contains(other)]
            keys.push(key).contains(other) <==> other == key || keys.contains(other),
        keys.no_duplicates() && !keys.contains(key) ==> keys.push(key).no_duplicates(),
{
    let pushed = keys.push(key);
    assert forall|other: Seq<char>| pushed.contains(other) implies other == key || keys.contains(
        other,
    ) by {
        let i = choose|i: int| 0 <= i < pushed.len() && pushed[i] == other;
        if i < keys.len() {
            assert(keys[i] == other);
        }
    }
    assert forall|other: Seq<char>| other == key || keys.contains(other) implies pushed.contains(
        other,
    ) by {
        if keys.contains(other) {
            let i = choose|i: int| 0 <= i < keys.len() && keys[i] == other;
            assert(pushed[i] == other);
        } else {
            assert(pushed[keys.len() as int] == other);
        }
    }
}

/// The keys before position `at`, and the key at `at`, which is not among
/// them, make up the keys before the next position.
proof fn lemma_next_key(keys: Seq<Seq<char>>, at: int)
    requires
        0 <= at < keys.len(),
        keys.no_duplicates(),
    ensures
        !keys.take(at).contains(keys[at]),
        forall|other: Seq<char>|
            #![trigger keys.take(at + 1).contains(other)]
            #![trigger keys.take(at).contains(other)]
            keys.take(at + 1).contains(other) <==> other == keys[at] || keys.take(at).contains(
                other,
            ),
{
    assert(keys.take(at + 1) == keys.take(at).push(keys[at]));
    lemma_pushed_key(keys.take(at), keys[at]);
    if keys.take(at).contains(keys[at]) {
        let j = choose|j: int| 0 <= j < keys.take(at).len() && keys.take(at)[j] == keys[at];
        assert(keys[j] == keys[at]);
    }
}

/// What a list of keys holds after the key at `at` has been removed.
proof fn lemma_removed_key(keys: Seq<Seq<char>>, at: int)
    requires
        0 <= at < keys.len(),
        keys.no_duplicates(),
    ensures
        keys.remove(at).no_duplicates(),
        forall|other: Seq<char>|
            #![trigger keys.remove(at).contains(other)]
            #![trigger keys.contains(other)]
            keys.remove(at).contains(other) <==> other != keys[at] && keys.contains(other),
{
    let removed = keys.remove(at);
    assert forall|other: Seq<char>| removed.contains(other) implies other != keys[at]
        && keys.contains(other) by {
        let i = choose|i: int| 0 <= i < removed.len() && removed[i] == other;
        if i < at {
            assert(keys[i] == other);
        } else {
            assert(keys[i + 1] == other);
        }
    }
    assert forall|other: Seq<char>| other != keys[at] && keys.contains(other) implies removed.contains(
        other,
    ) by {
        let i = choose|i: int| 0 <= i < keys.len() && keys[i] == other;
        if i < at {
            assert(removed[i] == other);
        } else {
            assert(removed[i - 1] == other);
        }
    }
}

/// Puts `slot` under `key`, in place of what was there.
fn install(slots: &mut StringHashMap<Slot>, index: &mut Vec<String>, key: &str, slot: Slot)
    requires
        indexed(old(slots)@, old(index).deep_view()),
    ensures
        indexed(final(slots)@, final(index).deep_view()),
        final(slots)@ == old(slots)@.insert(key@, slot),
{
    if !slots.contains_key(key) {
        index.push(key.to_owned());
        proof {
            assert(index.deep_view() == old(index).deep_view().push(key@));
            lemma_pushed_key(old(index).deep_view(), key@);
        }
    }
    slots.insert(key.to_owned(), slot);
}

/// Removes `key` and what is stored under it.
#[verifier::loop_isolation(false)]
fn evict(slots: &mut StringHashMap<Slot>, index: &mut Vec<String>, key: &str)
    requires
        indexed(old(slots)@, old(index).deep_view()),
    ensures
        indexed(final(slots)@, final(index).deep_view()),
        final(slots)@ == old(slots)@.remove(key@),
{
    let ghost keys = index.deep_view();
    let mut i: usize = 0;
    while i < index.len()
        invariant
            i <= index@.len(),
            index@ == old(index)@,
            slots@ == old(slots)@,
            !keys.take(i as int).contains(key@),
        decreases index@.len() - i,
    {
        if same_text(index[i].as_str(), key) {
            index.remove(i);
            slots.remove(key);
            proof {
                assert(index.deep_view() == keys.remove(i as int));
                lemma_removed_key(keys, i as int);
            }
            return ;
        }
        proof {
            lemma_pushed_key(keys.take(i as int), keys[i as int]);
        }
        i += 1;
    }
    proof {
        assert(keys.take(i as int) == keys);
    }
}

/// The slots whose entries are still present at time `now`.
spec fn live_slots(slots: Map<Seq<char>, Slot>, now: nat) -> Map<Seq<char>, Slot> {
    Map::new(
        |key: Seq<char>| slots.contains_key(key) && is_live(slots[key].record(), now),
        |key: Seq<char>| slots[key],
    )
}

/// Removes every entry that has expired by time `now`.
#[verifier::loop_isolation(false)]
fn sweep(slots: &mut StringHashMap<Slot>, index: &mut Vec<String>, now: u64)
    requires
        indexed(old(slots)@, old(index).deep_view()),
    ensures
        indexed(final(slots)@, final(index).deep_view()),
        final(slots)@ == live_slots(old(slots)@, now as nat),
{
    let ghost before = slots@;
    let ghost keys = index.deep_view();
    let mut kept: Vec<String> = Vec::new();
    let mut i: usize = 0;
    while i < index.len()
        invariant
            i <= index@.len(),
            index@ == old(index)@,
            kept.deep_view().no_duplicates(),
            forall|key: Seq<char>|
                #![trigger kept.deep_view().contains(key)]
                #![trigger keys.take(i as int).contains(key)]
                kept.deep_view().contains(key) <==> keys.take(i as int).contains(key) && is_live(
                    before[key].record(),
                    now as nat,
                ),
            forall|key: Seq<char>|
                #![trigger slots@.contains_key(key)]
                #![trigger before.contains_key(key)]
                slots@.contains_key(key) <==> before.contains_key(key) && (is_live(
                    before[key].record(),
                    now as nat,
                ) || !keys.take(i as int).contains(key)),
            forall|key: Seq<char>| #[trigger] slots@.contains_key(key) ==> slots@[key] == before[key],
        decreases index@.len() - i,
    {
        let ghost key = keys[i as int];
        let ghost kept_keys = kept.deep_view();
        proof {
            lemma_next_key(keys, i as int);
        }
        let live = match slots.get(index[i].as_str()) {
            Some(slot) => slot.live_at(now),
            None => false,
        };
        if live {
            kept.push(index[i].clone());
            proof {
                assert(kept.deep_view() == kept_keys.push(key));
                lemma_pushed_key(kept_keys, key);
            }
        } else {
            slots.remove(index[i].as_str());
        }
        i += 1;
    }
    *index = kept;
    proof {
        assert(keys.take(i as int) == keys);
    }
}

/// The keys of `index` that match `pattern`.
fn list_matching(index: &Vec<String>, pattern: &str) -> (listed: Vec<String>)
    requires
        index.deep_view().no_duplicates(),
    ensures
        listed.deep_view().no_duplicates(),
        forall|key: Seq<char>|
            listed.deep_view().contains(key) <==> index.deep_view().contains(key) && glob_matches(
                pattern@,
                key,
            ),
{
    let ghost keys = index.deep_view();
    let mut listed: Vec<String> = Vec::new();
    let mut i: usize = 0;
    while i < index.len()
        invariant
            i <= index@.len(),
            keys == index.deep_view(),
            keys.no_duplicates(),
            listed.deep_view().no_duplicates(),
            forall|key: Seq<char>|
                listed.deep_view().contains(key) <==> keys.take(i as int).contains(key)
                    && glob_matches(pattern@, key),
        decreases index@.len() - i,
    {
        let ghost key = keys[i as int];
        let ghost listed_keys = listed.deep_view();
        proof {
            lemma_next_key(keys, i as int);
        }
        if matches_glob(pattern, index[i].as_str()) {
            listed.push(index[i].clone());
            proof {
                assert(listed.deep_view() == listed_keys.push(key));
                lemma_pushed_key(listed_keys, key);
            }
        }
        i += 1;
    }
    proof {
        assert(keys.take(i as int) == keys);
    }
    listed
}

/// The deadline of a slot as a time.
spec fn instant_of(deadline: Option<u128>) -> Option<nat> {
    match deadline {
        Some(deadline) => Some(deadline as nat),
        None => None,
    }
}

/// A value that is stored without expiry is read back, whenever the read
/// comes, and the read leaves the store as it is.
pub proof fn lemma_set_then_get(
    records: Map<Seq<char>, Record>,
    key: Seq<char>,
    value: Seq<char>,
    now: nat,
)
    ensures
        ({
            let written = records.insert(key, Record { value, expires_at: None });
            &&& live_value(written, key, now) == Some(value)
            &&& after_read(written, key, now) == written
        }),
{
}

/// An entry stored with a time to live of zero is absent from every read
/// that does not precede the write, and such a read removes it.
pub proof fn lemma_zero_ttl_is_expired(
    records: Map<Seq<char>, Record>,
    key: Seq<char>,
    value: Seq<char>,
    written_at: nat,
    now: nat,
)
    requires
        written_at <= now,
    ensures
        ({
            let written = records.insert(key, expiring_record(value, 0, written_at));
            &&& live_value(written, key, now) is None
            &&& !after_read(written, key, now).contains_key(key)
        }),
{
}

/// An entry stored with a time to live is read back by every read that
/// comes before the time to live has passed, and by no read from then on.
pub proof fn lemma_ttl_decides_expiry(
    records: Map<Seq<char>, Record>,
    key: Seq<char>,
    value: Seq<char>,
    ttl_ms: nat,
    written_at: nat,
    now: nat,
)
    ensures
        ({
            let written = records.insert(key, expiring_record(value, ttl_ms, written_at));
            live_value(written, key, now) == if now < written_at + ttl_ms {
                Some(value)
            } else {
                None
            }
        }),
{
}

/// A second write to a key replaces the first: a read finds the second
/// value, and the store is as if the first write had not happened.
pub proof fn lemma_overwrite(
    records: Map<Seq<char>, Record>,
    key: Seq<char>,
    first: Record,
    second: Seq<char>,
    now: nat,
)
    ensures
        ({
            let written = records.insert(key, first).insert(
                key,
                Record { value: second, expires_at: None },
            );
            &&& live_value(written, key, now) == Some(second)
            &&& written == records.insert(key, Record { value: second, expires_at: None })
        }),
{
    assert(records.insert(key, first).insert(key, Record { value: second, expires_at: None })
        =~= records.insert(key, Record { value: second, expires_at: None }));
}

/// A read of a key that was never stored finds nothing and changes nothing,
/// so the next read finds nothing either.
pub proof fn lemma_miss_is_stable(
    records: Map<Seq<char>, Record>,
    key: Seq<char>,
    now: nat,
    later: nat,
)
    requires
        !records.contains_key(key),
    ensures
        live_value(records, key, now) is None,
        after_read(records, key, now) == records,
        live_value(after_read(records, key, now), key, later) is None,
{
}

/// Whatever a read found, the key that it did not find stays missing: once
/// a read has returned nothing, every read that follows it returns nothing
/// until the key is written again.
pub proof fn lemma_miss_repeats(
    records: Map<Seq<char>, Record>,
    key: Seq<char>,
    now: nat,
    later: nat,
)
    requires
        live_value(records, key, now) is None,
    ensures
        live_value(after_read(records, key, now), key, later) is None,
{
}

/// The pattern `*` lists every key that is present, and no key that has
/// expired.
pub proof fn lemma_star_lists_live_keys(records: Map<Seq<char>, Record>, now: nat)
    ensures
        matching_keys(records, seq!['*'], now) == live_records(records, now).dom(),
{
    assert forall|key: Seq<char>|
        matching_keys(records, seq!['*'], now).contains(key) <==> live_records(
            records,
            now,
        ).dom().contains(key) by {
        lemma_star_matches_everything(key);
    }
}

/// An entry that has expired is not listed, whatever the pattern, and the
/// listing removes it.
pub proof fn lemma_expired_keys_are_not_listed(
    records: Map<Seq<char>, Record>,
    pattern: Seq<char>,
    key: Seq<char>,
    now: nat,
)
    requires
        records.contains_key(key),
        !is_live(records[key], now),
    ensures
        !matching_keys(records, pattern, now).contains(key),
        !live_records(records, now).contains_key(key),
{
}

} // verus!

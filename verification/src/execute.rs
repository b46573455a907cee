//! Command dispatch: what each request does to the store, and the reply it
//! gets.

use vstd::prelude::*;
use crate::clock::clock_millis;
use crate::command::{Command, CommandView};
use crate::reply::{array_reply, null_reply, simple_reply, unknown_reply};
use crate::reply::{encode_array, encode_simple};
use crate::store::{Database, Record};
use crate::store::{
    after_read, config_value, expiring_record, is_live, live_records, live_value, matching_keys,
};
use crate::text::{sort_texts, text_order, lemma_text_leq_is_total_order};

verus! {

/// Whether `listed` holds exactly the keys of `keys`, each once.
pub open spec fn lists(listed: Seq<Seq<char>>, keys: Set<Seq<char>>) -> bool {
    listed.no_duplicates() && listed.to_set() == keys
}

/// The keys of a finite set, each once, in the listing order.
pub open spec fn sorted_listing(keys: Set<Seq<char>>) -> Seq<Seq<char>> {
    (choose|listed: Seq<Seq<char>>| lists(listed, keys)).sort_by(text_order())
}

/// Two listings of the same keys, each key once, hold the same elements.
proof fn lemma_listings_agree(a: Seq<Seq<char>>, b: Seq<Seq<char>>)
    requires
        a.no_duplicates(),
        b.no_duplicates(),
        a.to_set() == b.to_set(),
    ensures
        a.to_multiset() == b.to_multiset(),
{
    a.lemma_multiset_has_no_duplicates();
    b.lemma_multiset_has_no_duplicates();
    assert forall|key: Seq<char>| a.to_multiset().count(key) == b.to_multiset().count(key) by {
        vstd::seq_lib::to_multiset_contains(a, key);
        vstd::seq_lib::to_multiset_contains(b, key);
        assert(b.contains(key) == b.to_set().contains(key));
    }
}

/// However a set of keys is listed, sorting the listing gives
/// `sorted_listing`: the keys of the set, each once, in ascending order.
pub proof fn lemma_sorted_listing(listed: Seq<Seq<char>>)
    requires
        listed.no_duplicates(),
    ensures
        sorted_listing(listed.to_set()) == listed.sort_by(text_order()),
        sorted_listing(listed.to_set()).to_set() == listed.to_set(),
        sorted_listing(listed.to_set()).no_duplicates(),
        vstd::relations::sorted_by(sorted_listing(listed.to_set()), text_order()),
{
    let keys = listed.to_set();
    assert(lists(listed, keys));
    let chosen = choose|listed: Seq<Seq<char>>| lists(listed, keys);
    lemma_text_leq_is_total_order();
    lemma_listings_agree(listed, chosen);
    listed.lemma_sort_by_ensures(text_order());
    chosen.lemma_sort_by_ensures(text_order());
    vstd::seq_lib::lemma_sorted_unique(
        chosen.sort_by(text_order()),
        listed.sort_by(text_order()),
        text_order(),
    );
    let sorted = listed.sort_by(text_order());
    assert forall|key: Seq<char>| sorted.to_set().contains(key) <==> keys.contains(key) by {
        vstd::seq_lib::to_multiset_contains(sorted, key);
        vstd::seq_lib::to_multiset_contains(listed, key);
    }
    listed.lemma_multiset_has_no_duplicates();
    sorted.lemma_multiset_has_no_duplicates_conv();
}

/// The reply to `command`, executed at time `now` against a store that
/// holds `records` and has the settings `config`.
pub open spec fn reply_to(
    command: CommandView,
    records: Map<Seq<char>, Record>,
    config: Seq<(Seq<char>, Seq<char>)>,
    now: nat,
) -> Seq<char> {
    match command {
        CommandView::Ping => simple_reply("PONG"@),
        CommandView::Echo(message) => simple_reply(message),
        CommandView::SetKey(_, _, _) => simple_reply("OK"@),
        CommandView::Get(key) => match live_value(records, key, now) {
            Some(value) => simple_reply(value),
            None => null_reply(),
        },
        CommandView::Keys(pattern) => array_reply(
            sorted_listing(matching_keys(records, pattern, now)),
        ),
        CommandView::ConfigGet(name) => match config_value(config, name) {
            Some(value) => array_reply(seq![name, value]),
            None => null_reply(),
        },
        CommandView::Unknown => unknown_reply(),
    }
}

/// What the store holds after `command` has been executed at time `now`.
pub open spec fn records_after(
    command: CommandView,
    records: Map<Seq<char>, Record>,
    now: nat,
) -> Map<Seq<char>, Record> {
    match command {
        CommandView::SetKey(key, value, None) => records.insert(
            key,
            Record { value, expires_at: None },
        ),
        CommandView::SetKey(key, value, Some(ttl_ms)) => records.insert(
            key,
            expiring_record(value, ttl_ms as nat, now),
        ),
        CommandView::Get(key) => after_read(records, key, now),
        CommandView::Keys(_) => live_records(records, now),
        _ => records,
    }
}

/// Executes `command` against `db` at time `now` and returns the reply.
pub fn execute_command_at(command: Command, db: &mut Database, now: u64) -> (resp: String)
    ensures
        resp@ == reply_to(command@, old(db)@, old(db).config(), now as nat),
        final(db)@ == records_after(command@, old(db)@, now as nat),
        final(db).config() == old(db).config(),
{
    match command {
        Command::Ping => encode_simple("PONG"),
        Command::Echo(message) => encode_simple(message.as_str()),
        Command::SetKey(key, value, ttl) => {
            match ttl {
                Some(ttl_ms) => db.set_with_expire_at(key.as_str(), value.as_str(), ttl_ms, now),
                None => db.set(key.as_str(), value.as_str()),
            }
            encode_simple("OK")
        },
        Command::Get(key) => match db.get_at(key.as_str(), now) {
            Some(value) => encode_simple(value.as_str()),
            None => "$-1\r\n".to_owned(),
        },
        Command::Keys(pattern) => {
            let listed = db.keys_at(pattern.as_str(), now);
            let sorted = sort_texts(listed);
            proof {
                lemma_sorted_listing(listed.deep_view());
            }
            encode_array(&sorted)
        },
        Command::ConfigGet(name) => match db.config_get(name.as_str()) {
            Some(value) => {
                let mut pair: Vec<String> = Vec::new();
                pair.push(name);
                pair.push(value);
                assert(pair.deep_view() == seq![name@, value@]);
                encode_array(&pair)
            },
            None => "$-1\r\n".to_owned(),
        },
        Command::Unknown => "-ERR unknown command\r\n".to_owned(),
    }
}

/// Executes `command` against `db` at the time that the clock shows and
/// returns the reply.
pub fn execute_command(command: Command, db: &mut Database) -> (resp: String)
    ensures
        exists|now: u64|
            #![trigger reply_to(command@, old(db)@, old(db).config(), now as nat)]
            resp@ == reply_to(command@, old(db)@, old(db).config(), now as nat) && final(db)@
                == records_after(command@, old(db)@, now as nat),
        final(db).config() == old(db).config(),
{
    let now = clock_millis();
    execute_command_at(command, db, now)
}

/// Executing a command never loses an entry that is still present at that
/// time, and changes no entry but the one that a `SET` writes: a read
/// removes what has expired and nothing else.
pub proof fn lemma_live_entries_are_kept(
    command: CommandView,
    records: Map<Seq<char>, Record>,
    key: Seq<char>,
    now: nat,
)
    requires
        records.contains_key(key),
        is_live(records[key], now),
        !(command matches CommandView::SetKey(written, _, _) && written == key),
    ensures
        records_after(command, records, now).contains_key(key),
        records_after(command, records, now)[key] == records[key],
{
}

/// Only a `SET` adds an entry to the store, and it adds the one it names.
pub proof fn lemma_only_set_adds_entries(
    command: CommandView,
    records: Map<Seq<char>, Record>,
    key: Seq<char>,
    now: nat,
)
    requires
        !records.contains_key(key),
        records_after(command, records, now).contains_key(key),
    ensures
        command matches CommandView::SetKey(written, _, _) && written == key,
{
}

/// A `GET` that follows a `SET` of the same key without expiry is answered
/// with the value that was set, whatever the two times are.
pub proof fn lemma_get_after_set_replies_value(
    records: Map<Seq<char>, Record>,
    config: Seq<(Seq<char>, Seq<char>)>,
    key: Seq<char>,
    value: Seq<char>,
    set_at: nat,
    get_at: nat,
)
    ensures
        reply_to(
            CommandView::Get(key),
            records_after(CommandView::SetKey(key, value, None), records, set_at),
            config,
            get_at,
        ) == simple_reply(value),
{
}

/// A `GET` that follows a `SET` with `PX 0` of the same key, and does not
/// precede it, is answered as a miss.
pub proof fn lemma_get_after_expired_set_replies_null(
    records: Map<Seq<char>, Record>,
    config: Seq<(Seq<char>, Seq<char>)>,
    key: Seq<char>,
    value: Seq<char>,
    set_at: nat,
    get_at: nat,
)
    requires
        set_at <= get_at,
    ensures
        reply_to(
            CommandView::Get(key),
            records_after(CommandView::SetKey(key, value, Some(0)), records, set_at),
            config,
            get_at,
        ) == null_reply(),
{
}

} // verus!

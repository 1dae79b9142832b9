//! What holds across calls: reads see the latest write, reopening and
//! compacting change no answer.
use vstd::prelude::*;
use vstd::utf8::{encode_utf8_decode_utf8, encode_utf8_valid_utf8, valid_utf8};
use crate::codec::{encode, lemma_parse_encode, lemma_record_starts_with_brace, Op};
use crate::store::{
    bytes_of, compacted_from, copies, empty_replay, gather, lemma_replay_append, record_value,
    replay, KvStore, Replay,
};

verus! {

/// What a read of `key` answers: `None` where the key has no location, else the
/// value that the record at its location in the log holds for it (`None` too
/// where that record is not `key`'s `Set` record).
pub open spec fn read_back(s: KvStore, key: Seq<u8>) -> Option<Seq<u8>> {
    if s.locations().contains_key(key) {
        let (o, l) = s.locations()[key];
        record_value(key, s.log().subrange(o as int, (o + l) as int))
    } else {
        None
    }
}

/// A read answers the store's value of the key, or `None` where it has none.
pub proof fn lemma_reads_match_view(s: KvStore, key: Seq<u8>)
    requires
        s.wf(),
    ensures
        read_back(s, key) == if s@.contains_key(key) {
            Some(s@[key])
        } else {
            None::<Seq<u8>>
        },
{
    s.lemma_wf();
    assert(s.locations().dom() == s@.dom());
    if s.locations().contains_key(key) {
        let (o, l) = s.locations()[key];
        let op = Op::Put { key, value: s@[key] };
        let rec = s.log().subrange(o as int, (o + l) as int);
        assert(rec == encode(op));
        lemma_parse_encode(op, Seq::empty());
        assert(rec + Seq::<u8>::empty() =~= rec);
    } else {
        assert(!s@.contains_key(key));
    }
}

/// A string's bytes are valid UTF-8 and tell the string apart from every other.
pub proof fn lemma_bytes_of(value: Seq<char>)
    ensures
        valid_utf8(bytes_of(value)),
        forall|t: Seq<char>| #[trigger] bytes_of(t) == bytes_of(value) ==> t == value,
{
    encode_utf8_valid_utf8(value);
    encode_utf8_decode_utf8(value);
    assert forall|t: Seq<char>| #[trigger] bytes_of(t) == bytes_of(value) implies t == value by {
        encode_utf8_decode_utf8(t);
    }
}

/// Read-your-writes: after `set(key, value)`, a read of `key` answers `value`,
/// whose bytes decode back to exactly `value`.
pub proof fn lemma_read_your_writes(before: KvStore, after: KvStore, key: Seq<char>, value: Seq<char>)
    requires
        before.wf(),
        after.wf(),
        after@ == before@.insert(bytes_of(key), bytes_of(value)),
    ensures
        read_back(after, bytes_of(key)) == Some(bytes_of(value)),
        valid_utf8(bytes_of(value)),
        forall|t: Seq<char>| #[trigger] bytes_of(t) == bytes_of(value) ==> t == value,
{
    lemma_reads_match_view(after, bytes_of(key));
    lemma_bytes_of(value);
}

/// A `set` or a `remove` of another key does not change what a read of `key`
/// answers; so a written value stays readable until `key` itself is set again
/// or removed.
pub proof fn lemma_other_key_unchanged(
    before: KvStore,
    after: KvStore,
    key: Seq<u8>,
    other: Seq<u8>,
    value: Seq<u8>,
)
    requires
        before.wf(),
        after.wf(),
        other != key,
        after@ == before@.insert(other, value) || after@ == before@.remove(other),
    ensures
        read_back(after, key) == read_back(before, key),
{
    lemma_reads_match_view(before, key);
    lemma_reads_match_view(after, key);
}

/// Overwrite: after `set(key, v1)` and then `set(key, v2)`, a read of `key`
/// answers `v2`.
pub proof fn lemma_overwrite(
    s0: KvStore,
    s1: KvStore,
    s2: KvStore,
    key: Seq<char>,
    v1: Seq<char>,
    v2: Seq<char>,
)
    requires
        s0.wf(),
        s1.wf(),
        s2.wf(),
        s1@ == s0@.insert(bytes_of(key), bytes_of(v1)),
        s2@ == s1@.insert(bytes_of(key), bytes_of(v2)),
    ensures
        read_back(s2, bytes_of(key)) == Some(bytes_of(v2)),
{
    lemma_reads_match_view(s2, bytes_of(key));
}

/// Remove-then-get: after `set(key, value)` and then `remove(key)`, a read of
/// `key` answers `None`, and a second `remove(key)` finds no key.
pub proof fn lemma_remove_then_get(
    s0: KvStore,
    s1: KvStore,
    s2: KvStore,
    key: Seq<char>,
    value: Seq<char>,
)
    requires
        s0.wf(),
        s1.wf(),
        s2.wf(),
        s1@ == s0@.insert(bytes_of(key), bytes_of(value)),
        s2@ == s1@.remove(bytes_of(key)),
    ensures
        read_back(s2, bytes_of(key)) is None,
        !s2@.contains_key(bytes_of(key)),
{
    lemma_reads_match_view(s2, bytes_of(key));
}

/// Persistence: opening a store on the log of a store yields that store's index,
/// values and dead-byte count, so every read answers the same.
pub proof fn lemma_persistence(s: KvStore, reopened: KvStore, key: Seq<u8>)
    requires
        s.wf(),
        reopened.wf(),
        reopened.log() == s.log(),
    ensures
        replay(s.log()) == Some(s.state()),
        reopened@ == s@,
        reopened.locations() == s.locations(),
        reopened.dead() == s.dead(),
        read_back(reopened, key) == read_back(s, key),
{
    s.lemma_wf();
    reopened.lemma_wf();
}

/// Compaction preserves semantics: a store with the same values as another
/// answers every read the same. `compact` keeps the values, and the contract of
/// each mutation gives the new values from the old ones alone (and `remove`
/// fails exactly where the key has no value), so after any sequence of
/// mutations a store that was compacted along the way and one that was not hold
/// the same values, and by this lemma answer every read the same.
pub proof fn lemma_same_values_same_reads(s: KvStore, t: KvStore, key: Seq<u8>)
    requires
        s.wf(),
        t.wf(),
        t@ == s@,
    ensures
        read_back(t, key) == read_back(s, key),
{
    lemma_reads_match_view(s, key);
    lemma_reads_match_view(t, key);
}

/// Bytes appended after the last record that do not start with `{` (such as
/// `garbage`) make the log fail to open.
pub proof fn lemma_garbage_tail_fails(log: Seq<u8>, tail: Seq<u8>)
    requires
        replay(log) is Some,
        tail.len() > 0,
        tail[0] != 0x7b,
    ensures
        replay(log + tail) is None,
{
    lemma_replay_append(log, tail, 0, empty_replay());
    assert((log + tail).skip(log.len() as int) =~= tail);
    lemma_record_starts_with_brace(tail);
}

/// Compaction bounds size: where one key is live, compacting leaves the log
/// holding that key's record alone, at offset 0.
pub proof fn lemma_compaction_single_key(
    s: KvStore,
    log: Seq<u8>,
    st: Replay,
    plan: Seq<(u64, u64)>,
    key: Seq<u8>,
)
    requires
        compacted_from(s, log, st, plan),
        st.index.dom() == set![key],
        st.index[key].0 + st.index[key].1 <= log.len(),
    ensures
        plan.len() == 1,
        s.log() == log.subrange(st.index[key].0 as int, (st.index[key].0 + st.index[key].1) as int),
        s.log().len() == st.index[key].1,
        s.locations()[key] == (0nat, st.index[key].1),
{
    let keys = choose|keys: Seq<Seq<u8>>| #[trigger] copies(s, log, st, plan, keys);
    assert(st.index.contains_key(key));
    let i = choose|i: int| 0 <= i < keys.len() && #[trigger] keys[i] == key;
    if keys.len() > 1 {
        let j = if i == 0 { 1int } else { 0int };
        assert(st.index.contains_key(keys[j]));
        assert(keys[j] != keys[i]);
        assert(st.index.dom().contains(keys[j]));
    }
    assert(i == 0);
    assert(plan.drop_last() =~= Seq::<(u64, u64)>::empty());
    assert(plan.take(0) =~= Seq::<(u64, u64)>::empty());
    assert(gather(log, Seq::<(u64, u64)>::empty()) =~= Seq::<u8>::empty());
    assert(gather(log, plan) =~= log.subrange(plan[0].0 as int, plan[0].0 + plan[0].1));
}

} // verus!

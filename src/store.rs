//! The storage engine: replaying the log into an index, the write path, the
//! read path and compaction.
//!
//! The engine owns no file. It is told the log's bytes when a store is opened,
//! hands back the bytes to append for each mutation, says where a key's record
//! lies for a read, and says which ranges to copy when it compacts. The file
//! layer around it performs exactly those reads and writes. The engine keeps a
//! ghost copy of the log it has been told about and of the map it stands for,
//! and its contracts are stated over them.
use vstd::prelude::*;
use vstd::utf8::*;
use crate::codec::{
    copy_bytes, decode_record, encode, encode_put, encode_remove, lemma_encode_len,
    lemma_parse_canonical, lemma_parse_encode, parse_record, Op, Record,
};
use crate::index::{agrees, bytes_eq, lemma_live_bytes_prefix, live_bytes, Entry, Index};

verus! {

/// Dead bytes beyond which the log is compacted.
pub const COMPACTION_THRESHOLD: u64 = 1024 * 1024;

/// The errors of the store.
#[derive(Debug)]
pub enum KvsError {
    /// `remove` of a key that is not in the store.
    KeyNotFound,
    /// The log holds bytes that are not a well-formed record, or a read found
    /// something other than the `Set` record of the key it asked for.
    BadFormat,
    /// A value read from the log is not valid UTF-8.
    BadUtf8,
    /// The file layer failed; the message says how.
    Io(String),
}

/// What replaying a log yields: the index, the value of each live key, and the
/// count of dead bytes.
pub struct Replay {
    pub index: Map<Seq<u8>, (nat, nat)>,
    pub values: Map<Seq<u8>, Seq<u8>>,
    pub dead: nat,
}

pub open spec fn empty_replay() -> Replay {
    Replay { index: Map::empty(), values: Map::empty(), dead: 0 }
}

/// The effect of the record `op`, which starts at `pos` and takes `n` bytes.
pub open spec fn step(st: Replay, op: Op, pos: nat, n: nat) -> Replay {
    let prior: nat = if st.index.contains_key(op_key(op)) {
        st.index[op_key(op)].1
    } else {
        0
    };
    match op {
        Op::Put { key, value } => Replay {
            index: st.index.insert(key, (pos, n)),
            values: st.values.insert(key, value),
            dead: st.dead + prior,
        },
        Op::Remove { key } => Replay {
            index: st.index.remove(key),
            values: st.values.remove(key),
            dead: st.dead + prior + n,
        },
        Op::Get { .. } => st,
    }
}

pub open spec fn op_key(op: Op) -> Seq<u8> {
    match op {
        Op::Put { key, .. } => key,
        Op::Remove { key } => key,
        Op::Get { key } => key,
    }
}

/// Replays the records of `log` from `pos` on, starting from `st`; `None` where
/// the bytes from some record boundary on are not a record.
pub open spec fn replay_from(log: Seq<u8>, pos: nat, st: Replay) -> Option<Replay>
    decreases log.len() - pos,
{
    if pos >= log.len() {
        Some(st)
    } else {
        match parse_record(log.skip(pos as int)) {
            None => None,
            Some((op, n)) => if 0 < n && pos + n <= log.len() {
                replay_from(log, pos + n, step(st, op, pos, n))
            } else {
                None
            },
        }
    }
}

/// What opening a store on `log` yields.
pub open spec fn replay(log: Seq<u8>) -> Option<Replay> {
    replay_from(log, 0, empty_replay())
}

/// Each range of `index` holds the `Set` record of its key and of the key's
/// value in `values`.
pub open spec fn puts_at(
    log: Seq<u8>,
    index: Map<Seq<u8>, (nat, nat)>,
    values: Map<Seq<u8>, Seq<u8>>,
) -> bool {
    &&& index.dom() == values.dom()
    &&& forall|k: Seq<u8>| #[trigger]
        index.contains_key(k) ==> index[k].0 + index[k].1 <= log.len() && log.subrange(
            index[k].0 as int,
            (index[k].0 + index[k].1) as int,
        ) == encode(Op::Put { key: k, value: values[k] })
}

/// The bytes of a string.
pub open spec fn bytes_of(s: Seq<char>) -> Seq<u8> {
    encode_utf8(s)
}

/// A record of a key and a value of these byte lengths can be appended to a log
/// of `log_len` bytes without its length leaving `u64`.
pub open spec fn fits(log_len: nat, key_len: nat, value_len: nat) -> bool {
    log_len + 6 * (key_len + value_len) + 32 <= u64::MAX
}

/// Appending to a log does not change how the log before it replays.
pub proof fn lemma_replay_append(log: Seq<u8>, e: Seq<u8>, pos: nat, st: Replay)
    requires
        pos <= log.len(),
        replay_from(log, pos, st) is Some,
    ensures
        replay_from(log + e, pos, st) == replay_from(log + e, log.len(), replay_from(log, pos, st)->0),
    decreases log.len() - pos,
{
    if pos < log.len() {
        let s = log.skip(pos as int);
        lemma_parse_canonical(s);
        let (op, n) = parse_record(s)->0;
        assert((log + e).skip(pos as int) =~= encode(op) + (log.skip((pos + n) as int) + e)) by {
            assert(s.take(n as int) == encode(op));
            assert(s =~= s.take(n as int) + log.skip((pos + n) as int));
        }
        lemma_parse_encode(op, log.skip((pos + n) as int) + e);
        lemma_replay_append(log, e, pos + n, step(st, op, pos, n));
    }
}

/// Replaying a log with one more record appended takes one more step.
pub proof fn lemma_replay_push(log: Seq<u8>, op: Op)
    requires
        replay(log) is Some,
    ensures
        replay(log + encode(op)) == Some(
            step(replay(log)->0, op, log.len(), encode(op).len()),
        ),
{
    let e = encode(op);
    lemma_replay_append(log, e, 0, empty_replay());
    assert((log + e).skip(log.len() as int) =~= e + Seq::<u8>::empty());
    lemma_parse_encode(op, Seq::<u8>::empty());
    lemma_encode_len(op);
    let st = replay(log)->0;
    assert(replay_from(log + e, (log.len() + e.len()) as nat, step(st, op, log.len(), e.len()))
        == Some(step(st, op, log.len(), e.len())));
}

/// A key's record stays where it was when bytes are appended to the log.
proof fn lemma_puts_at_append(
    log: Seq<u8>,
    e: Seq<u8>,
    index: Map<Seq<u8>, (nat, nat)>,
    values: Map<Seq<u8>, Seq<u8>>,
)
    requires
        puts_at(log, index, values),
    ensures
        puts_at(log + e, index, values),
{
    assert forall|k: Seq<u8>| #[trigger] index.contains_key(k) implies index[k].0 + index[k].1 <= (
    log + e).len() && (log + e).subrange(index[k].0 as int, (index[k].0 + index[k].1) as int)
        == encode(Op::Put { key: k, value: values[k] }) by {
        assert((log + e).subrange(index[k].0 as int, (index[k].0 + index[k].1) as int) =~= log.subrange(
            index[k].0 as int,
            (index[k].0 + index[k].1) as int,
        ));
    }
}

/// The value that a read of `record` for `key` yields: the value of the `Set`
/// record of `key` that `record` is, byte for byte.
pub open spec fn record_value(key: Seq<u8>, record: Seq<u8>) -> Option<Seq<u8>> {
    match parse_record(record) {
        Some((Op::Put { key: k, value: v }, n)) => if k == key && n == record.len() {
            Some(v)
        } else {
            None
        },
        _ => None,
    }
}

/// Relies on `String::from_utf8`: it returns the string whose UTF-8 encoding is
/// `b`, and fails exactly where `b` is not valid UTF-8.
#[verifier::external_body]
fn utf8_string(b: Vec<u8>) -> (r: Option<String>)
    ensures
        match r {
            Some(s) => encode_utf8(s@) == b@,
            None => !valid_utf8(b@),
        },
{
    String::from_utf8(b).ok()
}

/// The bytes of `log` in the ranges of `plan`, one range after the other.
pub open spec fn gather(log: Seq<u8>, plan: Seq<(u64, u64)>) -> Seq<u8>
    decreases plan.len(),
{
    if plan.len() == 0 {
        Seq::empty()
    } else {
        gather(log, plan.drop_last()) + log.subrange(
            plan.last().0 as int,
            plan.last().0 + plan.last().1,
        )
    }
}

/// `keys` names, in order, the live key (in `st`) whose record each range of
/// `plan` copies out of `log`, and `s` points each such key at its copy: at the
/// end of the copies before it.
pub open spec fn copies(
    s: KvStore,
    log: Seq<u8>,
    st: Replay,
    plan: Seq<(u64, u64)>,
    keys: Seq<Seq<u8>>,
) -> bool {
    &&& keys.len() == plan.len()
    &&& forall|i: int, j: int|
        0 <= i < keys.len() && 0 <= j < keys.len() && i != j ==> #[trigger] keys[i]
            != #[trigger] keys[j]
    &&& forall|k: Seq<u8>| #[trigger]
        st.index.contains_key(k) ==> exists|i: int| 0 <= i < keys.len() && #[trigger] keys[i] == k
    &&& forall|i: int|
        0 <= i < keys.len() ==> {
            &&& #[trigger] st.index.contains_key(keys[i])
            &&& st.index[keys[i]] == (plan[i].0 as nat, plan[i].1 as nat)
            &&& s.locations()[keys[i]] == (gather(log, plan.take(i)).len(), plan[i].1 as nat)
        }
}

/// `s` is the store that compacting a store in state `st` on the log `log`
/// yields, where `plan` lists the ranges copied: each live record once, and
/// nothing else.
pub open spec fn compacted_from(s: KvStore, log: Seq<u8>, st: Replay, plan: Seq<(u64, u64)>) -> bool {
    &&& s@ == st.values
    &&& s.locations().dom() == st.index.dom()
    &&& s.dead() == 0
    &&& s.log() == gather(log, plan)
    &&& s.log().len() == s.live()
    &&& exists|keys: Seq<Seq<u8>>| #[trigger] copies(s, log, st, plan, keys)
}

/// `s` is the store after a mutation that took a store to state `st` on the
/// log `log` (the old log with the new record appended): compacted, with the
/// ranges `plan` copied, exactly where the dead bytes of `st` pass the
/// threshold; else `st` on `log` as it is.
pub open spec fn after_append(
    s: KvStore,
    log: Seq<u8>,
    st: Replay,
    compaction: Option<Vec<(u64, u64)>>,
) -> bool {
    match compaction {
        None => st.dead <= COMPACTION_THRESHOLD && s.log() == log && s.state() == st,
        Some(plan) => st.dead > COMPACTION_THRESHOLD && compacted_from(s, log, st, plan@),
    }
}

/// The store: the index of the live keys, the length of the log, and the count
/// of dead bytes in it.
pub struct KvStore {
    index: Index,
    log_len: u64,
    uncompacted: u64,
    log: Ghost<Seq<u8>>,
    values: Ghost<Map<Seq<u8>, Seq<u8>>>,
}

impl KvStore {
    /// The live keys and their values.
    pub closed spec fn view(&self) -> Map<Seq<u8>, Seq<u8>> {
        self.values@
    }

    /// The log, as the file layer holds it.
    pub closed spec fn log(&self) -> Seq<u8> {
        self.log@
    }

    /// Where each live key's latest `Set` record lies: offset and length.
    pub closed spec fn locations(&self) -> Map<Seq<u8>, (nat, nat)> {
        self.index@
    }

    /// The count of dead bytes.
    pub closed spec fn dead(&self) -> nat {
        self.uncompacted as nat
    }

    /// The sum of the lengths of the live records.
    pub closed spec fn live(&self) -> nat {
        self.index.live()
    }

    /// The index, the values and the dead-byte count, as replaying the log
    /// yields them.
    pub open spec fn state(&self) -> Replay {
        Replay { index: self.locations(), values: self@, dead: self.dead() }
    }

    /// The store stands for its log: replaying the log yields its index, its
    /// values and its count of dead bytes, and each index entry holds its key's
    /// `Set` record.
    pub closed spec fn wf(&self) -> bool {
        &&& self.index.wf()
        &&& self.log_len as nat == self.log@.len()
        &&& replay(self.log@) == Some(self.state())
        &&& puts_at(self.log@, self.index@, self.values@)
        &&& self.uncompacted + self.index.live() <= self.log_len
    }

    /// What a well-formed store guarantees to those outside this module.
    pub proof fn lemma_wf(&self)
        requires
            self.wf(),
        ensures
            replay(self.log()) == Some(self.state()),
            puts_at(self.log(), self.locations(), self@),
            self.dead() + self.live() <= self.log().len(),
            self.log().len() <= u64::MAX,
    {
    }

    /// An empty store, on an empty log.
    pub fn new() -> (s: KvStore)
        ensures
            s.wf(),
            s.log() == Seq::<u8>::empty(),
            s@ == Map::<Seq<u8>, Seq<u8>>::empty(),
            s.locations() == Map::<Seq<u8>, (nat, nat)>::empty(),
            s.dead() == 0,
    {
        let s = KvStore {
            index: Index::new(),
            log_len: 0,
            uncompacted: 0,
            log: Ghost(Seq::empty()),
            values: Ghost(Map::empty()),
        };
        assert(s.state() == empty_replay());
        s
    }

    /// Opens a store on the log `log`, replaying its records: a `Set` record
    /// points its key at itself, a `Rm` record takes its key out, and both count
    /// what they make dead. Fails with `BadFormat` where some record is not well
    /// formed.
    pub fn open(log: &[u8]) -> (r: Result<KvStore, KvsError>)
        requires
            log@.len() <= u64::MAX,
        ensures
            match r {
                Ok(s) => s.wf() && s.log() == log@ && replay(log@) == Some(s.state()),
                Err(e) => replay(log@) is None && e == KvsError::BadFormat,
            },
    {
        let mut index = Index::new();
        let mut dead: u64 = 0;
        let mut pos: usize = 0;
        let ghost mut values: Map<Seq<u8>, Seq<u8>> = Map::empty();
        assert(Replay { index: index@, values, dead: dead as nat } == empty_replay());
        while pos < log.len()
            invariant
                pos <= log@.len(),
                log@.len() <= u64::MAX,
                index.wf(),
                replay(log@) == replay_from(
                    log@,
                    pos as nat,
                    Replay { index: index@, values, dead: dead as nat },
                ),
                puts_at(log@, index@, values),
                dead + index.live() <= pos,
            decreases log@.len() - pos,
        {
            let ghost st = Replay { index: index@, values, dead: dead as nat };
            proof {
                lemma_parse_canonical(log@.skip(pos as int));
            }
            match decode_record(log, pos) {
                None => {
                    return Err(KvsError::BadFormat);
                },
                Some((rec, n)) => {
                    let ghost op = rec@;
                    let start = pos as u64;
                    let n64 = n as u64;
                    assert(log@.subrange(pos as int, pos + n) =~= log@.skip(pos as int).take(
                        n as int,
                    ));
                    match rec {
                        Record::Put { key, value } => {
                            let ghost k = key@;
                            if let Some(l) = index.insert(key, start, n64) {
                                dead = dead + l;
                            }
                            proof {
                                values = values.insert(k, value@);
                            }
                        },
                        Record::Remove { key } => {
                            if let Some(l) = index.remove(key.as_slice()) {
                                dead = dead + l;
                            }
                            dead = dead + n64;
                            proof {
                                values = values.remove(key@);
                            }
                        },
                        Record::Get { .. } => {},
                    }
                    assert(Replay { index: index@, values, dead: dead as nat } == step(
                        st,
                        op,
                        pos as nat,
                        n as nat,
                    ));
                    assert(values.dom() =~= index@.dom());
                    pos = pos + n;
                },
            }
        }
        let s = KvStore {
            index,
            log_len: log.len() as u64,
            uncompacted: dead,
            log: Ghost(log@),
            values: Ghost(values),
        };
        Ok(s)
    }

    /// The length of the log.
    pub fn log_len(&self) -> (r: u64)
        requires
            self.wf(),
        ensures
            r == self.log().len(),
    {
        self.log_len
    }

    /// The count of dead bytes in the log.
    pub fn dead_bytes(&self) -> (r: u64)
        ensures
            r == self.dead(),
    {
        self.uncompacted
    }

    /// Whether the dead bytes exceed the threshold, so that the log is due for
    /// compaction.
    pub fn needs_compaction(&self) -> (r: bool)
        ensures
            r == (self.dead() > COMPACTION_THRESHOLD),
    {
        self.uncompacted > COMPACTION_THRESHOLD
    }

    /// Whether a record of `key` and `value` can be appended without the log's
    /// length leaving `u64`.
    pub fn has_room(&self, key: &str, value: &str) -> (r: bool)
        requires
            self.wf(),
        ensures
            r == fits(self.log().len(), bytes_of(key@).len(), bytes_of(value@).len()),
    {
        let k = key.as_bytes().len() as u128;
        let v = value.as_bytes().len() as u128;
        let need: u128 = 6 * (k + v) + 32;
        self.log_len as u128 + need <= u64::MAX as u128
    }

    /// Sets `key` to `value`. Returns the `Set` record to append to the log; the
    /// key now points at it, and the record it pointed at before, if any, counts
    /// as dead. Where the dead bytes then pass `COMPACTION_THRESHOLD`, the store
    /// is compacted in the same call, and the second result lists the ranges of
    /// the log (with the record appended) to copy into the new log.
    pub fn set(&mut self, key: String, value: String) -> (r: (Vec<u8>, Option<Vec<(u64, u64)>>))
        requires
            old(self).wf(),
            fits(old(self).log().len(), bytes_of(key@).len(), bytes_of(value@).len()),
        ensures
            final(self).wf(),
            r.0@ == encode(Op::Put { key: bytes_of(key@), value: bytes_of(value@) }),
            final(self)@ == old(self)@.insert(bytes_of(key@), bytes_of(value@)),
            final(self).dead() <= COMPACTION_THRESHOLD,
            after_append(
                *final(self),
                old(self).log() + r.0@,
                step(
                    old(self).state(),
                    Op::Put { key: bytes_of(key@), value: bytes_of(value@) },
                    old(self).log().len(),
                    r.0@.len(),
                ),
                r.1,
            ),
    {
        let rec = self.append_put(key.as_str().as_bytes(), value.as_str().as_bytes());
        let compaction = if self.uncompacted > COMPACTION_THRESHOLD {
            Some(self.compact())
        } else {
            None
        };
        (rec, compaction)
    }

    /// Removes `key`. Fails with `KeyNotFound`, and changes nothing, where `key`
    /// is not in the store; else returns the `Rm` record (the tombstone) to
    /// append to the log, and the key's record and the tombstone count as dead.
    /// Where the dead bytes then pass `COMPACTION_THRESHOLD`, the store is
    /// compacted in the same call, as for `set`.
    pub fn remove(&mut self, key: String) -> (r: Result<(Vec<u8>, Option<Vec<(u64, u64)>>), KvsError>)
        requires
            old(self).wf(),
            old(self)@.contains_key(bytes_of(key@)) ==> fits(
                old(self).log().len(),
                bytes_of(key@).len(),
                0,
            ),
        ensures
            final(self).wf(),
            match r {
                Ok((rec, compaction)) => {
                    &&& old(self)@.contains_key(bytes_of(key@))
                    &&& rec@ == encode(Op::Remove { key: bytes_of(key@) })
                    &&& final(self)@ == old(self)@.remove(bytes_of(key@))
                    &&& final(self).dead() <= COMPACTION_THRESHOLD
                    &&& after_append(
                        *final(self),
                        old(self).log() + rec@,
                        step(
                            old(self).state(),
                            Op::Remove { key: bytes_of(key@) },
                            old(self).log().len(),
                            rec@.len(),
                        ),
                        compaction,
                    )
                },
                Err(e) => {
                    &&& !old(self)@.contains_key(bytes_of(key@))
                    &&& e == KvsError::KeyNotFound
                    &&& *final(self) == *old(self)
                },
            },
    {
        let rec = match self.append_remove(key.as_str().as_bytes()) {
            Ok(rec) => rec,
            Err(e) => {
                return Err(e);
            },
        };
        let compaction = if self.uncompacted > COMPACTION_THRESHOLD {
            Some(self.compact())
        } else {
            None
        };
        Ok((rec, compaction))
    }

    /// The value of `key`, read from `log`, the log's bytes as the file layer
    /// holds them: `None` where `key` is not in the store. Where `log` is the
    /// store's log, the value is `key`'s, and the only failure is `BadUtf8`,
    /// for a value (replayed from a log) that is not valid UTF-8. A caller that
    /// reads the file range by range uses `locate` and `read_value` instead.
    pub fn get(&self, key: String, log: &[u8]) -> (r: Result<Option<String>, KvsError>)
        requires
            self.wf(),
        ensures
            !self@.contains_key(bytes_of(key@)) ==> r == Ok::<Option<String>, KvsError>(None),
            self@.contains_key(bytes_of(key@)) && log@ == self.log() ==> match r {
                Ok(Some(s)) => bytes_of(s@) == self@[bytes_of(key@)],
                Ok(None) => false,
                Err(e) => !valid_utf8(self@[bytes_of(key@)]) && e == KvsError::BadUtf8,
            },
    {
        match self.locate(key.as_str()) {
            None => Ok(None),
            Some((o, l)) => {
                let len = log.len();
                if o > len as u64 || l > len as u64 - o {
                    return Err(KvsError::BadFormat);
                }
                let ghost kb = bytes_of(key@);
                proof {
                    if log@ == self.log() {
                        let op = Op::Put { key: kb, value: self@[kb] };
                        let rec = log@.subrange(o as int, (o + l) as int);
                        assert(rec == encode(op));
                        lemma_parse_encode(op, Seq::empty());
                        assert(rec + Seq::<u8>::empty() =~= rec);
                    }
                }
                let record = vstd::slice::slice_subrange(log, o as usize, (o + l) as usize);
                match KvStore::read_value(key.as_str(), record) {
                    Ok(v) => Ok(Some(v)),
                    Err(e) => Err(e),
                }
            },
        }
    }

    /// Appends the `Set` record of `kb` and `vb` and points the key at it.
    fn append_put(&mut self, kb: &[u8], vb: &[u8]) -> (r: Vec<u8>)
        requires
            old(self).wf(),
            fits(old(self).log().len(), kb@.len(), vb@.len()),
        ensures
            final(self).wf(),
            r@ == encode(Op::Put { key: kb@, value: vb@ }),
            final(self).log() == old(self).log() + r@,
            final(self).state() == step(
                old(self).state(),
                Op::Put { key: kb@, value: vb@ },
                old(self).log().len(),
                r@.len(),
            ),
    {
        let rec = encode_put(kb, vb);
        let ghost op = Op::Put { key: kb@, value: vb@ };
        proof {
            lemma_encode_len(op);
            lemma_replay_push(self.log@, op);
            lemma_puts_at_append(self.log@, rec@, self.index@, self.values@);
        }
        let start = self.log_len;
        let n = rec.len() as u64;
        if let Some(l) = self.index.insert(copy_bytes(kb), start, n) {
            self.uncompacted = self.uncompacted + l;
        }
        self.log_len = start + n;
        self.log = Ghost(self.log@ + rec@);
        self.values = Ghost(self.values@.insert(kb@, vb@));
        proof {
            assert(self.log@.subrange(start as int, start + n) =~= rec@);
            assert(self.values@.dom() =~= self.index@.dom());
        }
        rec
    }

    /// Takes `kb` out and appends its tombstone; fails with `KeyNotFound`, and
    /// changes nothing, where `kb` is not in the store.
    fn append_remove(&mut self, kb: &[u8]) -> (r: Result<Vec<u8>, KvsError>)
        requires
            old(self).wf(),
            old(self)@.contains_key(kb@) ==> fits(old(self).log().len(), kb@.len(), 0),
        ensures
            final(self).wf(),
            match r {
                Ok(rec) => {
                    &&& old(self)@.contains_key(kb@)
                    &&& rec@ == encode(Op::Remove { key: kb@ })
                    &&& final(self).log() == old(self).log() + rec@
                    &&& final(self).state() == step(
                        old(self).state(),
                        Op::Remove { key: kb@ },
                        old(self).log().len(),
                        rec@.len(),
                    )
                },
                Err(e) => {
                    &&& !old(self)@.contains_key(kb@)
                    &&& e == KvsError::KeyNotFound
                    &&& *final(self) == *old(self)
                },
            },
    {
        let ghost op = Op::Remove { key: kb@ };
        let prior = match self.index.remove(kb) {
            Some(l) => l,
            None => {
                assert(self.index@ =~= old(self).index@);
                return Err(KvsError::KeyNotFound);
            },
        };
        let rec = encode_remove(kb);
        proof {
            lemma_encode_len(op);
            lemma_replay_push(self.log@, op);
            lemma_puts_at_append(self.log@, rec@, self.index@, self.values@.remove(kb@));
        }
        let n = rec.len() as u64;
        self.uncompacted = self.uncompacted + prior + n;
        self.log_len = self.log_len + n;
        self.log = Ghost(self.log@ + rec@);
        self.values = Ghost(self.values@.remove(kb@));
        proof {
            assert(self.values@.dom() =~= self.index@.dom());
        }
        Ok(rec)
    }

    /// Where the record of `key`'s value lies in the log: its offset and length;
    /// `None` where `key` is not in the store.
    pub fn locate(&self, key: &str) -> (r: Option<(u64, u64)>)
        requires
            self.wf(),
        ensures
            match r {
                Some((o, l)) => self.locations().contains_key(bytes_of(key@))
                    && self.locations()[bytes_of(key@)] == (o as nat, l as nat),
                None => !self@.contains_key(bytes_of(key@)),
            },
    {
        self.index.get(key.as_bytes())
    }

    /// The value that the record `record`, read from the log where `locate`
    /// said, holds for `key`. Fails with `BadFormat` where `record` is not
    /// exactly one `Set` record of `key`, and with `BadUtf8` where its value is
    /// not valid UTF-8.
    pub fn read_value(key: &str, record: &[u8]) -> (r: Result<String, KvsError>)
        ensures
            match record_value(bytes_of(key@), record@) {
                None => r == Err::<String, KvsError>(KvsError::BadFormat),
                Some(v) => match r {
                    Ok(s) => bytes_of(s@) == v,
                    Err(e) => !valid_utf8(v) && e == KvsError::BadUtf8,
                },
            },
    {
        assert(record@.skip(0) =~= record@);
        match decode_record(record, 0) {
            Some((Record::Put { key: k, value: v }, n)) => {
                if n == record.len() && bytes_eq(k.as_slice(), key.as_bytes()) {
                    match utf8_string(v) {
                        Some(s) => Ok(s),
                        None => Err(KvsError::BadUtf8),
                    }
                } else {
                    Err(KvsError::BadFormat)
                }
            },
            _ => Err(KvsError::BadFormat),
        }
    }

    /// Compacts the log: returns the ranges of the live records, which the file
    /// layer copies one after the other into a new log that replaces the old
    /// one. Each key now points at its record in the new log, and nothing in it
    /// is dead.
    pub fn compact(&mut self) -> (plan: Vec<(u64, u64)>)
        requires
            old(self).wf(),
        ensures
            final(self).wf(),
            compacted_from(*final(self), old(self).log(), old(self).state(), plan@),
    {
        let ghost old_log = self.log@;
        let ghost vals = self.values@;
        let ghost old_index = self.index@;
        let ents: &Vec<Entry> = &self.index.entries;
        let n = ents.len();
        let mut plan: Vec<(u64, u64)> = Vec::new();
        let mut fresh = Index::new();
        let mut pos: u64 = 0;
        let ghost mut fresh_vals: Map<Seq<u8>, Seq<u8>> = Map::empty();
        let ghost mut new_log: Seq<u8> = Seq::empty();
        proof {
            lemma_live_bytes_prefix(ents@, 0);
            assert(ents@.take(0) =~= Seq::<Entry>::empty());
            assert(replay(new_log) == Some(
                Replay { index: fresh@, values: fresh_vals, dead: 0 },
            ));
        }
        let mut i: usize = 0;
        while i < n
            invariant
                i <= n == ents@.len(),
                agrees(ents@, old_index),
                puts_at(old_log, old_index, vals),
                live_bytes(ents@) <= old_log.len() <= u64::MAX,
                fresh.wf(),
                plan@.len() == i,
                forall|j: int|
                    0 <= j < i ==> #[trigger] plan@[j] == (ents@[j].offset, ents@[j].len),
                forall|j: int|
                    0 <= j < i ==> #[trigger] fresh@.contains_key(ents@[j].key@)
                        && fresh@[ents@[j].key@] == (
                        gather(old_log, plan@.take(j)).len(),
                        ents@[j].len as nat,
                    ),
                forall|k: Seq<u8>| #[trigger]
                    fresh@.contains_key(k) ==> exists|j: int|
                        0 <= j < i && #[trigger] ents@[j].key@ == k,
                forall|k: Seq<u8>| #[trigger]
                    fresh_vals.contains_key(k) ==> vals.contains_key(k) && fresh_vals[k] == vals[k],
                pos as nat == new_log.len(),
                pos as nat == fresh.live(),
                fresh.live() == live_bytes(ents@.take(i as int)),
                new_log == gather(old_log, plan@),
                replay(new_log) == Some(Replay { index: fresh@, values: fresh_vals, dead: 0 }),
                puts_at(new_log, fresh@, fresh_vals),
                forall|j: int|
                    0 <= j < i ==> plan@[j].0 + plan@[j].1 <= old_log.len(),
            decreases n - i,
        {
            let e = &ents[i];
            let ghost k = e.key@;
            let ghost v = vals[k];
            let ghost op = Op::Put { key: k, value: v };
            let ghost slice = old_log.subrange(e.offset as int, e.offset + e.len);
            proof {
                assert(old_index.contains_key(k));
                assert(slice == encode(op));
                if fresh@.contains_key(k) {
                    let j = choose|j: int| 0 <= j < i && #[trigger] ents@[j].key@ == k;
                    assert(ents@[j].key@ != ents@[i as int].key@);
                }
                lemma_live_bytes_prefix(ents@, i + 1);
                assert(ents@.take(i + 1).drop_last() =~= ents@.take(i as int));
                lemma_replay_push(new_log, op);
                lemma_puts_at_append(new_log, slice, fresh@, fresh_vals);
            }
            let ghost plan_before = plan@;
            let key = copy_bytes(e.key.as_slice());
            let prior = fresh.insert(key, pos, e.len);
            assert(prior is None);
            plan.push((e.offset, e.len));
            proof {
                assert(plan@.drop_last() =~= plan_before);
                assert(plan@.take(i as int) =~= plan_before);
                assert forall|j: int| 0 <= j < i implies plan@.take(j) == plan_before.take(j) by {
                    assert(plan@.take(j) =~= plan_before.take(j));
                }
                assert forall|j: int| 0 <= j < i implies ents@[j].key@ != k by {
                    assert(ents@[j].key@ != ents@[i as int].key@);
                }
                let old_pos = pos as int;
                assert((new_log + slice).subrange(old_pos, old_pos + e.len) =~= slice);
                fresh_vals = fresh_vals.insert(k, v);
                new_log = new_log + slice;
                assert(fresh@.dom() =~= fresh_vals.dom());
                assert forall|k2: Seq<u8>| #[trigger]
                    fresh@.contains_key(k2) implies exists|j: int|
                        0 <= j < i + 1 && #[trigger] ents@[j].key@ == k2 by {
                    if k2 == k {
                        assert(ents@[i as int].key@ == k2);
                    } else {
                        let j = choose|j: int| 0 <= j < i && #[trigger] ents@[j].key@ == k2;
                        assert(ents@[j].key@ == k2);
                    }
                }
            }
            pos = pos + e.len;
            i = i + 1;
        }
        proof {
            assert forall|k: Seq<u8>| fresh@.contains_key(k) <==> #[trigger] old_index.contains_key(k) by {
                if old_index.contains_key(k) {
                    let j = choose|j: int| 0 <= j < n && #[trigger] ents@[j].key@ == k;
                    assert(fresh@.contains_key(ents@[j].key@));
                }
                if fresh@.contains_key(k) {
                    let j = choose|j: int| 0 <= j < i && #[trigger] ents@[j].key@ == k;
                    assert(old_index.contains_key(ents@[j].key@));
                }
            }
            assert(fresh@.dom() =~= old_index.dom());
            assert(fresh_vals =~= vals);
            assert(ents@.take(n as int) =~= ents@);
        }
        let ghost keys = Seq::new(n as nat, |j: int| ents@[j].key@);
        self.index = fresh;
        self.log_len = pos;
        self.uncompacted = 0;
        self.log = Ghost(new_log);
        proof {
            assert forall|j: int| 0 <= j < keys.len() implies {
                &&& #[trigger] old_index.contains_key(keys[j])
                &&& old_index[keys[j]] == (plan@[j].0 as nat, plan@[j].1 as nat)
                &&& self.locations()[keys[j]] == (
                    gather(old_log, plan@.take(j)).len(),
                    plan@[j].1 as nat,
                )
            } by {
                assert(keys[j] == ents@[j].key@);
                assert(old_index.contains_key(ents@[j].key@));
                assert(plan@[j] == (ents@[j].offset, ents@[j].len));
            }
            assert forall|k: Seq<u8>| #[trigger] old_index.contains_key(k) implies exists|j: int|
                0 <= j < keys.len() && #[trigger] keys[j] == k by {
                let j = choose|j: int| 0 <= j < n && #[trigger] ents@[j].key@ == k;
                assert(keys[j] == k);
            }
            assert forall|a: int, b: int|
                0 <= a < keys.len() && 0 <= b < keys.len() && a != b implies #[trigger] keys[a]
                != #[trigger] keys[b] by {
                assert(keys[a] == ents@[a].key@ && keys[b] == ents@[b].key@);
            }
            assert(copies(*self, old_log, old(self).state(), plan@, keys));
        }
        plan
    }
}

} // verus!

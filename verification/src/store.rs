use vstd::prelude::*;
use crate::json::{JsonV, Fields, lookup, upsert, lemma_lookup_upsert};
use crate::kv::{ProgressV, read_body, write_body, cas_body, read_outcome, write_succeeded, lemma_body_fields};
use crate::log::{CommitV, commit_seek, commit_step, commit_end, AppendV, AppendPhase, append_step, offset_key, entry_json, lemma_entry_round_trip, lemma_entry_key_injective, lemma_offset_key_not_entry_key, LogReadV, ReadCommittedV, entry_key, parse_entry, read_open, read_step, committed_open, committed_step};
use crate::message::{MessageType, MessageV};
use crate::node::{NodeV, TaskV, counter_key, counter_value, resume, rpc_v, reply_v};

verus! {

/// A key-value store as a service keeps it: the value under each key.
pub type Store = Map<Seq<char>, JsonV>;

/// The fields of the error that a service replies to a read of a missing key.
pub open spec fn missing_key_fields() -> Fields {
    seq![("code"@, JsonV::UInt(20)), ("text"@, JsonV::Str("key does not exist"@))]
}

/// How a store answers a read request with the body `body`: the value under its
/// key, in a reply of the type `ok`, or the error for a missing key.
pub open spec fn answer_read(store: Store, ok: MessageType, body: Fields) -> (MessageType, Fields) {
    match lookup(body, "key"@) {
        Some(JsonV::Str(key)) => if store.contains_key(key) {
            (ok, seq![("value"@, store[key])])
        } else {
            (MessageType::Error, missing_key_fields())
        },
        _ => (MessageType::Error, missing_key_fields()),
    }
}

/// Runs a read of logs against a store, for at most `fuel` replies.
pub open spec fn run_read(s: LogReadV, p: ProgressV, store: Store, ok: MessageType, fuel: nat) -> (
    LogReadV,
    ProgressV,
)
    decreases fuel,
{
    match p {
        ProgressV::Call(_, body) => if fuel == 0 {
            (s, p)
        } else {
            let (kind, f) = answer_read(store, ok, body);
            let (s2, p2) = read_step(s, "lin-kv"@, kind, f);
            run_read(s2, p2, store, ok, (fuel - 1) as nat)
        },
        _ => (s, p),
    }
}

/// Runs a search of committed offsets against a store, for at most `fuel` replies.
pub open spec fn run_committed(
    s: ReadCommittedV,
    p: ProgressV,
    store: Store,
    ok: MessageType,
    fuel: nat,
) -> (ReadCommittedV, ProgressV)
    decreases fuel,
{
    match p {
        ProgressV::Call(_, body) => if fuel == 0 {
            (s, p)
        } else {
            let (kind, f) = answer_read(store, ok, body);
            let (s2, p2) = committed_step(s, "lin-kv"@, kind, f);
            run_committed(s2, p2, store, ok, (fuel - 1) as nat)
        },
        _ => (s, p),
    }
}

/// The entries of a log as a read reports them: each message with its offset,
/// the first at offset `o`.
pub open spec fn entries_from(o: u64, vs: Seq<JsonV>) -> Seq<JsonV> {
    Seq::new(vs.len(), |t: int| JsonV::Array(seq![JsonV::UInt((o + t) as u64), vs[t]]))
}

/// Whether `store` holds entries of the log `k` at the offsets from `o` on, with
/// the messages `vs` and the commit marks `cs`, and no entry at the offset after.
pub open spec fn holds_log(store: Store, k: Seq<char>, o: u64, vs: Seq<JsonV>, cs: Seq<bool>) -> bool {
    &&& o + vs.len() <= u64::MAX
    &&& cs.len() == vs.len()
    &&& forall|t: int|
        0 <= t < vs.len() ==> store.contains_key(#[trigger] entry_key(k, (o + t) as u64))
            && parse_entry(store[entry_key(k, (o + t) as u64)]) == Some((vs[t], cs[t]))
    &&& !store.contains_key(entry_key(k, (o + vs.len()) as u64))
}

proof fn lemma_answers(store: Store, ok: MessageType, key: Seq<char>)
    requires
        !(ok is Error),
    ensures
        answer_read(store, ok, read_body(key)) == if store.contains_key(key) {
            (ok, seq![("value"@, store[key])])
        } else {
            (MessageType::Error, missing_key_fields())
        },
        store.contains_key(key) ==> read_outcome(
            answer_read(store, ok, read_body(key)).0,
            answer_read(store, ok, read_body(key)).1,
        ) == Some(store[key]),
        !store.contains_key(key) ==> read_outcome(
            answer_read(store, ok, read_body(key)).0,
            answer_read(store, ok, read_body(key)).1,
        ) is None,
{
    reveal_strlit("type");
    reveal_strlit("key");
    reveal_strlit("code");
    reveal_strlit("text");
    let b = read_body(key);
    assert("type"@.len() != "key"@.len());
    assert(b[0].0 != "key"@);
    assert(b.drop_first()[0] == ("key"@, JsonV::Str(key)));
    assert(lookup(b.drop_first(), "key"@) == Some(JsonV::Str(key)));
    assert(lookup(b, "key"@) == Some(JsonV::Str(key)));
    let v = seq![("value"@, store[key])];
    assert(lookup(v, "value"@) == Some(store[key]));
    let m = missing_key_fields();
    assert("code"@[0] != "text"@[0]);
    assert(m[0].0 != "text"@);
    assert(m.drop_first()[0] == ("text"@, JsonV::Str("key does not exist"@)));
    assert(lookup(m.drop_first(), "text"@) == Some(JsonV::Str("key does not exist"@)));
    assert(lookup(m, "text"@) == Some(JsonV::Str("key does not exist"@)));
}

proof fn lemma_run_read_log(
    store: Store,
    ok: MessageType,
    k: Seq<char>,
    o: u64,
    vs: Seq<JsonV>,
    cs: Seq<bool>,
    i: nat,
)
    requires
        !(ok is Error),
        holds_log(store, k, o, vs, cs),
        i <= vs.len(),
    ensures
        run_read(
            LogReadV {
                offsets: seq![(k, o)],
                index: 0,
                next: (o + i) as u64,
                entries: entries_from(o, vs.take(i as int)),
                result: Seq::empty(),
            },
            ProgressV::Call("lin-kv"@, read_body(entry_key(k, (o + i) as u64))),
            store,
            ok,
            (vs.len() - i + 1) as nat,
        ) == (
            LogReadV {
                offsets: seq![(k, o)],
                index: 1,
                next: (o + vs.len()) as u64,
                entries: Seq::empty(),
                result: if vs.len() > 0 {
                    seq![(k, JsonV::Array(entries_from(o, vs)))]
                } else {
                    Seq::empty()
                },
            },
            ProgressV::Finished,
        ),
    decreases vs.len() - i,
{
    let key = entry_key(k, (o + i) as u64);
    lemma_answers(store, ok, key);
    let s = LogReadV {
        offsets: seq![(k, o)],
        index: 0,
        next: (o + i) as u64,
        entries: entries_from(o, vs.take(i as int)),
        result: Seq::empty(),
    };
    let p = ProgressV::Call("lin-kv"@, read_body(key));
    let fuel = (vs.len() - i + 1) as nat;
    let (kind, f) = answer_read(store, ok, read_body(key));
    let (s2, p2) = read_step(s, "lin-kv"@, kind, f);
    assert(run_read(s, p, store, ok, fuel) == run_read(s2, p2, store, ok, (fuel - 1) as nat));
    if i == vs.len() {
        assert(vs.take(i as int) =~= vs);
        let closed = LogReadV {
            result: if s.entries.len() > 0 {
                upsert(s.result, k, JsonV::Array(s.entries))
            } else {
                s.result
            },
            index: 1,
            entries: Seq::empty(),
            ..s
        };
        assert(!store.contains_key(key));
        assert((s2, p2) == read_open(closed, "lin-kv"@));
        assert(p2 == ProgressV::Finished);
        if vs.len() > 0 {
            assert(upsert(Seq::<(Seq<char>, JsonV)>::empty(), k, JsonV::Array(entries_from(o, vs)))
                =~= seq![(k, JsonV::Array(entries_from(o, vs)))]);
        } else {
            assert(s.entries =~= Seq::<JsonV>::empty());
        }
    } else {
        assert(entry_key(k, (o + i) as u64) == key);
        assert(store.contains_key(key));
        let n = vstd::wrapping::u64_specs::wrapping_add(s.next, 1);
        assert(n == (o + i + 1) as u64);
        assert(entries_from(o, vs.take(i as int)).push(JsonV::Array(seq![JsonV::UInt(s.next), vs[i as int]]))
            =~= entries_from(o, vs.take(i as int + 1)));
        lemma_run_read_log(store, ok, k, o, vs, cs, i + 1);
    }
}

/// A poll gives back what the log holds: reading the log `k` from the offset `o`
/// of a store that holds the messages `vs` at the offsets from `o` on, and no
/// entry after them, finishes after one read more than there are messages, with
/// the messages at their offsets, in order (and nothing for the log when it holds
/// none from `o` on).
pub proof fn lemma_poll_reads_log(
    store: Store,
    ok: MessageType,
    k: Seq<char>,
    o: u64,
    vs: Seq<JsonV>,
    cs: Seq<bool>,
)
    requires
        !(ok is Error),
        holds_log(store, k, o, vs, cs),
    ensures
        ({
            let (s0, p0) = read_open(
                LogReadV {
                    offsets: seq![(k, o)],
                    index: 0,
                    next: 0,
                    entries: Seq::empty(),
                    result: Seq::empty(),
                },
                "lin-kv"@,
            );
            let (s, p) = run_read(s0, p0, store, ok, (vs.len() + 1) as nat);
            &&& p == ProgressV::Finished
            &&& s.result == if vs.len() > 0 {
                seq![(k, JsonV::Array(entries_from(o, vs)))]
            } else {
                Seq::<(Seq<char>, JsonV)>::empty()
            }
        }),
{
    assert(entries_from(o, vs.take(0)) =~= Seq::<JsonV>::empty());
    lemma_run_read_log(store, ok, k, o, vs, cs, 0);
}

/// Whether `v` is a stored entry marked committed.
pub open spec fn committed_entry(v: JsonV) -> bool {
    match parse_entry(v) {
        Some((_, c)) => c,
        None => false,
    }
}

/// Whether `v` is a stored entry not marked committed.
pub open spec fn uncommitted_entry(v: JsonV) -> bool {
    match parse_entry(v) {
        Some((_, c)) => !c,
        None => false,
    }
}

/// Whether `store` holds committed entries of the log `k` at the offsets below
/// `j`, and at `j` no entry or an uncommitted one.
pub open spec fn holds_committed(store: Store, k: Seq<char>, j: u64) -> bool {
    &&& forall|t: int|
        0 <= t < j ==> store.contains_key(#[trigger] entry_key(k, t as u64)) && committed_entry(
            store[entry_key(k, t as u64)],
        )
    &&& store.contains_key(entry_key(k, j)) ==> uncommitted_entry(store[entry_key(k, j)])
}

proof fn lemma_run_committed_log(store: Store, ok: MessageType, k: Seq<char>, j: u64, i: u64)
    requires
        !(ok is Error),
        holds_committed(store, k, j),
        i <= j,
    ensures
        run_committed(
            ReadCommittedV {
                keys: seq![k],
                index: 0,
                next: i,
                last: if i > 0 {
                    Some((i - 1) as u64)
                } else {
                    None
                },
                result: Seq::empty(),
            },
            ProgressV::Call("lin-kv"@, read_body(entry_key(k, i))),
            store,
            ok,
            (j - i + 1) as nat,
        ) == (
            ReadCommittedV {
                keys: seq![k],
                index: 1,
                next: 0,
                last: None,
                result: if j > 0 {
                    seq![(k, JsonV::UInt((j - 1) as u64))]
                } else {
                    Seq::empty()
                },
            },
            ProgressV::Finished,
        ),
    decreases j - i,
{
    let key = entry_key(k, i);
    lemma_answers(store, ok, key);
    let s = ReadCommittedV {
        keys: seq![k],
        index: 0,
        next: i,
        last: if i > 0 {
            Some((i - 1) as u64)
        } else {
            None
        },
        result: Seq::empty(),
    };
    let p = ProgressV::Call("lin-kv"@, read_body(key));
    let fuel = (j - i + 1) as nat;
    let (kind, f) = answer_read(store, ok, read_body(key));
    let (s2, p2) = committed_step(s, "lin-kv"@, kind, f);
    assert(run_committed(s, p, store, ok, fuel) == run_committed(s2, p2, store, ok, (fuel - 1) as nat));
    if i == j {
        assert(p2 == ProgressV::Finished);
        if j > 0 {
            assert(upsert(Seq::<(Seq<char>, JsonV)>::empty(), k, JsonV::UInt((j - 1) as u64))
                =~= seq![(k, JsonV::UInt((j - 1) as u64))]);
        }
    } else {
        assert(store.contains_key(entry_key(k, i as int as u64)));
        lemma_run_committed_log(store, ok, k, j, (i + 1) as u64);
    }
}

/// Listing committed offsets gives the end of the committed prefix: searching
/// the log `k` of a store whose entries below `j` are committed, and that holds
/// at `j` no entry or an uncommitted one, finishes after `j + 1` reads with `j - 1`
/// as the last committed offset of `k` (and nothing for `k` when `j` is zero).
pub proof fn lemma_list_committed_log(store: Store, ok: MessageType, k: Seq<char>, j: u64)
    requires
        !(ok is Error),
        holds_committed(store, k, j),
        j < u64::MAX,
    ensures
        ({
            let (s0, p0) = committed_open(
                ReadCommittedV { keys: seq![k], index: 0, next: 0, last: None, result: Seq::empty() },
                "lin-kv"@,
            );
            let (s, p) = run_committed(s0, p0, store, ok, (j + 1) as nat);
            &&& p == ProgressV::Finished
            &&& s.result == if j > 0 {
                seq![(k, JsonV::UInt((j - 1) as u64))]
            } else {
                Seq::<(Seq<char>, JsonV)>::empty()
            }
        }),
{
    lemma_run_committed_log(store, ok, k, j, 0);
}

/// The fields of the error that a service replies to a compare-and-swap whose
/// expected value is not the one it holds.
pub open spec fn mismatch_fields() -> Fields {
    seq![("code"@, JsonV::UInt(22)), ("text"@, JsonV::Str("current value does not match"@))]
}

/// How a store answers a request with the body `body`, and what it then holds:
/// a read as [`answer_read`] says; a write puts the value under the key; a
/// compare-and-swap puts `to` under the key when it holds `from` or nothing, and
/// else fails. Successes come in replies of the type `ok`, without fields.
pub open spec fn answer(store: Store, ok: MessageType, body: Fields) -> (Store, MessageType, Fields) {
    let key = match lookup(body, "key"@) {
        Some(JsonV::Str(k)) => k,
        _ => Seq::empty(),
    };
    if lookup(body, "type"@) == Some(JsonV::Str("write"@)) {
        (store.insert(key, lookup(body, "value"@)->0), ok, Seq::empty())
    } else if lookup(body, "type"@) == Some(JsonV::Str("cas"@)) {
        if !store.contains_key(key) || Some(store[key]) == lookup(body, "from"@) {
            (store.insert(key, lookup(body, "to"@)->0), ok, Seq::empty())
        } else {
            (store, MessageType::Error, mismatch_fields())
        }
    } else {
        let (kind, f) = answer_read(store, ok, body);
        (store, kind, f)
    }
}

/// Runs an append against a store, for at most `fuel` replies.
pub open spec fn run_append(a: AppendV, p: ProgressV, store: Store, ok: MessageType, fuel: nat) -> (
    AppendV,
    ProgressV,
    Store,
)
    decreases fuel,
{
    match p {
        ProgressV::Call(_, body) => if fuel == 0 {
            (a, p, store)
        } else {
            let (store2, kind, f) = answer(store, ok, body);
            let (a2, p2) = append_step(a, "lin-kv"@, kind, f);
            run_append(a2, p2, store2, ok, (fuel - 1) as nat)
        },
        _ => (a, p, store),
    }
}

/// An append claims the next free offset and writes its message there: against
/// a store that holds the integer `o` under the log's offset key, or nothing and
/// `o` is zero, an append of `v` to the log `k` finishes after three replies at
/// the offset `o`, leaving `o + 1` under the offset key and the uncommitted
/// entry of `v` at offset `o`.
pub proof fn lemma_append_claims_offset(store: Store, ok: MessageType, k: Seq<char>, v: JsonV, o: u64)
    requires
        !(ok is Error),
        o < u64::MAX,
        (store.contains_key(offset_key(k)) && store[offset_key(k)] == JsonV::UInt(o)) || (
        !store.contains_key(offset_key(k)) && o == 0),
    ensures
        ({
            let a0 = AppendV { key: k, value: v, phase: AppendPhase::ReadOffset };
            let p0 = ProgressV::Call("lin-kv"@, read_body(offset_key(k)));
            let (a, p, st) = run_append(a0, p0, store, ok, 3);
            &&& p == ProgressV::Finished
            &&& a.phase == AppendPhase::Appended(o)
            &&& st == store.insert(offset_key(k), JsonV::UInt((o + 1) as u64)).insert(
                entry_key(k, o),
                entry_json(v, false),
            )
        }),
{
    let a0 = AppendV { key: k, value: v, phase: AppendPhase::ReadOffset };
    let p0 = ProgressV::Call("lin-kv"@, read_body(offset_key(k)));
    let ok_key = offset_key(k);
    lemma_body_fields(ok_key, JsonV::Null, JsonV::UInt(o), JsonV::UInt((o + 1) as u64));
    lemma_body_fields(entry_key(k, o), entry_json(v, false), JsonV::Null, JsonV::Null);
    lemma_answers(store, ok, ok_key);
    // The read of the offset.
    let (s1, kind1, f1) = answer(store, ok, read_body(ok_key));
    assert(s1 == store);
    let (a1, p1) = append_step(a0, "lin-kv"@, kind1, f1);
    assert(a1.phase == AppendPhase::ClaimOffset(o));
    let to = JsonV::UInt((o + 1) as u64);
    assert(p1 == ProgressV::Call("lin-kv"@, cas_body(ok_key, JsonV::UInt(o), to)));
    // The claim.
    let (s2, kind2, f2) = answer(s1, ok, cas_body(ok_key, JsonV::UInt(o), to));
    assert(s2 == store.insert(ok_key, to));
    assert(kind2 == ok && f2 == Seq::<(Seq<char>, JsonV)>::empty());
    assert(write_succeeded(kind2, f2));
    let (a2, p2) = append_step(a1, "lin-kv"@, kind2, f2);
    assert(a2.phase == AppendPhase::WriteEntry(o));
    assert(p2 == ProgressV::Call("lin-kv"@, write_body(entry_key(k, o), entry_json(v, false))));
    // The write.
    let (s3, kind3, f3) = answer(s2, ok, write_body(entry_key(k, o), entry_json(v, false)));
    assert(s3 == s2.insert(entry_key(k, o), entry_json(v, false)));
    let (a3, p3) = append_step(a2, "lin-kv"@, kind3, f3);
    assert(p3 == ProgressV::Finished);
    assert(run_append(a3, p3, s3, ok, 0) == (a3, p3, s3));
    assert(run_append(a2, p2, s2, ok, 1) == run_append(a3, p3, s3, ok, 0));
    assert(run_append(a1, p1, s1, ok, 2) == run_append(a2, p2, s2, ok, 1));
    assert(run_append(a0, p0, store, ok, 3) == run_append(a1, p1, s1, ok, 2));
}

/// Whether `store` keeps the log `k` as appends leave it: the next free offset
/// `o` under the offset key (or no offset key, and `o` is zero), an entry at
/// every offset below `o`, and none from `o` on.
pub open spec fn log_inv(store: Store, k: Seq<char>, o: u64) -> bool {
    &&& (store.contains_key(offset_key(k)) && store[offset_key(k)] == JsonV::UInt(o)) || (
    !store.contains_key(offset_key(k)) && o == 0)
    &&& forall|t: u64|
        t < o ==> store.contains_key(#[trigger] entry_key(k, t)) && parse_entry(
            store[entry_key(k, t)],
        ) is Some
    &&& forall|t: u64| t >= o ==> !store.contains_key(#[trigger] entry_key(k, t))
}

/// An empty store keeps every log, with the next free offset zero.
pub proof fn lemma_empty_store_log(k: Seq<char>)
    ensures
        log_inv(Map::empty(), k, 0),
{
}

/// An append keeps the log: against a store that keeps the log `k` with the next
/// free offset `o`, an append of `v` finishes after three replies at the offset
/// `o`, and leaves a store that keeps the log with the next free offset `o + 1`.
pub proof fn lemma_append_keeps_log(store: Store, ok: MessageType, k: Seq<char>, v: JsonV, o: u64)
    requires
        !(ok is Error),
        o < u64::MAX,
        log_inv(store, k, o),
    ensures
        ({
            let a0 = AppendV { key: k, value: v, phase: AppendPhase::ReadOffset };
            let p0 = ProgressV::Call("lin-kv"@, read_body(offset_key(k)));
            let (a, p, st) = run_append(a0, p0, store, ok, 3);
            &&& p == ProgressV::Finished
            &&& a.phase == AppendPhase::Appended(o)
            &&& log_inv(st, k, (o + 1) as u64)
        }),
{
    lemma_append_claims_offset(store, ok, k, v, o);
    let st = store.insert(offset_key(k), JsonV::UInt((o + 1) as u64)).insert(
        entry_key(k, o),
        entry_json(v, false),
    );
    lemma_offset_key_not_entry_key(k, k, o);
    lemma_entry_round_trip(v, false);
    assert forall|t: u64| t < (o + 1) as u64 implies st.contains_key(#[trigger] entry_key(k, t))
        && parse_entry(st[entry_key(k, t)]) is Some by {
        lemma_offset_key_not_entry_key(k, k, t);
        if t != o && entry_key(k, t) == entry_key(k, o) {
            lemma_entry_key_injective(k, t, k, o);
        }
    }
    assert forall|t: u64| t >= (o + 1) as u64 implies !st.contains_key(#[trigger] entry_key(k, t)) by {
        lemma_offset_key_not_entry_key(k, k, t);
        if entry_key(k, t) == entry_key(k, o) {
            lemma_entry_key_injective(k, t, k, o);
        }
    }
}

/// Appends one after another get consecutive offsets: against a store that keeps
/// the log `k` with the next free offset `o` (zero for a new log), an append of
/// `v1` gets `o`, and an append of `v2` after it gets `o + 1`.
pub proof fn lemma_appends_consecutive(
    store: Store,
    ok: MessageType,
    k: Seq<char>,
    v1: JsonV,
    v2: JsonV,
    o: u64,
)
    requires
        !(ok is Error),
        o + 1 < u64::MAX,
        log_inv(store, k, o),
    ensures
        ({
            let a0 = AppendV { key: k, value: v1, phase: AppendPhase::ReadOffset };
            let b0 = AppendV { key: k, value: v2, phase: AppendPhase::ReadOffset };
            let p0 = ProgressV::Call("lin-kv"@, read_body(offset_key(k)));
            let (a, p, st) = run_append(a0, p0, store, ok, 3);
            let (b, q, st2) = run_append(b0, p0, st, ok, 3);
            &&& p == ProgressV::Finished
            &&& q == ProgressV::Finished
            &&& a.phase == AppendPhase::Appended(o)
            &&& b.phase == AppendPhase::Appended((o + 1) as u64)
            &&& log_inv(st2, k, (o + 2) as u64)
        }),
{
    let a0 = AppendV { key: k, value: v1, phase: AppendPhase::ReadOffset };
    let p0 = ProgressV::Call("lin-kv"@, read_body(offset_key(k)));
    lemma_append_keeps_log(store, ok, k, v1, o);
    let st = run_append(a0, p0, store, ok, 3).2;
    lemma_append_keeps_log(st, ok, k, v2, (o + 1) as u64);
}

/// What is sent is polled back: against a store that keeps the log `k` with the
/// next free offset `o`, an append of `v` claims `o`, and a poll of `k` from `o`
/// then finishes with `v` at the offset `o` and nothing more.
pub proof fn lemma_send_then_poll(store: Store, ok: MessageType, k: Seq<char>, v: JsonV, o: u64)
    requires
        !(ok is Error),
        o + 1 < u64::MAX,
        log_inv(store, k, o),
    ensures

        ({
            let a0 = AppendV { key: k, value: v, phase: AppendPhase::ReadOffset };
            let p0 = ProgressV::Call("lin-kv"@, read_body(offset_key(k)));
            let (a, p, st) = run_append(a0, p0, store, ok, 3);
            let (r0, q0) = read_open(
                LogReadV {
                    offsets: seq![(k, o)],
                    index: 0,
                    next: 0,
                    entries: Seq::empty(),
                    result: Seq::empty(),
                },
                "lin-kv"@,
            );
            let (r, q) = run_read(r0, q0, st, ok, 2);
            &&& a.phase == AppendPhase::Appended(o)
            &&& q == ProgressV::Finished
            &&& r.result == seq![
                (k, JsonV::Array(seq![JsonV::Array(seq![JsonV::UInt(o), v])])),
            ]
        }),
{
    assert(!store.contains_key(entry_key(k, (o + 1) as u64)));
    lemma_append_claims_offset(store, ok, k, v, o);
    let st = store.insert(offset_key(k), JsonV::UInt((o + 1) as u64)).insert(
        entry_key(k, o),
        entry_json(v, false),
    );
    lemma_entry_round_trip(v, false);
    lemma_offset_key_not_entry_key(k, k, (o + 1) as u64);
    if entry_key(k, (o + 1) as u64) == entry_key(k, o) {
        lemma_entry_key_injective(k, (o + 1) as u64, k, o);
    }
    let vs = seq![v];
    let cs = seq![false];
    assert(entry_key(k, (o + 0) as u64) == entry_key(k, o));
    assert(holds_log(st, k, o, vs, cs));
    lemma_poll_reads_log(st, ok, k, o, vs, cs);
    assert(entries_from(o, vs) =~= seq![JsonV::Array(seq![JsonV::UInt(o), v])]);
}

/// The message of a stored entry.
pub open spec fn entry_value(v: JsonV) -> JsonV {
    match parse_entry(v) {
        Some((x, _)) => x,
        None => JsonV::Null,
    }
}

/// `store` with the entries of the log `k` below offset `i` committed: each
/// uncommitted one is written back as the committed entry of its message.
pub open spec fn commit_upto(store: Store, k: Seq<char>, i: nat) -> Store
    decreases i,
{
    if i == 0 {
        store
    } else {
        let s = commit_upto(store, k, (i - 1) as nat);
        let key = entry_key(k, (i - 1) as u64);
        if committed_entry(store[key]) {
            s
        } else {
            s.insert(key, entry_json(entry_value(store[key]), true))
        }
    }
}

/// Runs a commit against a store, for at most `fuel` replies.
pub open spec fn run_commit(c: CommitV, p: ProgressV, store: Store, ok: MessageType, fuel: nat) -> (
    CommitV,
    ProgressV,
    Store,
)
    decreases fuel,
{
    match p {
        ProgressV::Call(_, body) => if fuel == 0 {
            (c, p, store)
        } else {
            let (store2, kind, f) = answer(store, ok, body);
            let (c2, p2) = commit_step(c, "lin-kv"@, kind, f);
            run_commit(c2, p2, store2, ok, (fuel - 1) as nat)
        },
        _ => (c, p, store),
    }
}

/// Whether `store` holds an entry of the log `k` at every offset up to and with `o`.
pub open spec fn holds_entries(store: Store, k: Seq<char>, o: u64) -> bool {
    forall|t: int|
        0 <= t <= o ==> store.contains_key(#[trigger] entry_key(k, t as u64)) && parse_entry(
            store[entry_key(k, t as u64)],
        ) is Some
}

/// Committing the entries below `i` leaves the entries from `i` on as they were.
proof fn lemma_commit_upto_frame(store: Store, k: Seq<char>, i: nat, j: u64)
    requires
        i <= j,
    ensures
        commit_upto(store, k, i).contains_key(entry_key(k, j)) == store.contains_key(entry_key(k, j)),
        commit_upto(store, k, i)[entry_key(k, j)] == store[entry_key(k, j)],
    decreases i,
{
    if i > 0 {
        lemma_commit_upto_frame(store, k, (i - 1) as nat, j);
        if entry_key(k, (i - 1) as u64) == entry_key(k, j) {
            lemma_entry_key_injective(k, (i - 1) as u64, k, j);
        }
    }
}

/// Committing the entries below `i` leaves each of them committed, with its message.
proof fn lemma_commit_upto_committed(store: Store, k: Seq<char>, i: nat, t: u64)
    requires
        t < i,
        i <= u64::MAX + 1,
        store.contains_key(entry_key(k, t)),
        parse_entry(store[entry_key(k, t)]) is Some,
    ensures
        commit_upto(store, k, i).contains_key(entry_key(k, t)),
        committed_entry(commit_upto(store, k, i)[entry_key(k, t)]),
        entry_value(commit_upto(store, k, i)[entry_key(k, t)]) == entry_value(store[entry_key(k, t)]),
    decreases i,
{
    let key = entry_key(k, (i - 1) as u64);
    if t == i - 1 {
        lemma_commit_upto_frame(store, k, (i - 1) as nat, t);
        lemma_entry_round_trip(entry_value(store[key]), true);
    } else {
        lemma_commit_upto_committed(store, k, (i - 1) as nat, t);
        if key == entry_key(k, t) {
            lemma_entry_key_injective(k, (i - 1) as u64, k, t);
        }
    }
}

proof fn lemma_run_commit_log(store: Store, ok: MessageType, k: Seq<char>, o: u64, i: u64, fuel: nat)
    requires
        !(ok is Error),
        o < u64::MAX,
        holds_entries(store, k, o),
        i <= o,
        fuel >= 2 * (o + 1 - i),
    ensures
        run_commit(
            CommitV { offsets: seq![(k, o)], index: 0, next: i, writing: false },
            ProgressV::Call("lin-kv"@, read_body(entry_key(k, i))),
            commit_upto(store, k, i as nat),
            ok,
            fuel,
        ) == (
            CommitV { offsets: seq![(k, o)], index: 1, next: o, writing: false },
            ProgressV::Finished,
            commit_upto(store, k, (o + 1) as nat),
        ),
    decreases o - i,
{
    let key = entry_key(k, i);
    let si = commit_upto(store, k, i as nat);
    let c = CommitV { offsets: seq![(k, o)], index: 0, next: i, writing: false };
    let p = ProgressV::Call("lin-kv"@, read_body(key));
    assert(store.contains_key(entry_key(k, i as int as u64)));
    lemma_commit_upto_frame(store, k, i as nat, i);
    lemma_answers(si, ok, key);
    lemma_body_fields(key, JsonV::Null, JsonV::Null, JsonV::Null);
    let (s1, kind1, f1) = answer(si, ok, read_body(key));
    assert(s1 == si);
    assert(read_outcome(kind1, f1) == Some(store[key]));
    let (x, cm) = parse_entry(store[key])->0;
    let (c1, p1) = commit_step(c, "lin-kv"@, kind1, f1);
    assert(run_commit(c, p, si, ok, fuel) == run_commit(c1, p1, s1, ok, (fuel - 1) as nat));
    assert(commit_end(o) == o + 1);
    if cm {
        assert(committed_entry(store[key]));
        assert(commit_upto(store, k, (i + 1) as nat) == si);
        if i < o {
            assert(c1 == CommitV { next: (i + 1) as u64, ..c });
            lemma_run_commit_log(store, ok, k, o, (i + 1) as u64, (fuel - 1) as nat);
        } else {
            assert(p1 == ProgressV::Finished);
        }
    } else {
        assert(!committed_entry(store[key]));
        let w = write_body(key, entry_json(x, true));
        assert(c1 == CommitV { writing: true, ..c });
        assert(p1 == ProgressV::Call("lin-kv"@, w));
        lemma_body_fields(key, entry_json(x, true), JsonV::Null, JsonV::Null);
        let (s2, kind2, f2) = answer(s1, ok, w);
        assert(s2 == commit_upto(store, k, (i + 1) as nat));
        assert(write_succeeded(kind2, f2));
        let (c2, p2) = commit_step(c1, "lin-kv"@, kind2, f2);
        assert(run_commit(c1, p1, s1, ok, (fuel - 1) as nat) == run_commit(c2, p2, s2, ok, (fuel - 2) as nat));
        if i < o {
            assert(c2 == CommitV { next: (i + 1) as u64, ..c });
            lemma_run_commit_log(store, ok, k, o, (i + 1) as u64, (fuel - 2) as nat);
        } else {
            assert(p2 == ProgressV::Finished);
        }
    }
}

/// A commit marks every entry up to its offset committed: committing the log `k`
/// up to and with the offset `o`, against a store that holds an entry of `k` at
/// every offset up to `o`, finishes within two replies per entry, with each of
/// those entries committed and every other key as it was.
pub proof fn lemma_commit_marks_log(store: Store, ok: MessageType, k: Seq<char>, o: u64)
    requires
        !(ok is Error),
        o < u64::MAX,
        holds_entries(store, k, o),
    ensures
        ({
            let (c0, p0) = commit_seek(
                CommitV { offsets: seq![(k, o)], index: 0, next: 0, writing: false },
                "lin-kv"@,
            );
            let (c, p, st) = run_commit(c0, p0, store, ok, (2 * (o + 1)) as nat);
            &&& p == ProgressV::Finished
            &&& st == commit_upto(store, k, (o + 1) as nat)
        }),
{
    assert(commit_end(o) == o + 1);
    lemma_run_commit_log(store, ok, k, o, 0, (2 * (o + 1)) as nat);
}

/// What is committed is listed: after committing the log `k` up to and with the
/// offset `o` in a store that holds its entries up to `o`, committed entries from
/// `o + 1` up to `j - 1`, and at `j` no entry or an uncommitted one, listing the
/// committed offsets of `k` gives `j - 1`, which is at least `o` (and is `o` when
/// `j` is `o + 1`).
pub proof fn lemma_commit_then_list(store: Store, ok: MessageType, k: Seq<char>, o: u64, j: u64)
    requires
        !(ok is Error),
        o < j < u64::MAX,
        holds_entries(store, k, o),
        forall|t: int|
            o < t < j ==> store.contains_key(#[trigger] entry_key(k, t as u64)) && committed_entry(
                store[entry_key(k, t as u64)],
            ),
        store.contains_key(entry_key(k, j)) ==> uncommitted_entry(store[entry_key(k, j)]),
    ensures
        ({
            let (c0, p0) = commit_seek(
                CommitV { offsets: seq![(k, o)], index: 0, next: 0, writing: false },
                "lin-kv"@,
            );
            let (c, p, st) = run_commit(c0, p0, store, ok, (2 * (o + 1)) as nat);
            let (r0, q0) = committed_open(
                ReadCommittedV { keys: seq![k], index: 0, next: 0, last: None, result: Seq::empty() },
                "lin-kv"@,
            );
            let (r, q) = run_committed(r0, q0, st, ok, (j + 1) as nat);
            &&& q == ProgressV::Finished
            &&& r.result == seq![(k, JsonV::UInt((j - 1) as u64))]
            &&& j - 1 >= o
        }),
{
    lemma_commit_marks_log(store, ok, k, o);
    let st = commit_upto(store, k, (o + 1) as nat);
    assert forall|t: int| 0 <= t < j implies st.contains_key(#[trigger] entry_key(k, t as u64))
        && committed_entry(st[entry_key(k, t as u64)]) by {
        if t <= o {
            assert(store.contains_key(entry_key(k, t as u64)));
            lemma_commit_upto_committed(store, k, (o + 1) as nat, t as u64);
        } else {
            lemma_commit_upto_frame(store, k, (o + 1) as nat, t as u64);
        }
    }
    lemma_commit_upto_frame(store, k, (o + 1) as nat, j);
    assert(holds_committed(st, k, j));
    lemma_list_committed_log(st, ok, k, j);
}

proof fn lemma_run_commit_done(store: Store, ok: MessageType, k: Seq<char>, o: u64, i: u64, fuel: nat)
    requires
        !(ok is Error),
        o < u64::MAX,
        forall|t: int|
            0 <= t <= o ==> store.contains_key(#[trigger] entry_key(k, t as u64)) && committed_entry(
                store[entry_key(k, t as u64)],
            ),
        i <= o,
        fuel >= o + 1 - i,
    ensures
        run_commit(
            CommitV { offsets: seq![(k, o)], index: 0, next: i, writing: false },
            ProgressV::Call("lin-kv"@, read_body(entry_key(k, i))),
            store,
            ok,
            fuel,
        ) == (
            CommitV { offsets: seq![(k, o)], index: 1, next: o, writing: false },
            ProgressV::Finished,
            store,
        ),
    decreases o - i,
{
    let key = entry_key(k, i);
    let c = CommitV { offsets: seq![(k, o)], index: 0, next: i, writing: false };
    let p = ProgressV::Call("lin-kv"@, read_body(key));
    assert(store.contains_key(entry_key(k, i as int as u64)));
    lemma_answers(store, ok, key);
    lemma_body_fields(key, JsonV::Null, JsonV::Null, JsonV::Null);
    let (s1, kind1, f1) = answer(store, ok, read_body(key));
    assert(s1 == store);
    assert(read_outcome(kind1, f1) == Some(store[key]));
    assert(committed_entry(store[key]));
    let (c1, p1) = commit_step(c, "lin-kv"@, kind1, f1);
    assert(run_commit(c, p, store, ok, fuel) == run_commit(c1, p1, s1, ok, (fuel - 1) as nat));
    assert(commit_end(o) == o + 1);
    if i < o {
        assert(c1 == CommitV { next: (i + 1) as u64, ..c });
        lemma_run_commit_done(store, ok, k, o, (i + 1) as u64, (fuel - 1) as nat);
    } else {
        assert(p1 == ProgressV::Finished);
    }
}

/// Committing is idempotent: after a commit of the log `k` up to and with the
/// offset `o` (against a store that holds its entries up to `o`), the same commit
/// again finishes with one read per entry and no write, and leaves the store as
/// the first one left it.
pub proof fn lemma_commit_twice(store: Store, ok: MessageType, k: Seq<char>, o: u64)
    requires
        !(ok is Error),
        o < u64::MAX,
        holds_entries(store, k, o),
    ensures
        ({
            let (c0, p0) = commit_seek(
                CommitV { offsets: seq![(k, o)], index: 0, next: 0, writing: false },
                "lin-kv"@,
            );
            let (c, p, st) = run_commit(c0, p0, store, ok, (2 * (o + 1)) as nat);
            let (c2, p2, st2) = run_commit(c0, p0, st, ok, (o + 1) as nat);
            &&& p2 == ProgressV::Finished
            &&& st2 == st
        }),
{
    lemma_commit_marks_log(store, ok, k, o);
    let st = commit_upto(store, k, (o + 1) as nat);
    assert forall|t: int| 0 <= t <= o implies st.contains_key(#[trigger] entry_key(k, t as u64))
        && committed_entry(st[entry_key(k, t as u64)]) by {
        assert(store.contains_key(entry_key(k, t as u64)));
        lemma_commit_upto_committed(store, k, (o + 1) as nat, t as u64);
    }
    assert(commit_end(o) == o + 1);
    lemma_run_commit_done(st, ok, k, o, 0, (o + 1) as nat);
}


/// The next free offset that `store` holds for the log `k`: the integer under
/// its offset key, and zero when it holds none.
pub open spec fn offset_of(store: Store, k: Seq<char>) -> u64 {
    if store.contains_key(offset_key(k)) && store[offset_key(k)] is UInt {
        store[offset_key(k)]->UInt_0
    } else {
        0
    }
}

/// Whether what `store` holds under the offset key of `k`, if anything, is an integer.
pub open spec fn offset_ok(store: Store, k: Seq<char>) -> bool {
    store.contains_key(offset_key(k)) ==> store[offset_key(k)] is UInt
}

/// The offset that an append has claimed, once its claim has succeeded.
pub open spec fn claimed(a: AppendV) -> Option<u64> {
    match a.phase {
        AppendPhase::WriteEntry(o) => Some(o),
        AppendPhase::Appended(o) => Some(o),
        _ => None,
    }
}

/// Whether the append `a` of the log `k`, with its next request `p`, agrees with
/// `store`: it reads the offset, or tries to claim one not above the next free
/// one, or has claimed one below it.
pub open spec fn append_agrees(a: AppendV, p: ProgressV, store: Store, k: Seq<char>) -> bool {
    &&& a.key == k
    &&& match a.phase {
        AppendPhase::ReadOffset => p == ProgressV::Call("lin-kv"@, read_body(offset_key(k))),
        AppendPhase::ClaimOffset(o) => {
            &&& p == ProgressV::Call(
                "lin-kv"@,
                cas_body(offset_key(k), JsonV::UInt(o), JsonV::UInt((o + 1) as u64)),
            )
            &&& o <= offset_of(store, k)
            &&& !store.contains_key(offset_key(k)) ==> o == 0
        },
        AppendPhase::WriteEntry(o) => {
            &&& p == ProgressV::Call("lin-kv"@, write_body(entry_key(k, o), entry_json(a.value, false)))
            &&& o < offset_of(store, k)
            &&& store.contains_key(offset_key(k))
        },
        AppendPhase::Appended(o) => {
            &&& p == ProgressV::Finished
            &&& o < offset_of(store, k)
            &&& store.contains_key(offset_key(k))
        },
    }
}

/// Whether two appends of the log `k` agree with `store` and have not claimed
/// the same offset.
pub open spec fn two_appends_ok(a: AppendV, pa: ProgressV, b: AppendV, pb: ProgressV, store: Store, k: Seq<char>) -> bool {
    &&& offset_ok(store, k)
    &&& append_agrees(a, pa, store, k)
    &&& append_agrees(b, pb, store, k)
    &&& (claimed(a) is Some && claimed(b) is Some ==> claimed(a) != claimed(b))
}

/// One reply to an append, as `store` answers its next request.
pub open spec fn step_append(a: AppendV, p: ProgressV, store: Store, ok: MessageType) -> (
    AppendV,
    ProgressV,
    Store,
) {
    match p {
        ProgressV::Call(_, body) => {
            let (store2, kind, f) = answer(store, ok, body);
            let (a2, p2) = append_step(a, "lin-kv"@, kind, f);
            (a2, p2, store2)
        },
        _ => (a, p, store),
    }
}

/// Runs two appends against one store, interleaved as `sched` says: at each of
/// its turns, `true` gives the next reply to the first append, `false` to the
/// second.
pub open spec fn run_two(
    a: AppendV,
    pa: ProgressV,
    b: AppendV,
    pb: ProgressV,
    store: Store,
    ok: MessageType,
    sched: Seq<bool>,
) -> (AppendV, ProgressV, AppendV, ProgressV, Store)
    decreases sched.len(),
{
    if sched.len() == 0 {
        (a, pa, b, pb, store)
    } else {
        let (a1, pa1, b1, pb1, st1) = run_two(a, pa, b, pb, store, ok, sched.drop_last());
        if sched.last() {
            let (a2, pa2, st2) = step_append(a1, pa1, st1, ok);
            (a2, pa2, b1, pb1, st2)
        } else {
            let (b2, pb2, st2) = step_append(b1, pb1, st1, ok);
            (a1, pa1, b2, pb2, st2)
        }
    }
}

proof fn lemma_step_append_ok(a: AppendV, pa: ProgressV, b: AppendV, pb: ProgressV, store: Store, ok: MessageType, k: Seq<char>)
    requires
        !(ok is Error),
        two_appends_ok(a, pa, b, pb, store, k),
        offset_of(store, k) + 1 < u64::MAX,
    ensures
        ({
            let (a2, pa2, st2) = step_append(a, pa, store, ok);
            &&& two_appends_ok(a2, pa2, b, pb, st2, k)
            &&& offset_of(store, k) <= offset_of(st2, k) <= offset_of(store, k) + 1
            &&& store.contains_key(offset_key(k)) ==> st2.contains_key(offset_key(k))
        }),
{
    let off = offset_key(k);
    let c = offset_of(store, k);
    let (a2, pa2, st2) = step_append(a, pa, store, ok);
    match a.phase {
        AppendPhase::ReadOffset => {
            lemma_answers(store, ok, off);
            lemma_body_fields(off, JsonV::Null, JsonV::Null, JsonV::Null);
            assert(st2 == store);
        },
        AppendPhase::ClaimOffset(o) => {
            let to = JsonV::UInt((o + 1) as u64);
            lemma_body_fields(off, JsonV::Null, JsonV::UInt(o), to);
            if !store.contains_key(off) || store[off] == JsonV::UInt(o) {
                assert(st2 == store.insert(off, to));
                assert(a2.phase == AppendPhase::WriteEntry(o));
                assert(offset_of(st2, k) == o + 1);
            } else {
                assert(st2 == store);
                reveal_strlit("code");
                assert(a2.phase == AppendPhase::ReadOffset);
            }
        },
        AppendPhase::WriteEntry(o) => {
            let key = entry_key(k, o);
            lemma_body_fields(key, entry_json(a.value, false), JsonV::Null, JsonV::Null);
            lemma_offset_key_not_entry_key(k, k, o);
            assert(st2 == store.insert(key, entry_json(a.value, false)));
            assert(offset_of(st2, k) == c);
        },
        AppendPhase::Appended(o) => {},
    }
}

proof fn lemma_run_two_ok(a: AppendV, pa: ProgressV, b: AppendV, pb: ProgressV, store: Store, ok: MessageType, k: Seq<char>, sched: Seq<bool>)
    requires
        !(ok is Error),
        two_appends_ok(a, pa, b, pb, store, k),
        offset_of(store, k) + sched.len() < u64::MAX,
    ensures
        ({
            let (a2, pa2, b2, pb2, st2) = run_two(a, pa, b, pb, store, ok, sched);
            &&& two_appends_ok(a2, pa2, b2, pb2, st2, k)
            &&& offset_of(st2, k) <= offset_of(store, k) + sched.len()
        }),
    decreases sched.len(),
{
    if sched.len() > 0 {
        lemma_run_two_ok(a, pa, b, pb, store, ok, k, sched.drop_last());
        let (a1, pa1, b1, pb1, st1) = run_two(a, pa, b, pb, store, ok, sched.drop_last());
        if sched.last() {
            lemma_step_append_ok(a1, pa1, b1, pb1, st1, ok, k);
        } else {
            lemma_step_append_ok(b1, pb1, a1, pa1, st1, ok, k);
        }
    }
}

/// Two appends to one log, interleaved in any way against one store, never get
/// the same offset: whatever order the store answers their requests in, when
/// both have finished, they stand at different offsets, so neither entry
/// overwrites the other; as long as the offset stays below its largest value.
pub proof fn lemma_interleaved_appends_differ(
    store: Store,
    ok: MessageType,
    k: Seq<char>,
    v1: JsonV,
    v2: JsonV,
    sched: Seq<bool>,
)
    requires
        !(ok is Error),
        offset_ok(store, k),
        offset_of(store, k) + sched.len() < u64::MAX,
    ensures
        ({
            let a0 = AppendV { key: k, value: v1, phase: AppendPhase::ReadOffset };
            let b0 = AppendV { key: k, value: v2, phase: AppendPhase::ReadOffset };
            let p0 = ProgressV::Call("lin-kv"@, read_body(offset_key(k)));
            let (a, pa, b, pb, st) = run_two(a0, p0, b0, p0, store, ok, sched);
            (a.phase is Appended && b.phase is Appended) ==> a.phase->Appended_0
                != b.phase->Appended_0
        }),
{
    let a0 = AppendV { key: k, value: v1, phase: AppendPhase::ReadOffset };
    let b0 = AppendV { key: k, value: v2, phase: AppendPhase::ReadOffset };
    let p0 = ProgressV::Call("lin-kv"@, read_body(offset_key(k)));
    assert(two_appends_ok(a0, p0, b0, p0, store, k));
    lemma_run_two_ok(a0, p0, b0, p0, store, ok, k, sched);
    let (a, pa, b, pb, st) = run_two(a0, p0, b0, p0, store, ok, sched);
    if let AppendPhase::Appended(x) = a.phase {
        if let AppendPhase::Appended(y) = b.phase {
            assert(claimed(a) == Some(x));
            assert(claimed(b) == Some(y));
        }
    }
}


/// Where an add to the counter stands: waiting for its read of the counter,
/// waiting for its compare-and-swap from the value it read, or acknowledged.
pub enum AddPhase {
    Reading,
    Swapping(u64),
    Acknowledged,
}

/// An add of `delta` to the counter, as a node carries it out.
pub struct AddV {
    pub delta: u64,
    pub phase: AddPhase,
}

/// The request that an add waits on (none once acknowledged).
pub open spec fn add_request(a: AddV) -> Fields {
    match a.phase {
        AddPhase::Reading => read_body(counter_key()),
        AddPhase::Swapping(v) => cas_body(
            counter_key(),
            JsonV::UInt(v),
            JsonV::UInt(vstd::wrapping::u64_specs::wrapping_add(v, a.delta)),
        ),
        AddPhase::Acknowledged => Seq::empty(),
    }
}

/// What the reply to its request does to an add: the value read becomes the
/// value to swap from; a swap that succeeds acknowledges the add, one that fails
/// reads again.
pub open spec fn add_next(a: AddV, reply: MessageV) -> AddV {
    match a.phase {
        AddPhase::Reading => AddV { phase: AddPhase::Swapping(counter_value(reply)), ..a },
        AddPhase::Swapping(_) => if write_succeeded(reply.kind, reply.fields) {
            AddV { phase: AddPhase::Acknowledged, ..a }
        } else {
            AddV { phase: AddPhase::Reading, ..a }
        },
        AddPhase::Acknowledged => a,
    }
}

/// The steps of an add are those of the node: the task of an add that reads
/// the counter takes the reply by sending the request of its next step and
/// waiting on it; the task that swaps acknowledges the add on success, and else
/// reads again.
pub proof fn lemma_add_steps_are_node_steps(n: NodeV, req: MessageV, a: AddV, reply: MessageV)
    ensures
        a.phase is Reading ==> resume(n, TaskV::AddRead(req, a.delta), reply) == ({
            let (n1, e) = rpc_v(
                n,
                "seq-kv"@,
                add_request(add_next(a, reply)),
                Some(TaskV::AddSwap(req, a.delta)),
            );
            (n1, seq![e])
        }),
        a.phase is Swapping ==> resume(n, TaskV::AddSwap(req, a.delta), reply) == if add_next(
            a,
            reply,
        ).phase is Acknowledged {
            (n, reply_v(n, req, Seq::empty()))
        } else {
            let (n1, e) = rpc_v(
                n,
                "seq-kv"@,
                add_request(add_next(a, reply)),
                Some(TaskV::AddRead(req, a.delta)),
            );
            (n1, seq![e])
        },
{
}

/// One reply to an add, as `store` answers its request.
pub open spec fn step_add(a: AddV, store: Store, ok: MessageType) -> (AddV, Store) {
    if a.phase is Acknowledged {
        (a, store)
    } else {
        let (store2, kind, f) = answer(store, ok, add_request(a));
        (add_next(a, MessageV { src: "seq-kv"@, dest: Seq::empty(), kind, fields: f }), store2)
    }
}

/// Runs adds against one store, interleaved as `sched` says: each of its turns
/// gives the next reply to the add at that index.
pub open spec fn run_adds(adds: Seq<AddV>, store: Store, ok: MessageType, sched: Seq<int>) -> (
    Seq<AddV>,
    Store,
)
    decreases sched.len(),
{
    if sched.len() == 0 {
        (adds, store)
    } else {
        let (a1, s1) = run_adds(adds, store, ok, sched.drop_last());
        let i = sched.last();
        if 0 <= i < a1.len() {
            let (x, s2) = step_add(a1[i], s1, ok);
            (a1.update(i, x), s2)
        } else {
            (a1, s1)
        }
    }
}

/// The sum of the deltas of the acknowledged adds.
pub open spec fn acked_sum(adds: Seq<AddV>) -> int
    decreases adds.len(),
{
    if adds.len() == 0 {
        0
    } else {
        acked_sum(adds.drop_last()) + if adds.last().phase is Acknowledged {
            adds.last().delta as int
        } else {
            0
        }
    }
}

/// The sum of the deltas of all adds.
pub open spec fn delta_sum(adds: Seq<AddV>) -> int
    decreases adds.len(),
{
    if adds.len() == 0 {
        0
    } else {
        delta_sum(adds.drop_last()) + adds.last().delta
    }
}

/// The sum of a sequence of integers.
pub open spec fn sum_of(ds: Seq<u64>) -> int
    decreases ds.len(),
{
    if ds.len() == 0 {
        0
    } else {
        sum_of(ds.drop_last()) + ds.last()
    }
}

/// The value of the counter that `store` holds: zero when it holds none.
pub open spec fn counter_of(store: Store) -> u64 {
    if store.contains_key(counter_key()) && store[counter_key()] is UInt {
        store[counter_key()]->UInt_0
    } else {
        0
    }
}

/// Whether adds agree with `store`, which held the counter `c0` before them: it
/// holds an integer counter, if any, equal to `c0` plus the deltas acknowledged;
/// while it holds none, no add is acknowledged and an add swaps only from zero.
pub open spec fn adds_agree(adds: Seq<AddV>, store: Store, c0: u64) -> bool {
    &&& store.contains_key(counter_key()) ==> store[counter_key()] is UInt
    &&& counter_of(store) == c0 + acked_sum(adds)
    &&& !store.contains_key(counter_key()) ==> forall|i: int|
        0 <= i < adds.len() ==> !(#[trigger] adds[i].phase is Acknowledged) && (adds[i].phase is Swapping
            ==> adds[i].phase->Swapping_0 == 0)
}

proof fn lemma_sums_update(adds: Seq<AddV>, i: int, x: AddV)
    requires
        0 <= i < adds.len(),
        x.delta == adds[i].delta,
    ensures
        delta_sum(adds.update(i, x)) == delta_sum(adds),
        acked_sum(adds.update(i, x)) == acked_sum(adds) - (if adds[i].phase is Acknowledged {
            adds[i].delta as int
        } else {
            0
        }) + (if x.phase is Acknowledged {
            x.delta as int
        } else {
            0
        }),
        acked_sum(adds) + (if adds[i].phase is Acknowledged {
            0
        } else {
            adds[i].delta as int
        }) <= delta_sum(adds),
    decreases adds.len(),
{
    let u = adds.update(i, x);
    assert(u.drop_last() =~= if i < adds.len() - 1 {
        adds.drop_last().update(i, x)
    } else {
        adds.drop_last()
    });
    lemma_acked_le(adds.drop_last());
    if i < adds.len() - 1 {
        lemma_sums_update(adds.drop_last(), i, x);
    }
}

proof fn lemma_acked_le(adds: Seq<AddV>)
    ensures
        0 <= acked_sum(adds) <= delta_sum(adds),
    decreases adds.len(),
{
    if adds.len() > 0 {
        lemma_acked_le(adds.drop_last());
    }
}

proof fn lemma_step_add_agrees(adds: Seq<AddV>, i: int, store: Store, ok: MessageType, c0: u64)
    requires
        !(ok is Error),
        0 <= i < adds.len(),
        adds_agree(adds, store, c0),
        c0 + delta_sum(adds) <= u64::MAX,
    ensures
        ({
            let (x, s2) = step_add(adds[i], store, ok);
            &&& adds_agree(adds.update(i, x), s2, c0)
            &&& x.delta == adds[i].delta
        }),
{
    let a = adds[i];
    let (x, s2) = step_add(a, store, ok);
    let ck = counter_key();
    let c = counter_of(store);
    lemma_sums_update(adds, i, x);
    let u = adds.update(i, x);
    match a.phase {
        AddPhase::Reading => {
            lemma_answers(store, ok, ck);
            lemma_body_fields(ck, JsonV::Null, JsonV::Null, JsonV::Null);
            assert(s2 == store);
            if !store.contains_key(ck) {
                assert(x.phase == AddPhase::Swapping(0));
            }
            assert forall|j: int| 0 <= j < u.len() && !s2.contains_key(ck) implies !(
            #[trigger] u[j].phase is Acknowledged) && (u[j].phase is Swapping
                ==> u[j].phase->Swapping_0 == 0) by {
                if j != i {
                    assert(u[j] == adds[j]);
                }
            }
        },
        AddPhase::Swapping(v) => {
            let to = JsonV::UInt(vstd::wrapping::u64_specs::wrapping_add(v, a.delta));
            lemma_body_fields(ck, JsonV::Null, JsonV::UInt(v), to);
            if !store.contains_key(ck) || store[ck] == JsonV::UInt(v) {
                assert(v == c);
                assert(s2 == store.insert(ck, to));
                assert(x.phase is Acknowledged);
                assert(c + a.delta <= u64::MAX);
                assert(counter_of(s2) == c + a.delta);
            } else {
                assert(s2 == store);
                assert(x.phase is Reading);
                assert forall|j: int| 0 <= j < u.len() && !s2.contains_key(ck) implies !(
                #[trigger] u[j].phase is Acknowledged) && (u[j].phase is Swapping
                    ==> u[j].phase->Swapping_0 == 0) by {
                    if j != i {
                        assert(u[j] == adds[j]);
                    }
                }
            }
        },
        AddPhase::Acknowledged => {
            assert(u =~= adds);
        },
    }
}

proof fn lemma_run_adds_agree(adds: Seq<AddV>, store: Store, ok: MessageType, c0: u64, sched: Seq<int>)
    requires
        !(ok is Error),
        adds_agree(adds, store, c0),
        c0 + delta_sum(adds) <= u64::MAX,
    ensures
        ({
            let (a2, s2) = run_adds(adds, store, ok, sched);
            &&& adds_agree(a2, s2, c0)
            &&& a2.len() == adds.len()
            &&& delta_sum(a2) == delta_sum(adds)
            &&& forall|j: int| 0 <= j < adds.len() ==> #[trigger] a2[j].delta == adds[j].delta
        }),
    decreases sched.len(),
{
    if sched.len() > 0 {
        lemma_run_adds_agree(adds, store, ok, c0, sched.drop_last());
        let (a1, s1) = run_adds(adds, store, ok, sched.drop_last());
        let i = sched.last();
        if 0 <= i < a1.len() {
            lemma_step_add_agrees(a1, i, s1, ok, c0);
            let (x, s2) = step_add(a1[i], s1, ok);
            lemma_sums_update(a1, i, x);
        }
    }
}

proof fn lemma_all_acked(adds: Seq<AddV>)
    requires
        forall|j: int| 0 <= j < adds.len() ==> #[trigger] adds[j].phase is Acknowledged,
    ensures
        acked_sum(adds) == delta_sum(adds),
    decreases adds.len(),
{
    if adds.len() > 0 {
        lemma_all_acked(adds.drop_last());
    }
}

proof fn lemma_delta_sum_new(ds: Seq<u64>)
    ensures
        delta_sum(Seq::new(ds.len(), |i: int| AddV { delta: ds[i], phase: AddPhase::Reading })) == sum_of(ds),
        acked_sum(Seq::new(ds.len(), |i: int| AddV { delta: ds[i], phase: AddPhase::Reading })) == 0,
    decreases ds.len(),
{
    if ds.len() > 0 {
        let adds = Seq::new(ds.len(), |i: int| AddV { delta: ds[i], phase: AddPhase::Reading });
        let d2 = ds.drop_last();
        assert(adds.drop_last() =~= Seq::new(d2.len(), |i: int| AddV { delta: d2[i], phase: AddPhase::Reading }));
        lemma_delta_sum_new(d2);
    }
}

/// After answered adds, a read of the counter gives their sum: adds of the deltas
/// `ds`, each starting with its read of the counter, answered by one store in any
/// interleaving, leave the store, once every add is acknowledged, holding the
/// counter it held (zero when none) plus the sum of `ds`; and a read of the
/// counter that the store then answers gives that sum, which the waiting read
/// task replies (when there was at least one add). As long as that sum fits in
/// a `u64`.
pub proof fn lemma_adds_sum(
    store: Store,
    ok: MessageType,
    ds: Seq<u64>,
    sched: Seq<int>,
    n: NodeV,
    req: MessageV,
)
    requires
        !(ok is Error),
        store.contains_key(counter_key()) ==> store[counter_key()] is UInt,
        counter_of(store) + sum_of(ds) <= u64::MAX,
    ensures
        ({
            let adds0 = Seq::new(ds.len(), |i: int| AddV { delta: ds[i], phase: AddPhase::Reading });
            let (adds, st) = run_adds(adds0, store, ok, sched);
            let (kind, f) = answer_read(st, ok, read_body(counter_key()));
            let reply = MessageV { src: "seq-kv"@, dest: n.id, kind, fields: f };
            (forall|j: int| 0 <= j < adds.len() ==> #[trigger] adds[j].phase is Acknowledged) ==> {
                &&& counter_of(st) == counter_of(store) + sum_of(ds)
                &&& ds.len() > 0 ==> resume(
                    n,
                    TaskV::CounterRead(req),
                    reply,
                ) == (n, reply_v(n, req, seq![("value"@, JsonV::UInt(counter_of(st)))]))
            }
        }),
{
    let c0 = counter_of(store);
    let adds0 = Seq::new(ds.len(), |i: int| AddV { delta: ds[i], phase: AddPhase::Reading });
    lemma_delta_sum_new(ds);
    assert(adds_agree(adds0, store, c0));
    lemma_run_adds_agree(adds0, store, ok, c0, sched);
    let (adds, st) = run_adds(adds0, store, ok, sched);
    if forall|j: int| 0 <= j < adds.len() ==> #[trigger] adds[j].phase is Acknowledged {
        lemma_all_acked(adds);
        if ds.len() > 0 {
            assert(adds.len() == ds.len());
            assert(adds[0].phase is Acknowledged);
            assert(st.contains_key(counter_key()));
            lemma_answers(st, ok, counter_key());
        }
    }
}


/// Running a read of logs for `a` and then `b` more replies is running it for
/// `a + b` replies.
proof fn lemma_run_read_compose(s: LogReadV, p: ProgressV, store: Store, ok: MessageType, a: nat, b: nat)
    ensures
        run_read(s, p, store, ok, a + b) == run_read(
            run_read(s, p, store, ok, a).0,
            run_read(s, p, store, ok, a).1,
            store,
            ok,
            b,
        ),
    decreases a,
{
    if a > 0 {
        if let ProgressV::Call(_, body) = p {
            let (kind, f) = answer_read(store, ok, body);
            let (s2, p2) = read_step(s, "lin-kv"@, kind, f);
            lemma_run_read_compose(s2, p2, store, ok, (a - 1) as nat, b);
            assert((a + b - 1) as nat == (a - 1) as nat + b);
        }
    }
}

/// Reading the log at `idx` of `offs` (its key `k`, from the offset `o`), with
/// the first `i` of its messages read and `r` as the result so far, goes on
/// to the next log with the log's entries, if any, put under `k` into `r`.
proof fn lemma_run_read_key(
    store: Store,
    ok: MessageType,
    offs: Seq<(Seq<char>, u64)>,
    idx: int,
    vs: Seq<JsonV>,
    cs: Seq<bool>,
    r: Fields,
    i: nat,
)
    requires
        !(ok is Error),
        0 <= idx < offs.len(),
        holds_log(store, offs[idx].0, offs[idx].1, vs, cs),
        i <= vs.len(),
    ensures
        ({
            let (k, o) = offs[idx];
            run_read(
                LogReadV {
                    offsets: offs,
                    index: idx,
                    next: (o + i) as u64,
                    entries: entries_from(o, vs.take(i as int)),
                    result: r,
                },
                ProgressV::Call("lin-kv"@, read_body(entry_key(k, (o + i) as u64))),
                store,
                ok,
                (vs.len() - i + 1) as nat,
            ) == read_open(
                LogReadV {
                    offsets: offs,
                    index: idx + 1,
                    next: (o + vs.len()) as u64,
                    entries: Seq::empty(),
                    result: if vs.len() > 0 {
                        upsert(r, k, JsonV::Array(entries_from(o, vs)))
                    } else {
                        r
                    },
                },
                "lin-kv"@,
            )
        }),
    decreases vs.len() - i,
{
    let (k, o) = offs[idx];
    let key = entry_key(k, (o + i) as u64);
    lemma_answers(store, ok, key);
    let s = LogReadV {
        offsets: offs,
        index: idx,
        next: (o + i) as u64,
        entries: entries_from(o, vs.take(i as int)),
        result: r,
    };
    let p = ProgressV::Call("lin-kv"@, read_body(key));
    let fuel = (vs.len() - i + 1) as nat;
    let (kind, f) = answer_read(store, ok, read_body(key));
    let (s2, p2) = read_step(s, "lin-kv"@, kind, f);
    assert(run_read(s, p, store, ok, fuel) == run_read(s2, p2, store, ok, (fuel - 1) as nat));
    if i == vs.len() {
        assert(vs.take(i as int) =~= vs);
        assert(!store.contains_key(key));
        if vs.len() == 0 {
            assert(s.entries =~= Seq::<JsonV>::empty());
        }
        let closed = LogReadV {
            offsets: offs,
            index: idx + 1,
            next: (o + vs.len()) as u64,
            entries: Seq::empty(),
            result: if vs.len() > 0 {
                upsert(r, k, JsonV::Array(entries_from(o, vs)))
            } else {
                r
            },
        };
        assert((s2, p2) == read_open(closed, "lin-kv"@));
    } else {
        assert(store.contains_key(key));
        let n = vstd::wrapping::u64_specs::wrapping_add(s.next, 1);
        assert(n == (o + i + 1) as u64);
        assert(entries_from(o, vs.take(i as int)).push(JsonV::Array(seq![JsonV::UInt(s.next), vs[i as int]]))
            =~= entries_from(o, vs.take(i as int + 1)));
        lemma_run_read_key(store, ok, offs, idx, vs, cs, r, i + 1);
    }
}

/// The replies that a read of logs takes against a store that holds the messages
/// `vss[i]` in log `i`: one per message, and one more per log.
pub open spec fn read_fuel(vss: Seq<Seq<JsonV>>) -> nat
    decreases vss.len(),
{
    if vss.len() == 0 {
        0
    } else {
        vss[0].len() + 1 + read_fuel(vss.drop_first())
    }
}

proof fn lemma_read_logs_from(
    store: Store,
    ok: MessageType,
    offs: Seq<(Seq<char>, u64)>,
    vss: Seq<Seq<JsonV>>,
    css: Seq<Seq<bool>>,
    idx: int,
    next: u64,
    r: Fields,
)
    requires
        !(ok is Error),
        0 <= idx <= offs.len(),
        vss.len() == offs.len(),
        css.len() == offs.len(),
        forall|t: int| idx <= t < offs.len() ==> #[trigger] holds_log(store, offs[t].0, offs[t].1, vss[t], css[t]),
        forall|a: int, b: int| idx <= a < b < offs.len() ==> #[trigger] offs[a].0 != #[trigger] offs[b].0,
    ensures
        ({
            let (s0, p0) = read_open(
                LogReadV { offsets: offs, index: idx, next, entries: Seq::empty(), result: r },
                "lin-kv"@,
            );
            let (s, p) = run_read(s0, p0, store, ok, read_fuel(vss.subrange(idx, vss.len() as int)));
            &&& p == ProgressV::Finished
            &&& forall|t: int| idx <= t < offs.len() ==> #[trigger] lookup(s.result, offs[t].0) == if vss[t].len() > 0 {
                Some(JsonV::Array(entries_from(offs[t].1, vss[t])))
            } else {
                lookup(r, offs[t].0)
            }
            &&& forall|key: Seq<char>| (forall|t: int| idx <= t < offs.len() ==> offs[t].0 != key) ==> #[trigger] lookup(s.result, key) == lookup(r, key)
        }),
    decreases offs.len() - idx,
{
    let rest = vss.subrange(idx, vss.len() as int);
    if idx < offs.len() {
        let (k, o) = offs[idx];
        let vs = vss[idx];
        assert(holds_log(store, offs[idx].0, offs[idx].1, vss[idx], css[idx]));
        assert(rest.drop_first() =~= vss.subrange(idx + 1, vss.len() as int));
        assert(entries_from(o, vs.take(0)) =~= Seq::<JsonV>::empty());
        lemma_run_read_key(store, ok, offs, idx, vs, css[idx], r, 0);
        let r2 = if vs.len() > 0 {
            upsert(r, k, JsonV::Array(entries_from(o, vs)))
        } else {
            r
        };
        let next2 = (o + vs.len()) as u64;
        lemma_read_logs_from(store, ok, offs, vss, css, idx + 1, next2, r2);
        let (s0, p0) = read_open(
            LogReadV { offsets: offs, index: idx, next, entries: Seq::empty(), result: r },
            "lin-kv"@,
        );
        lemma_run_read_compose(s0, p0, store, ok, (vs.len() + 1) as nat, read_fuel(vss.subrange(idx + 1, vss.len() as int)));
        let (s, p) = run_read(s0, p0, store, ok, read_fuel(rest));
        assert forall|t: int| idx <= t < offs.len() implies #[trigger] lookup(s.result, offs[t].0) == if vss[t].len() > 0 {
            Some(JsonV::Array(entries_from(offs[t].1, vss[t])))
        } else {
            lookup(r, offs[t].0)
        } by {
            if t == idx {
                assert(forall|u: int| idx + 1 <= u < offs.len() ==> offs[u].0 != k);
                assert(lookup(s.result, k) == lookup(r2, k));
                if vs.len() > 0 {
                    lemma_lookup_upsert(r, k, JsonV::Array(entries_from(o, vs)), k);
                }
            } else {
                if vs.len() > 0 {
                    lemma_lookup_upsert(r, k, JsonV::Array(entries_from(o, vs)), offs[t].0);
                }
            }
        }
        assert forall|key: Seq<char>| (forall|t: int| idx <= t < offs.len() ==> offs[t].0 != key) implies #[trigger] lookup(s.result, key) == lookup(r, key) by {
            assert(offs[idx].0 != key);
            if vs.len() > 0 {
                lemma_lookup_upsert(r, k, JsonV::Array(entries_from(o, vs)), key);
            }
        }
    }
}

/// A poll of several logs gives back each of them: reading the distinct logs
/// `offs[i].0`, each from its offset `offs[i].1`, of a store that holds the
/// messages `vss[i]` at the offsets from there on (and no entry after them),
/// finishes with, for every log, its messages at their offsets, in order, when
/// it holds any, and nothing for it when it holds none. Reading one log never
/// drops what an earlier one gave.
pub proof fn lemma_poll_reads_logs(
    store: Store,
    ok: MessageType,
    offs: Seq<(Seq<char>, u64)>,
    vss: Seq<Seq<JsonV>>,
    css: Seq<Seq<bool>>,
)
    requires
        !(ok is Error),
        vss.len() == offs.len(),
        css.len() == offs.len(),
        forall|t: int| 0 <= t < offs.len() ==> #[trigger] holds_log(store, offs[t].0, offs[t].1, vss[t], css[t]),
        forall|a: int, b: int| 0 <= a < b < offs.len() ==> #[trigger] offs[a].0 != #[trigger] offs[b].0,
    ensures
        ({
            let (s0, p0) = read_open(
                LogReadV { offsets: offs, index: 0, next: 0, entries: Seq::empty(), result: Seq::empty() },
                "lin-kv"@,
            );
            let (s, p) = run_read(s0, p0, store, ok, read_fuel(vss));
            &&& p == ProgressV::Finished
            &&& forall|t: int| 0 <= t < offs.len() ==> #[trigger] lookup(s.result, offs[t].0) == if vss[t].len() > 0 {
                Some(JsonV::Array(entries_from(offs[t].1, vss[t])))
            } else {
                None
            }
        }),
{
    assert(vss.subrange(0, vss.len() as int) =~= vss);
    lemma_read_logs_from(store, ok, offs, vss, css, 0, 0, Seq::empty());
}


/// Running a search of committed offsets for `a` and then `b` more replies is
/// running it for `a + b` replies.
proof fn lemma_run_committed_compose(
    s: ReadCommittedV,
    p: ProgressV,
    store: Store,
    ok: MessageType,
    a: nat,
    b: nat,
)
    ensures
        run_committed(s, p, store, ok, a + b) == run_committed(
            run_committed(s, p, store, ok, a).0,
            run_committed(s, p, store, ok, a).1,
            store,
            ok,
            b,
        ),
    decreases a,
{
    if a > 0 {
        if let ProgressV::Call(_, body) = p {
            let (kind, f) = answer_read(store, ok, body);
            let (s2, p2) = committed_step(s, "lin-kv"@, kind, f);
            lemma_run_committed_compose(s2, p2, store, ok, (a - 1) as nat, b);
            assert((a + b - 1) as nat == (a - 1) as nat + b);
        }
    }
}

/// Searching the log at `idx` of `ks`, whose entries below `j` are committed and
/// whose entry at `j` is missing or uncommitted, from the offset `i`, with `r` as
/// the result so far, goes on to the next log with `j - 1`, if `j > 0`, put under
/// the log's key into `r`.
proof fn lemma_run_committed_key(
    store: Store,
    ok: MessageType,
    ks: Seq<Seq<char>>,
    idx: int,
    j: u64,
    r: Fields,
    i: u64,
)
    requires
        !(ok is Error),
        0 <= idx < ks.len(),
        holds_committed(store, ks[idx], j),
        i <= j,
    ensures
        run_committed(
            ReadCommittedV {
                keys: ks,
                index: idx,
                next: i,
                last: if i > 0 {
                    Some((i - 1) as u64)
                } else {
                    None
                },
                result: r,
            },
            ProgressV::Call("lin-kv"@, read_body(entry_key(ks[idx], i))),
            store,
            ok,
            (j - i + 1) as nat,
        ) == committed_open(
            ReadCommittedV {
                keys: ks,
                index: idx + 1,
                next: 0,
                last: None,
                result: if j > 0 {
                    upsert(r, ks[idx], JsonV::UInt((j - 1) as u64))
                } else {
                    r
                },
            },
            "lin-kv"@,
        ),
    decreases j - i,
{
    let k = ks[idx];
    let key = entry_key(k, i);
    lemma_answers(store, ok, key);
    let s = ReadCommittedV {
        keys: ks,
        index: idx,
        next: i,
        last: if i > 0 {
            Some((i - 1) as u64)
        } else {
            None
        },
        result: r,
    };
    let p = ProgressV::Call("lin-kv"@, read_body(key));
    let fuel = (j - i + 1) as nat;
    let (kind, f) = answer_read(store, ok, read_body(key));
    let (s2, p2) = committed_step(s, "lin-kv"@, kind, f);
    assert(run_committed(s, p, store, ok, fuel) == run_committed(s2, p2, store, ok, (fuel - 1) as nat));
    if i < j {
        assert(store.contains_key(entry_key(k, i as int as u64)));
        lemma_run_committed_key(store, ok, ks, idx, j, r, (i + 1) as u64);
    }
}

/// The replies that a search of committed offsets takes against a store whose
/// log `i` has its committed prefix end before `js[i]`: one per offset up to and
/// with `js[i]`.
pub open spec fn list_fuel(js: Seq<u64>) -> nat
    decreases js.len(),
{
    if js.len() == 0 {
        0
    } else {
        js[0] as nat + 1 + list_fuel(js.drop_first())
    }
}

proof fn lemma_list_logs_from(
    store: Store,
    ok: MessageType,
    ks: Seq<Seq<char>>,
    js: Seq<u64>,
    idx: int,
    r: Fields,
)
    requires
        !(ok is Error),
        0 <= idx <= ks.len(),
        js.len() == ks.len(),
        forall|t: int| idx <= t < ks.len() ==> #[trigger] holds_committed(store, ks[t], js[t]),
        forall|a: int, b: int| idx <= a < b < ks.len() ==> #[trigger] ks[a] != #[trigger] ks[b],
    ensures
        ({
            let (s0, p0) = committed_open(
                ReadCommittedV { keys: ks, index: idx, next: 0, last: None, result: r },
                "lin-kv"@,
            );
            let (s, p) = run_committed(s0, p0, store, ok, list_fuel(js.subrange(idx, js.len() as int)));
            &&& p == ProgressV::Finished
            &&& forall|t: int| idx <= t < ks.len() ==> #[trigger] lookup(s.result, ks[t]) == if js[t] > 0 {
                Some(JsonV::UInt((js[t] - 1) as u64))
            } else {
                lookup(r, ks[t])
            }
            &&& forall|key: Seq<char>| (forall|t: int| idx <= t < ks.len() ==> ks[t] != key) ==> #[trigger] lookup(s.result, key) == lookup(r, key)
        }),
    decreases ks.len() - idx,
{
    let rest = js.subrange(idx, js.len() as int);
    if idx < ks.len() {
        let k = ks[idx];
        let j = js[idx];
        assert(holds_committed(store, ks[idx], js[idx]));
        assert(rest.drop_first() =~= js.subrange(idx + 1, js.len() as int));
        lemma_run_committed_key(store, ok, ks, idx, j, r, 0);
        let r2 = if j > 0 {
            upsert(r, k, JsonV::UInt((j - 1) as u64))
        } else {
            r
        };
        lemma_list_logs_from(store, ok, ks, js, idx + 1, r2);
        let (s0, p0) = committed_open(
            ReadCommittedV { keys: ks, index: idx, next: 0, last: None, result: r },
            "lin-kv"@,
        );
        lemma_run_committed_compose(s0, p0, store, ok, (j + 1) as nat, list_fuel(js.subrange(idx + 1, js.len() as int)));
        let (s, p) = run_committed(s0, p0, store, ok, list_fuel(rest));
        assert forall|t: int| idx <= t < ks.len() implies #[trigger] lookup(s.result, ks[t]) == if js[t] > 0 {
            Some(JsonV::UInt((js[t] - 1) as u64))
        } else {
            lookup(r, ks[t])
        } by {
            if t == idx {
                assert(forall|u: int| idx + 1 <= u < ks.len() ==> ks[u] != k);
                assert(lookup(s.result, k) == lookup(r2, k));
                if j > 0 {
                    lemma_lookup_upsert(r, k, JsonV::UInt((j - 1) as u64), k);
                }
            } else {
                if j > 0 {
                    lemma_lookup_upsert(r, k, JsonV::UInt((j - 1) as u64), ks[t]);
                }
            }
        }
        assert forall|key: Seq<char>| (forall|t: int| idx <= t < ks.len() ==> ks[t] != key) implies #[trigger] lookup(s.result, key) == lookup(r, key) by {
            assert(ks[idx] != key);
            if j > 0 {
                lemma_lookup_upsert(r, k, JsonV::UInt((j - 1) as u64), key);
            }
        }
    }
}

/// Listing the committed offsets of several logs searches every one of them:
/// for distinct keys `ks[i]` of a store whose log `ks[i]` has committed entries
/// below `js[i]` and, at `js[i]`, no entry or an uncommitted one, the search
/// finishes with `js[i] - 1` under each key with `js[i] > 0`, and nothing under
/// the others.
pub proof fn lemma_list_committed_logs(store: Store, ok: MessageType, ks: Seq<Seq<char>>, js: Seq<u64>)
    requires
        !(ok is Error),
        js.len() == ks.len(),
        forall|t: int| 0 <= t < ks.len() ==> #[trigger] holds_committed(store, ks[t], js[t]),
        forall|a: int, b: int| 0 <= a < b < ks.len() ==> #[trigger] ks[a] != #[trigger] ks[b],
    ensures
        ({
            let (s0, p0) = committed_open(
                ReadCommittedV { keys: ks, index: 0, next: 0, last: None, result: Seq::empty() },
                "lin-kv"@,
            );
            let (s, p) = run_committed(s0, p0, store, ok, list_fuel(js));
            &&& p == ProgressV::Finished
            &&& forall|t: int| 0 <= t < ks.len() ==> #[trigger] lookup(s.result, ks[t]) == if js[t] > 0 {
                Some(JsonV::UInt((js[t] - 1) as u64))
            } else {
                None
            }
        }),
{
    assert(js.subrange(0, js.len() as int) =~= js);
    lemma_list_logs_from(store, ok, ks, js, 0, Seq::empty());
}


/// `store` with the logs of `offs[0]` up to `offs[m - 1]` committed, each up to
/// and with its offset, one log after the other.
pub open spec fn commit_prefix(store: Store, offs: Seq<(Seq<char>, u64)>, m: int) -> Store
    decreases m,
{
    if m <= 0 {
        store
    } else {
        let s = commit_prefix(store, offs, m - 1);
        commit_upto(s, offs[m - 1].0, (offs[m - 1].1 + 1) as nat)
    }
}

/// The replies that a commit of the logs of `offs` from `idx` on takes at most:
/// two per offset to commit.
pub open spec fn commit_fuel(offs: Seq<(Seq<char>, u64)>, idx: int) -> nat
    decreases offs.len() - idx,
{
    if idx < 0 || idx >= offs.len() {
        0
    } else {
        2 * (offs[idx].1 as nat + 1) + commit_fuel(offs, idx + 1)
    }
}

/// Committing the entries of one log leaves those of every other log as they were.
proof fn lemma_commit_upto_other(store: Store, k: Seq<char>, i: nat, k2: Seq<char>, t: u64)
    requires
        k != k2,
    ensures
        commit_upto(store, k, i).contains_key(entry_key(k2, t)) == store.contains_key(entry_key(k2, t)),
        commit_upto(store, k, i)[entry_key(k2, t)] == store[entry_key(k2, t)],
    decreases i,
{
    if i > 0 {
        lemma_commit_upto_other(store, k, (i - 1) as nat, k2, t);
        if entry_key(k, (i - 1) as u64) == entry_key(k2, t) {
            lemma_entry_key_injective(k, (i - 1) as u64, k2, t);
        }
    }
}

/// Committing the logs of `offs` from `a` up to `m` leaves the entries of a log
/// that is none of them as they were.
proof fn lemma_commit_prefix_other(store: Store, offs: Seq<(Seq<char>, u64)>, a: int, m: int, k2: Seq<char>, t: u64)
    requires
        0 <= a <= m <= offs.len(),
        forall|u: int| a <= u < m ==> #[trigger] offs[u].0 != k2,
    ensures
        commit_prefix(store, offs, m).contains_key(entry_key(k2, t)) == commit_prefix(store, offs, a).contains_key(
            entry_key(k2, t),
        ),
        commit_prefix(store, offs, m)[entry_key(k2, t)] == commit_prefix(store, offs, a)[entry_key(k2, t)],
    decreases m - a,
{
    if a < m {
        lemma_commit_prefix_other(store, offs, a, m - 1, k2, t);
        assert(offs[m - 1].0 != k2);
        lemma_commit_upto_other(
            commit_prefix(store, offs, m - 1),
            offs[m - 1].0,
            (offs[m - 1].1 + 1) as nat,
            k2,
            t,
        );
    }
}

proof fn lemma_run_commit_logs(store: Store, ok: MessageType, offs: Seq<(Seq<char>, u64)>, idx: int, i: u64, fuel: nat)
    requires
        !(ok is Error),
        0 <= idx < offs.len(),
        forall|t: int| 0 <= t < offs.len() ==> #[trigger] offs[t].1 < u64::MAX,
        forall|t: int| 0 <= t < offs.len() ==> #[trigger] holds_entries(store, offs[t].0, offs[t].1),
        forall|a: int, b: int| 0 <= a < b < offs.len() ==> #[trigger] offs[a].0 != #[trigger] offs[b].0,
        i <= offs[idx].1,
        fuel >= 2 * (offs[idx].1 + 1 - i) + commit_fuel(offs, idx + 1),
    ensures
        ({
            let (k, o) = offs[idx];
            let (c, p, st) = run_commit(
                CommitV { offsets: offs, index: idx, next: i, writing: false },
                ProgressV::Call("lin-kv"@, read_body(entry_key(k, i))),
                commit_upto(commit_prefix(store, offs, idx), k, i as nat),
                ok,
                fuel,
            );
            &&& p == ProgressV::Finished
            &&& st == commit_prefix(store, offs, offs.len() as int)
        }),
    decreases offs.len() - idx, offs[idx].1 - i,
{
    let (k, o) = offs[idx];
    let base = commit_prefix(store, offs, idx);
    assert(offs[idx].1 < u64::MAX);
    assert(holds_entries(store, offs[idx].0, offs[idx].1));
    assert forall|t: int| 0 <= t <= o implies base.contains_key(#[trigger] entry_key(k, t as u64)) && parse_entry(
        base[entry_key(k, t as u64)],
    ) is Some by {
        assert(store.contains_key(entry_key(k, t as u64)));
        lemma_commit_prefix_other(store, offs, 0, idx, k, t as u64);
    }
    assert(holds_entries(base, k, o));
    let key = entry_key(k, i);
    let si = commit_upto(base, k, i as nat);
    let c = CommitV { offsets: offs, index: idx, next: i, writing: false };
    let p = ProgressV::Call("lin-kv"@, read_body(key));
    assert(base.contains_key(entry_key(k, i as int as u64)));
    lemma_commit_upto_frame(base, k, i as nat, i);
    lemma_answers(si, ok, key);
    lemma_body_fields(key, JsonV::Null, JsonV::Null, JsonV::Null);
    let (s1, kind1, f1) = answer(si, ok, read_body(key));
    assert(s1 == si);
    assert(read_outcome(kind1, f1) == Some(base[key]));
    let (x, cm) = parse_entry(base[key])->0;
    let (c1, p1) = commit_step(c, "lin-kv"@, kind1, f1);
    assert(run_commit(c, p, si, ok, fuel) == run_commit(c1, p1, s1, ok, (fuel - 1) as nat));
    assert(commit_end(o) == o + 1);
    let next_store = commit_prefix(store, offs, idx + 1);
    assert(next_store == commit_upto(base, k, (o + 1) as nat));
    // What follows the last offset of this log: the next log, or the end.
    let nc = CommitV { offsets: offs, index: idx + 1, next: o, writing: false };
    if idx + 1 < offs.len() {
        assert(offs[idx + 1].1 < u64::MAX);
        assert(commit_end(offs[idx + 1].1) != 0);
    }
    if cm {
        assert(committed_entry(base[key]));
        assert(commit_upto(base, k, (i + 1) as nat) == si);
        if i < o {
            assert(c1 == CommitV { next: (i + 1) as u64, ..c });
            lemma_run_commit_logs(store, ok, offs, idx, (i + 1) as u64, (fuel - 1) as nat);
        } else {
            assert((c1, p1) == commit_seek(nc, "lin-kv"@));
            if idx + 1 < offs.len() {
                assert(commit_upto(next_store, offs[idx + 1].0, 0) == next_store);
                lemma_run_commit_logs(store, ok, offs, idx + 1, 0, (fuel - 1) as nat);
            } else {
                assert(p1 == ProgressV::Finished);
            }
        }
    } else {
        assert(!committed_entry(base[key]));
        let w = write_body(key, entry_json(x, true));
        assert(c1 == CommitV { writing: true, ..c });
        assert(p1 == ProgressV::Call("lin-kv"@, w));
        lemma_body_fields(key, entry_json(x, true), JsonV::Null, JsonV::Null);
        let (s2, kind2, f2) = answer(s1, ok, w);
        assert(s2 == commit_upto(base, k, (i + 1) as nat));
        assert(write_succeeded(kind2, f2));
        let (c2, p2) = commit_step(c1, "lin-kv"@, kind2, f2);
        assert(run_commit(c1, p1, s1, ok, (fuel - 1) as nat) == run_commit(c2, p2, s2, ok, (fuel - 2) as nat));
        if i < o {
            assert(c2 == CommitV { next: (i + 1) as u64, ..c });
            lemma_run_commit_logs(store, ok, offs, idx, (i + 1) as u64, (fuel - 2) as nat);
        } else {
            assert((c2, p2) == commit_seek(nc, "lin-kv"@));
            if idx + 1 < offs.len() {
                assert(commit_upto(next_store, offs[idx + 1].0, 0) == next_store);
                lemma_run_commit_logs(store, ok, offs, idx + 1, 0, (fuel - 2) as nat);
            } else {
                assert(p2 == ProgressV::Finished);
            }
        }
    }
}

/// A commit of several logs commits every one of them: committing the distinct
/// logs `offs[i].0`, each up to and with its offset `offs[i].1`, against a store
/// that holds the entries of each up to that offset, finishes with the store in
/// which each of those logs is committed in turn; so every entry of every log
/// up to its offset is committed, with its message, and no other entry changes.
pub proof fn lemma_commit_logs(store: Store, ok: MessageType, offs: Seq<(Seq<char>, u64)>)
    requires
        !(ok is Error),
        forall|t: int| 0 <= t < offs.len() ==> #[trigger] offs[t].1 < u64::MAX,
        forall|t: int| 0 <= t < offs.len() ==> #[trigger] holds_entries(store, offs[t].0, offs[t].1),
        forall|a: int, b: int| 0 <= a < b < offs.len() ==> #[trigger] offs[a].0 != #[trigger] offs[b].0,
    ensures
        ({
            let (c0, p0) = commit_seek(
                CommitV { offsets: offs, index: 0, next: 0, writing: false },
                "lin-kv"@,
            );
            let (c, p, st) = run_commit(c0, p0, store, ok, commit_fuel(offs, 0));
            &&& p == ProgressV::Finished
            &&& st == commit_prefix(store, offs, offs.len() as int)
            &&& forall|t: int, u: u64|
                0 <= t < offs.len() && u <= offs[t].1 ==> st.contains_key(#[trigger] entry_key(offs[t].0, u))
                    && committed_entry(st[entry_key(offs[t].0, u)]) && entry_value(
                    st[entry_key(offs[t].0, u)],
                ) == entry_value(store[entry_key(offs[t].0, u)])
        }),
{
    if offs.len() > 0 {
        assert(offs[0].1 < u64::MAX);
        assert(commit_end(offs[0].1) != 0);
        assert(commit_upto(commit_prefix(store, offs, 0), offs[0].0, 0) == store);
        lemma_run_commit_logs(store, ok, offs, 0, 0, commit_fuel(offs, 0));
    }
    let st = commit_prefix(store, offs, offs.len() as int);
    assert forall|t: int, u: u64| 0 <= t < offs.len() && u <= offs[t].1 implies st.contains_key(
        #[trigger] entry_key(offs[t].0, u),
    ) && committed_entry(st[entry_key(offs[t].0, u)]) && entry_value(st[entry_key(offs[t].0, u)])
        == entry_value(store[entry_key(offs[t].0, u)]) by {
        let k = offs[t].0;
        assert(offs[t].1 < u64::MAX);
        assert(holds_entries(store, offs[t].0, offs[t].1));
        assert(store.contains_key(entry_key(k, u as int as u64)));
        lemma_commit_prefix_other(store, offs, 0, t, k, u);
        let before = commit_prefix(store, offs, t);
        lemma_commit_upto_committed(before, k, (offs[t].1 + 1) as nat, u);
        lemma_commit_prefix_other(store, offs, t + 1, offs.len() as int, k, u);
    }
}

} // verus!

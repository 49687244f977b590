use vstd::prelude::*;
use crate::json::{Json, JsonV, Fields, fields_view, items_view, lemma_items_view_push, lookup, upsert, get_field, set_field, owned, lemma_fields_view, lemma_items_view};
use crate::kv::{typed_progress, lemma_bodies_typed, KV, Request, Progress, ProgressV, read_body, write_body, cas_body, read_outcome, write_succeeded, read_result, write_result};
use crate::message::{Message, MessageType};
use crate::text::{decimal, push_decimal, lemma_decimal_digits, lemma_decimal_injective, is_digit};

verus! {

/// The key under which the next free offset of the log `key` is kept.
pub open spec fn offset_key(key: Seq<char>) -> Seq<char> {
    "offset-"@ + key
}

/// The key under which the entry at `offset` of the log `key` is kept.
pub open spec fn entry_key(key: Seq<char>, offset: u64) -> Seq<char> {
    "entries-"@ + key + "-"@ + decimal(offset as nat)
}

/// The key under which the next free offset of the log `key` is kept.
pub fn get_offset_key(key: &str) -> (r: String)
    ensures
        r@ == offset_key(key@),
{
    let mut s = owned("offset-");
    s.append(key);
    s
}

/// The key under which the entry at `offset` of the log `key` is kept.
pub fn get_entry_key(key: &str, offset: u64) -> (r: String)
    ensures
        r@ == entry_key(key@, offset),
{
    let mut s = owned("entries-");
    s.append(key);
    s.append("-");
    push_decimal(&mut s, offset);
    assert(s@ =~= entry_key(key@, offset));
    s
}

/// Distinct logs and offsets have distinct entry keys.
pub proof fn lemma_entry_key_injective(k1: Seq<char>, o1: u64, k2: Seq<char>, o2: u64)
    requires
        entry_key(k1, o1) == entry_key(k2, o2),
    ensures
        k1 == k2,
        o1 == o2,
{
    reveal_strlit("entries-");
    reveal_strlit("-");
    let s = entry_key(k1, o1);
    let d1 = decimal(o1 as nat);
    let d2 = decimal(o2 as nat);
    lemma_decimal_digits(o1 as nat);
    lemma_decimal_digits(o2 as nat);
    let p1: int = 8 + k1.len() as int;
    let p2: int = 8 + k2.len() as int;
    assert(s.len() == p1 + 1 + d1.len());
    assert(s.len() == p2 + 1 + d2.len());
    assert(s[p1] == '-');
    assert(entry_key(k2, o2)[p2] == '-');
    if p1 < p2 {
        assert(s[p2] == d1[p2 - p1 - 1]);
        assert(is_digit(d1[p2 - p1 - 1]));
        assert(false);
    }
    if p2 < p1 {
        assert(entry_key(k2, o2)[p1] == d2[p1 - p2 - 1]);
        assert(is_digit(d2[p1 - p2 - 1]));
        assert(false);
    }
    assert(k1 =~= s.subrange(8, p1));
    assert(k2 =~= entry_key(k2, o2).subrange(8, p2));
    assert(d1 =~= s.subrange(p1 + 1, s.len() as int));
    assert(d2 =~= entry_key(k2, o2).subrange(p2 + 1, s.len() as int));
    lemma_decimal_injective(o1 as nat, o2 as nat);
}

/// Distinct logs have distinct offset keys.
pub proof fn lemma_offset_key_injective(k1: Seq<char>, k2: Seq<char>)
    requires
        offset_key(k1) == offset_key(k2),
    ensures
        k1 == k2,
{
    reveal_strlit("offset-");
    assert(k1 =~= offset_key(k1).subrange(7, offset_key(k1).len() as int));
    assert(k2 =~= offset_key(k2).subrange(7, offset_key(k2).len() as int));
}

/// No offset key is an entry key.
pub proof fn lemma_offset_key_not_entry_key(k1: Seq<char>, k2: Seq<char>, o: u64)
    ensures
        offset_key(k1) != entry_key(k2, o),
{
    reveal_strlit("offset-");
    reveal_strlit("entries-");
    assert(offset_key(k1)[1] == 'f');
    assert(entry_key(k2, o)[1] == 'n');
}

/// An entry of a log: the message and whether it has been committed.
#[derive(Debug, PartialEq)]
pub struct LogEntry {
    pub value: Json,
    pub is_committed: bool,
}

/// An entry as the service stores it: an object with its two fields.
pub open spec fn entry_json(value: JsonV, is_committed: bool) -> JsonV {
    JsonV::Object(seq![("value"@, value), ("is_committed"@, JsonV::Bool(is_committed))])
}

/// The entry that a stored value holds, if it holds one: an object with a
/// `value` field and a boolean `is_committed` field, or an array of exactly
/// those two.
pub open spec fn parse_entry(v: JsonV) -> Option<(JsonV, bool)> {
    match v {
        JsonV::Object(f) => match (lookup(f, "value"@), lookup(f, "is_committed"@)) {
            (Some(x), Some(JsonV::Bool(b))) => Some((x, b)),
            _ => None,
        },
        JsonV::Array(items) => if items.len() == 2 && items[1] is Bool {
            Some((items[0], items[1]->Bool_0))
        } else {
            None
        },
        _ => None,
    }
}

impl LogEntry {
    /// The entry as a stored value.
    pub fn to_json(self) -> (r: Json)
        ensures
            r@ == entry_json(self.value@, self.is_committed),
    {
        let ghost v = self.value@;
        let fields = vec![
            (owned("value"), self.value),
            (owned("is_committed"), Json::Bool(self.is_committed)),
        ];
        proof {
            lemma_fields_view(fields@);
            assert(fields_view(fields@) =~= seq![
                ("value"@, v),
                ("is_committed"@, JsonV::Bool(self.is_committed)),
            ]);
        }
        Json::Object(fields)
    }

    /// The entry that a stored value holds, if it holds one.
    pub fn from_json(v: &Json) -> (r: Option<LogEntry>)
        ensures
            r is Some <==> parse_entry(v@) is Some,
            r matches Some(e) ==> parse_entry(v@) == Some((e.value@, e.is_committed)),
    {
        match v {
            Json::Object(fields) => {
                let value = get_field(fields, "value");
                let committed = get_field(fields, "is_committed");
                match (value, committed) {
                    (Some(x), Some(c)) => match c.as_bool() {
                        Some(b) => Some(LogEntry { value: x.copy_value(), is_committed: b }),
                        None => None,
                    },
                    _ => None,
                }
            },
            Json::Array(items) => {
                proof {
                    lemma_items_view(items@);
                }
                if items.len() == 2 {
                    match items[1].as_bool() {
                        Some(b) => Some(LogEntry { value: items[0].copy_value(), is_committed: b }),
                        None => None,
                    }
                } else {
                    None
                }
            },
            _ => None,
        }
    }
}

/// Reading back a stored entry gives the entry.
pub proof fn lemma_entry_round_trip(value: JsonV, is_committed: bool)
    ensures
        parse_entry(entry_json(value, is_committed)) == Some((value, is_committed)),
{
    reveal_strlit("value");
    reveal_strlit("is_committed");
    let f = seq![("value"@, value), ("is_committed"@, JsonV::Bool(is_committed))];
    assert("value"@.len() != "is_committed"@.len());
    assert(f[0].0 != "is_committed"@);
    assert(f.drop_first().drop_first() =~= Seq::<(Seq<char>, JsonV)>::empty());
    assert(lookup(f.drop_first(), "is_committed"@) == Some(JsonV::Bool(is_committed)));
}

/// A log of messages per key, kept in a key-value service.
#[derive(Debug, PartialEq)]
pub struct Log {
    pub kv: KV,
}

/// Where an append stands.
#[derive(Debug, PartialEq, Eq, Structural, Clone, Copy)]
pub enum AppendPhase {
    /// It waits for the next free offset.
    ReadOffset,
    /// It waits to learn whether it has claimed this offset.
    ClaimOffset(u64),
    /// It waits for the entry at this offset to be written.
    WriteEntry(u64),
    /// The message stands at this offset.
    Appended(u64),
}

/// An append of a message to a log.
#[derive(Debug, PartialEq)]
pub struct Append {
    pub key: String,
    pub value: Json,
    pub phase: AppendPhase,
}

/// An append as a mathematical value.
pub struct AppendV {
    pub key: Seq<char>,
    pub value: JsonV,
    pub phase: AppendPhase,
}

impl Append {
    /// The append as a mathematical value.
    pub open spec fn spec_view(&self) -> AppendV {
        AppendV { key: self.key@, value: self.value@, phase: self.phase }
    }
}

/// One step of an append, on the reply to its last request: the new state and
/// what it does next. It reads the next free offset (zero when the read fails),
/// claims it by a compare-and-swap that moves it on by one, reads again when the
/// claim fails, and then writes the uncommitted entry at the claimed offset.
/// A stored offset that is no integer, or a failed write, stops it.
pub open spec fn append_step(s: AppendV, service: Seq<char>, kind: MessageType, fields: Fields) -> (
    AppendV,
    ProgressV,
) {
    match s.phase {
        AppendPhase::ReadOffset => {
            let v = match read_outcome(kind, fields) {
                Some(v) => v,
                None => JsonV::UInt(0),
            };
            match v.as_u64() {
                None => (s, ProgressV::Abandoned),
                Some(o) => (
                    AppendV { phase: AppendPhase::ClaimOffset(o), ..s },
                    ProgressV::Call(
                        service,
                        cas_body(
                            offset_key(s.key),
                            JsonV::UInt(o),
                            JsonV::UInt(vstd::wrapping::u64_specs::wrapping_add(o, 1)),
                        ),
                    ),
                ),
            }
        },
        AppendPhase::ClaimOffset(o) => if write_succeeded(kind, fields) {
            (
                AppendV { phase: AppendPhase::WriteEntry(o), ..s },
                ProgressV::Call(service, write_body(entry_key(s.key, o), entry_json(s.value, false))),
            )
        } else {
            (
                AppendV { phase: AppendPhase::ReadOffset, ..s },
                ProgressV::Call(service, read_body(offset_key(s.key))),
            )
        },
        AppendPhase::WriteEntry(o) => if write_succeeded(kind, fields) {
            (AppendV { phase: AppendPhase::Appended(o), ..s }, ProgressV::Finished)
        } else {
            (s, ProgressV::Abandoned)
        },
        AppendPhase::Appended(_) => (s, ProgressV::Abandoned),
    }
}

impl Log {
    /// Logs kept in the store of `kv`.
    pub fn new(kv: KV) -> (r: Log)
        ensures
            r.kv == kv,
    {
        Log { kv }
    }

    /// Starts appending `value` to the log `key`: the append and its first request,
    /// a read of the next free offset.
    pub fn append(&self, key: &str, value: Json) -> (r: (Append, Request))
        ensures
            r.0.spec_view() == (AppendV { key: key@, value: value@, phase: AppendPhase::ReadOffset }),
            r.1.spec_view() == (self.kv.kind.spec_service(), read_body(offset_key(key@))),
    {
        let offset_key = get_offset_key(key);
        let request = self.kv.read(offset_key.as_str());
        (Append { key: owned(key), value, phase: AppendPhase::ReadOffset }, request)
    }
}

impl Append {
    /// Takes the reply to the last request of the append one step on.
    pub fn on_reply(&mut self, log: &Log, reply: Message) -> (r: Progress)
        ensures
            (final(self).spec_view(), r.spec_view()) == append_step(
                old(self).spec_view(),
                log.kv.kind.spec_service(),
                reply.body.kind,
                reply.fields(),
            ),
    {
        match self.phase {
            AppendPhase::ReadOffset => {
                let v = match read_result(reply) {
                    Ok(v) => v,
                    Err(_) => Json::UInt(0),
                };
                match v.as_u64() {
                    None => Progress::Abandoned,
                    Some(o) => {
                        self.phase = AppendPhase::ClaimOffset(o);
                        let offset_key = get_offset_key(self.key.as_str());
                        Progress::Call(
                            log.kv.compare_and_swap(
                                offset_key.as_str(),
                                Json::UInt(o),
                                Json::UInt(o.wrapping_add(1)),
                            ),
                        )
                    },
                }
            },
            AppendPhase::ClaimOffset(o) => match write_result(reply) {
                Ok(()) => {
                    self.phase = AppendPhase::WriteEntry(o);
                    let entry = LogEntry { value: self.value.copy_value(), is_committed: false };
                    let entry_key = get_entry_key(self.key.as_str(), o);
                    Progress::Call(log.kv.write(entry_key.as_str(), entry.to_json()))
                },
                Err(_) => {
                    self.phase = AppendPhase::ReadOffset;
                    let offset_key = get_offset_key(self.key.as_str());
                    Progress::Call(log.kv.read(offset_key.as_str()))
                },
            },
            AppendPhase::WriteEntry(o) => match write_result(reply) {
                Ok(()) => {
                    self.phase = AppendPhase::Appended(o);
                    Progress::Finished
                },
                Err(_) => Progress::Abandoned,
            },
            AppendPhase::Appended(_) => Progress::Abandoned,
        }
    }
}

/// The logs and offsets of a request, as mathematical values.
pub open spec fn offsets_view(s: Seq<(String, u64)>) -> Seq<(Seq<char>, u64)> {
    Seq::new(s.len(), |i: int| (s[i].0@, s[i].1))
}

/// A read of the entries of some logs, each from its own offset on.
#[derive(Debug, PartialEq)]
pub struct LogRead {
    pub offsets: Vec<(String, u64)>,
    /// The log being read.
    pub index: usize,
    /// The offset being read.
    pub next: u64,
    /// The entries read of this log, each as an array of its offset and message.
    pub entries: Vec<Json>,
    /// Each log read so far that has entries, with the array of its entries.
    pub result: Vec<(String, Json)>,
}

/// A read of logs as a mathematical value.
pub struct LogReadV {
    pub offsets: Seq<(Seq<char>, u64)>,
    pub index: int,
    pub next: u64,
    pub entries: Seq<JsonV>,
    pub result: Fields,
}

impl LogRead {
    /// The read as a mathematical value.
    pub open spec fn spec_view(&self) -> LogReadV {
        LogReadV {
            offsets: offsets_view(self.offsets@),
            index: self.index as int,
            next: self.next,
            entries: items_view(self.entries@),
            result: fields_view(self.result@),
        }
    }
}

/// Starts on the log at `s.index`, or finishes when none is left.
pub open spec fn read_open(s: LogReadV, service: Seq<char>) -> (LogReadV, ProgressV) {
    if 0 <= s.index < s.offsets.len() {
        let (k, o) = s.offsets[s.index];
        (
            LogReadV { next: o, entries: Seq::empty(), ..s },
            ProgressV::Call(service, read_body(entry_key(k, o))),
        )
    } else {
        (s, ProgressV::Finished)
    }
}

/// One step of a read of logs, on the reply to its last read. An entry read is
/// kept with its offset and the next offset is read; a failed read ends the log,
/// which goes into the result when it has entries, and the next log starts. A
/// stored value that is no entry stops the read.
pub open spec fn read_step(s: LogReadV, service: Seq<char>, kind: MessageType, fields: Fields) -> (
    LogReadV,
    ProgressV,
) {
    if !(0 <= s.index < s.offsets.len()) {
        (s, ProgressV::Abandoned)
    } else {
        let k = s.offsets[s.index].0;
        match read_outcome(kind, fields) {
            None => read_open(
                LogReadV {
                    result: if s.entries.len() > 0 {
                        upsert(s.result, k, JsonV::Array(s.entries))
                    } else {
                        s.result
                    },
                    index: s.index + 1,
                    entries: Seq::empty(),
                    ..s
                },
                service,
            ),
            Some(v) => match parse_entry(v) {
                None => (s, ProgressV::Abandoned),
                Some((x, _)) => {
                    let n = vstd::wrapping::u64_specs::wrapping_add(s.next, 1);
                    (
                        LogReadV {
                            next: n,
                            entries: s.entries.push(JsonV::Array(seq![JsonV::UInt(s.next), x])),
                            ..s
                        },
                        ProgressV::Call(service, read_body(entry_key(k, n))),
                    )
                },
            },
        }
    }
}

impl LogRead {
    /// Starts on the log at `self.index`, or finishes when none is left.
    fn open(&mut self, log: &Log) -> (r: Progress)
        requires
            old(self).index <= old(self).offsets.len(),
        ensures
            (final(self).spec_view(), r.spec_view()) == read_open(
                old(self).spec_view(),
                log.kv.kind.spec_service(),
            ),
            final(self).offsets == old(self).offsets,
            final(self).index == old(self).index,
    {
        if self.index < self.offsets.len() {
            let o = self.offsets[self.index].1;
            self.next = o;
            self.entries = Vec::new();
            let key = get_entry_key(self.offsets[self.index].0.as_str(), o);
            proof {
                assert(items_view(self.entries@) =~= Seq::<JsonV>::empty());
            }
            Progress::Call(log.kv.read(key.as_str()))
        } else {
            Progress::Finished
        }
    }

    /// Takes the reply to the last read one step on.
    pub fn on_reply(&mut self, log: &Log, reply: Message) -> (r: Progress)
        ensures
            (final(self).spec_view(), r.spec_view()) == read_step(
                old(self).spec_view(),
                log.kv.kind.spec_service(),
                reply.body.kind,
                reply.fields(),
            ),
    {
        if self.index >= self.offsets.len() {
            return Progress::Abandoned;
        }
        let ghost s0 = self.spec_view();
        let ghost k = s0.offsets[s0.index].0;
        match read_result(reply) {
            Err(_) => {
                if self.entries.len() > 0 {
                    let mut entries: Vec<Json> = Vec::new();
                    std::mem::swap(&mut entries, &mut self.entries);
                    let key = self.offsets[self.index].0.clone();
                    set_field(&mut self.result, key, Json::Array(entries));
                }
                self.index = self.index + 1;
                proof {
                    let closed = LogReadV {
                        result: if s0.entries.len() > 0 {
                            upsert(s0.result, k, JsonV::Array(s0.entries))
                        } else {
                            s0.result
                        },
                        index: s0.index + 1,
                        entries: Seq::empty(),
                        ..s0
                    };
                    lemma_items_view(self.entries@);
                    assert(items_view(self.entries@) =~= Seq::<JsonV>::empty());
                    assert(self.spec_view() == closed);
                }
                self.open(log)
            },
            Ok(v) => match LogEntry::from_json(&v) {
                None => Progress::Abandoned,
                Some(entry) => {
                    let ghost x = entry.value@;
                    let item = vec![Json::UInt(self.next), entry.value];
                    proof {
                        lemma_items_view(item@);
                        assert(items_view(item@) =~= seq![JsonV::UInt(self.next), x]);
                        lemma_items_view_push(self.entries@, Json::Array(item));
                    }
                    self.entries.push(Json::Array(item));
                    self.next = self.next.wrapping_add(1);
                    let key = get_entry_key(self.offsets[self.index].0.as_str(), self.next);
                    Progress::Call(log.kv.read(key.as_str()))
                },
            },
        }
    }
}

impl Log {
    /// Starts reading the entries of the logs in `offsets`, each from its offset on.
    pub fn read(&self, offsets: Vec<(String, u64)>) -> (r: (LogRead, Progress))
        ensures
            (r.0.spec_view(), r.1.spec_view()) == read_open(
                LogReadV {
                    offsets: offsets_view(offsets@),
                    index: 0,
                    next: 0,
                    entries: Seq::empty(),
                    result: Seq::empty(),
                },
                self.kv.kind.spec_service(),
            ),
    {
        let mut reading = LogRead {
            offsets,
            index: 0,
            next: 0,
            entries: Vec::new(),
            result: Vec::new(),
        };
        proof {
            assert(items_view(reading.entries@) =~= Seq::<JsonV>::empty());
            assert(fields_view(reading.result@) =~= Seq::<(Seq<char>, JsonV)>::empty());
        }
        let p = reading.open(self);
        (reading, p)
    }
}

/// The names of some logs, as mathematical values.
pub open spec fn keys_view(s: Seq<String>) -> Seq<Seq<char>> {
    Seq::new(s.len(), |i: int| s[i]@)
}

/// A search of some logs for the last offset of each up to which all entries
/// are committed.
#[derive(Debug, PartialEq)]
pub struct ReadCommitted {
    pub keys: Vec<String>,
    /// The log being searched.
    pub index: usize,
    /// The offset being read.
    pub next: u64,
    /// The last committed offset of this log found so far.
    pub last: Option<u64>,
    /// Each log searched so far that has a committed entry, with its last
    /// committed offset.
    pub result: Vec<(String, Json)>,
}

/// A search of committed offsets as a mathematical value.
pub struct ReadCommittedV {
    pub keys: Seq<Seq<char>>,
    pub index: int,
    pub next: u64,
    pub last: Option<u64>,
    pub result: Fields,
}

impl ReadCommitted {
    /// The search as a mathematical value.
    pub open spec fn spec_view(&self) -> ReadCommittedV {
        ReadCommittedV {
            keys: keys_view(self.keys@),
            index: self.index as int,
            next: self.next,
            last: self.last,
            result: fields_view(self.result@),
        }
    }
}

/// Starts on the log at `s.index` from offset zero, or finishes when none is left.
pub open spec fn committed_open(s: ReadCommittedV, service: Seq<char>) -> (
    ReadCommittedV,
    ProgressV,
) {
    if 0 <= s.index < s.keys.len() {
        (
            ReadCommittedV { next: 0, last: None, ..s },
            ProgressV::Call(service, read_body(entry_key(s.keys[s.index], 0))),
        )
    } else {
        (s, ProgressV::Finished)
    }
}

/// Ends the log at `s.index`: its last committed offset, if any, goes into the
/// result, and the next log starts.
pub open spec fn committed_close(s: ReadCommittedV, service: Seq<char>) -> (
    ReadCommittedV,
    ProgressV,
) {
    committed_open(
        ReadCommittedV {
            result: match s.last {
                Some(o) => upsert(s.result, s.keys[s.index], JsonV::UInt(o)),
                None => s.result,
            },
            index: s.index + 1,
            next: 0,
            last: None,
            ..s
        },
        service,
    )
}

/// One step of a search of committed offsets, on the reply to its last read. A
/// committed entry moves the search on to the next offset; a failed read or an
/// uncommitted entry ends the log. A stored value that is no entry stops the search.
pub open spec fn committed_step(
    s: ReadCommittedV,
    service: Seq<char>,
    kind: MessageType,
    fields: Fields,
) -> (ReadCommittedV, ProgressV) {
    if !(0 <= s.index < s.keys.len()) {
        (s, ProgressV::Abandoned)
    } else {
        match read_outcome(kind, fields) {
            None => committed_close(s, service),
            Some(v) => match parse_entry(v) {
                None => (s, ProgressV::Abandoned),
                Some((_, c)) => if !c {
                    committed_close(s, service)
                } else {
                    let n = vstd::wrapping::u64_specs::wrapping_add(s.next, 1);
                    (
                        ReadCommittedV { last: Some(s.next), next: n, ..s },
                        ProgressV::Call(service, read_body(entry_key(s.keys[s.index], n))),
                    )
                },
            },
        }
    }
}

impl ReadCommitted {
    fn open(&mut self, log: &Log) -> (r: Progress)
        requires
            old(self).index <= old(self).keys.len(),
        ensures
            (final(self).spec_view(), r.spec_view()) == committed_open(
                old(self).spec_view(),
                log.kv.kind.spec_service(),
            ),
    {
        if self.index < self.keys.len() {
            self.next = 0;
            self.last = None;
            let key = get_entry_key(self.keys[self.index].as_str(), 0);
            Progress::Call(log.kv.read(key.as_str()))
        } else {
            Progress::Finished
        }
    }

    fn close(&mut self, log: &Log) -> (r: Progress)
        requires
            old(self).index < old(self).keys.len(),
        ensures
            (final(self).spec_view(), r.spec_view()) == committed_close(
                old(self).spec_view(),
                log.kv.kind.spec_service(),
            ),
    {
        let ghost s0 = self.spec_view();
        if let Some(o) = self.last {
            let key = self.keys[self.index].clone();
            set_field(&mut self.result, key, Json::UInt(o));
        }
        self.index = self.index + 1;
        self.next = 0;
        self.last = None;
        proof {
            assert(self.spec_view().keys == s0.keys);
        }
        self.open(log)
    }

    /// Takes the reply to the last read one step on.
    pub fn on_reply(&mut self, log: &Log, reply: Message) -> (r: Progress)
        ensures
            (final(self).spec_view(), r.spec_view()) == committed_step(
                old(self).spec_view(),
                log.kv.kind.spec_service(),
                reply.body.kind,
                reply.fields(),
            ),
    {
        if self.index >= self.keys.len() {
            return Progress::Abandoned;
        }
        match read_result(reply) {
            Err(_) => self.close(log),
            Ok(v) => match LogEntry::from_json(&v) {
                None => Progress::Abandoned,
                Some(entry) => {
                    if !entry.is_committed {
                        self.close(log)
                    } else {
                        self.last = Some(self.next);
                        self.next = self.next.wrapping_add(1);
                        let key = get_entry_key(self.keys[self.index].as_str(), self.next);
                        Progress::Call(log.kv.read(key.as_str()))
                    }
                },
            },
        }
    }
}

/// A commit of the entries of some logs, each up to and with its offset.
#[derive(Debug, PartialEq)]
pub struct Commit {
    pub offsets: Vec<(String, u64)>,
    /// The log being committed.
    pub index: usize,
    /// The offset being committed.
    pub next: u64,
    /// Whether it waits for the committed entry at `next` to be written.
    pub writing: bool,
}

/// A commit as a mathematical value.
pub struct CommitV {
    pub offsets: Seq<(Seq<char>, u64)>,
    pub index: int,
    pub next: u64,
    pub writing: bool,
}

impl Commit {
    /// The commit as a mathematical value.
    pub open spec fn spec_view(&self) -> CommitV {
        CommitV {
            offsets: offsets_view(self.offsets@),
            index: self.index as int,
            next: self.next,
            writing: self.writing,
        }
    }
}

/// The end of the offsets to commit for a log whose last offset is `o`: one
/// past it, which wraps to zero, and so commits nothing, for the largest offset.
pub open spec fn commit_end(o: u64) -> u64 {
    vstd::wrapping::u64_specs::wrapping_add(o, 1)
}

/// Starts on the first log at or after `s.index` that has offsets to commit, at
/// offset zero, or finishes when none is left.
pub open spec fn commit_seek(s: CommitV, service: Seq<char>) -> (CommitV, ProgressV)
    decreases s.offsets.len() - s.index,
{
    if 0 <= s.index < s.offsets.len() {
        if commit_end(s.offsets[s.index].1) == 0 {
            commit_seek(CommitV { index: s.index + 1, ..s }, service)
        } else {
            (
                CommitV { next: 0, writing: false, ..s },
                ProgressV::Call(service, read_body(entry_key(s.offsets[s.index].0, 0))),
            )
        }
    } else {
        (CommitV { writing: false, ..s }, ProgressV::Finished)
    }
}

/// Moves on to the next offset of the log at `s.index`, or to the next log.
pub open spec fn commit_advance(s: CommitV, service: Seq<char>) -> (CommitV, ProgressV) {
    if s.next + 1 < commit_end(s.offsets[s.index].1) {
        let n = (s.next + 1) as u64;
        (
            CommitV { next: n, writing: false, ..s },
            ProgressV::Call(service, read_body(entry_key(s.offsets[s.index].0, n))),
        )
    } else {
        commit_seek(CommitV { index: s.index + 1, writing: false, ..s }, service)
    }
}

/// One step of a commit, on the reply to its last request. An uncommitted entry
/// is written back committed; a committed one, or a written one, moves the commit
/// on to the next offset; a failed read ends the log. A stored value that is no
/// entry, or a failed write, stops the commit.
pub open spec fn commit_step(s: CommitV, service: Seq<char>, kind: MessageType, fields: Fields) -> (
    CommitV,
    ProgressV,
) {
    if !(0 <= s.index < s.offsets.len()) {
        (s, ProgressV::Abandoned)
    } else if s.writing {
        if write_succeeded(kind, fields) {
            commit_advance(s, service)
        } else {
            (s, ProgressV::Abandoned)
        }
    } else {
        match read_outcome(kind, fields) {
            None => commit_seek(CommitV { index: s.index + 1, ..s }, service),
            Some(v) => match parse_entry(v) {
                None => (s, ProgressV::Abandoned),
                Some((x, c)) => if !c {
                    (
                        CommitV { writing: true, ..s },
                        ProgressV::Call(
                            service,
                            write_body(entry_key(s.offsets[s.index].0, s.next), entry_json(x, true)),
                        ),
                    )
                } else {
                    commit_advance(s, service)
                },
            },
        }
    }
}

impl Commit {
    fn seek(&mut self, log: &Log) -> (r: Progress)
        requires
            old(self).index <= old(self).offsets.len(),
        ensures
            (final(self).spec_view(), r.spec_view()) == commit_seek(
                old(self).spec_view(),
                log.kv.kind.spec_service(),
            ),
    {
        let n = self.offsets.len();
        while self.index < n && self.offsets[self.index].1.wrapping_add(1) == 0
            invariant
                n == self.offsets.len(),
                self.offsets == old(self).offsets,
                self.index <= n,
                commit_seek(self.spec_view(), log.kv.kind.spec_service()) == commit_seek(
                    old(self).spec_view(),
                    log.kv.kind.spec_service(),
                ),
            decreases n - self.index,
        {
            self.index = self.index + 1;
        }
        self.writing = false;
        if self.index < n {
            self.next = 0;
            let key = get_entry_key(self.offsets[self.index].0.as_str(), 0);
            Progress::Call(log.kv.read(key.as_str()))
        } else {
            Progress::Finished
        }
    }

    fn advance(&mut self, log: &Log) -> (r: Progress)
        requires
            old(self).index < old(self).offsets.len(),
        ensures
            (final(self).spec_view(), r.spec_view()) == commit_advance(
                old(self).spec_view(),
                log.kv.kind.spec_service(),
            ),
    {
        let end = self.offsets[self.index].1.wrapping_add(1);
        if self.next < u64::MAX && self.next + 1 < end {
            self.next = self.next + 1;
            self.writing = false;
            let key = get_entry_key(self.offsets[self.index].0.as_str(), self.next);
            Progress::Call(log.kv.read(key.as_str()))
        } else {
            self.index = self.index + 1;
            self.writing = false;
            self.seek(log)
        }
    }

    /// Takes the reply to the last request of the commit one step on.
    pub fn on_reply(&mut self, log: &Log, reply: Message) -> (r: Progress)
        ensures
            (final(self).spec_view(), r.spec_view()) == commit_step(
                old(self).spec_view(),
                log.kv.kind.spec_service(),
                reply.body.kind,
                reply.fields(),
            ),
    {
        if self.index >= self.offsets.len() {
            return Progress::Abandoned;
        }
        if self.writing {
            match write_result(reply) {
                Ok(()) => self.advance(log),
                Err(_) => Progress::Abandoned,
            }
        } else {
            match read_result(reply) {
                Err(_) => {
                    self.index = self.index + 1;
                    self.seek(log)
                },
                Ok(v) => match LogEntry::from_json(&v) {
                    None => Progress::Abandoned,
                    Some(entry) => {
                        if !entry.is_committed {
                            self.writing = true;
                            let key = get_entry_key(self.offsets[self.index].0.as_str(), self.next);
                            let committed = LogEntry { value: entry.value, is_committed: true };
                            Progress::Call(log.kv.write(key.as_str(), committed.to_json()))
                        } else {
                            self.advance(log)
                        }
                    },
                },
            }
        }
    }
}

impl Log {
    /// Starts committing the entries of the logs in `offsets`, each up to and
    /// with its offset.
    pub fn commit(&self, offsets: Vec<(String, u64)>) -> (r: (Commit, Progress))
        ensures
            (r.0.spec_view(), r.1.spec_view()) == commit_seek(
                CommitV { offsets: offsets_view(offsets@), index: 0, next: 0, writing: false },
                self.kv.kind.spec_service(),
            ),
    {
        let mut commit = Commit { offsets, index: 0, next: 0, writing: false };
        let p = commit.seek(self);
        (commit, p)
    }

    /// Starts searching the logs in `keys` for their last committed offsets.
    pub fn read_committed(&self, keys: Vec<String>) -> (r: (ReadCommitted, Progress))
        ensures
            (r.0.spec_view(), r.1.spec_view()) == committed_open(
                ReadCommittedV {
                    keys: keys_view(keys@),
                    index: 0,
                    next: 0,
                    last: None,
                    result: Seq::empty(),
                },
                self.kv.kind.spec_service(),
            ),
    {
        let mut search = ReadCommitted { keys, index: 0, next: 0, last: None, result: Vec::new() };
        proof {
            assert(fields_view(search.result@) =~= Seq::<(Seq<char>, JsonV)>::empty());
        }
        let p = search.open(self);
        (search, p)
    }
}

/// Every next request of an append has a `type` field.
pub proof fn lemma_append_step_typed(s: AppendV, service: Seq<char>, kind: MessageType, fields: Fields)
    ensures
        typed_progress(append_step(s, service, kind, fields).1),
{
    lemma_bodies_typed();
}

/// Every next request of a read of logs has a `type` field.
pub proof fn lemma_read_typed(s: LogReadV, service: Seq<char>, kind: MessageType, fields: Fields)
    ensures
        typed_progress(read_open(s, service).1),
        typed_progress(read_step(s, service, kind, fields).1),
{
    lemma_bodies_typed();
}

/// Every next request of a search of committed offsets has a `type` field.
pub proof fn lemma_committed_typed(s: ReadCommittedV, service: Seq<char>, kind: MessageType, fields: Fields)
    ensures
        typed_progress(committed_open(s, service).1),
        typed_progress(committed_step(s, service, kind, fields).1),
{
    lemma_bodies_typed();
}

/// Every next request of a commit, from its search for a log on, has a `type` field.
pub proof fn lemma_commit_seek_typed(s: CommitV, service: Seq<char>)
    ensures
        typed_progress(commit_seek(s, service).1),
    decreases s.offsets.len() - s.index,
{
    lemma_bodies_typed();
    if 0 <= s.index < s.offsets.len() && commit_end(s.offsets[s.index].1) == 0 {
        lemma_commit_seek_typed(CommitV { index: s.index + 1, ..s }, service);
    }
}

/// Every next request of a commit has a `type` field.
pub proof fn lemma_commit_step_typed(s: CommitV, service: Seq<char>, kind: MessageType, fields: Fields)
    ensures
        typed_progress(commit_step(s, service, kind, fields).1),
{
    lemma_bodies_typed();
    lemma_commit_seek_typed(CommitV { index: s.index + 1, ..s }, service);
    lemma_commit_seek_typed(CommitV { index: s.index + 1, writing: false, ..s }, service);
}

} // verus!

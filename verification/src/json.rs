use vstd::prelude::*;

verus! {

/// A JSON value as the node handles it: the payloads of messages, the bodies of
/// requests and replies, and what the key-value services store.
#[derive(Debug, PartialEq)]
pub enum Json {
    Null,
    Bool(bool),
    /// A non-negative integer.
    UInt(u64),
    /// A negative integer.
    NegInt(i64),
    /// A number with a fraction or an exponent, held by the bits of its `f64`.
    Float(u64),
    Str(String),
    Array(Vec<Json>),
    /// An object: its fields in order. Objects read from JSON text never repeat
    /// a name; where a list of fields does, the first field of that name is the
    /// one that [`lookup`] reads and [`upsert`] replaces, and [`json_eq`] compares
    /// objects by their names and the values under them.
    Object(Vec<(String, Json)>),
}

/// The mathematical value of a [`Json`].
pub enum JsonV {
    Null,
    Bool(bool),
    UInt(u64),
    NegInt(i64),
    Float(u64),
    Str(Seq<char>),
    Array(Seq<JsonV>),
    Object(Seq<(Seq<char>, JsonV)>),
}

/// The fields of an object (or of a message body) as mathematical values.
pub type Fields = Seq<(Seq<char>, JsonV)>;

/// The mathematical value of a [`Json`].
pub open spec fn json_view(j: Json) -> JsonV
    decreases j,
{
    match j {
        Json::Null => JsonV::Null,
        Json::Bool(b) => JsonV::Bool(b),
        Json::UInt(n) => JsonV::UInt(n),
        Json::NegInt(n) => JsonV::NegInt(n),
        Json::Float(b) => JsonV::Float(b),
        Json::Str(s) => JsonV::Str(s@),
        Json::Array(v) => JsonV::Array(items_view(v@)),
        Json::Object(v) => JsonV::Object(fields_view(v@)),
    }
}

/// The items of an array as mathematical values.
pub open spec fn items_view(s: Seq<Json>) -> Seq<JsonV>
    decreases s,
{
    if s.len() == 0 {
        Seq::empty()
    } else {
        items_view(s.drop_last()).push(json_view(s.last()))
    }
}

/// The fields of an object as mathematical values.
pub open spec fn fields_view(s: Seq<(String, Json)>) -> Fields
    decreases s,
{
    if s.len() == 0 {
        Seq::empty()
    } else {
        fields_view(s.drop_last()).push((s.last().0@, json_view(s.last().1)))
    }
}

impl View for Json {
    type V = JsonV;

    open spec fn view(&self) -> JsonV {
        json_view(*self)
    }
}

impl JsonV {
    /// The integer, for a non-negative integer.
    pub open spec fn as_u64(self) -> Option<u64> {
        match self {
            JsonV::UInt(n) => Some(n),
            _ => None,
        }
    }

    /// The characters, for a string.
    pub open spec fn as_str(self) -> Option<Seq<char>> {
        match self {
            JsonV::Str(s) => Some(s),
            _ => None,
        }
    }

    /// The boolean, for a boolean.
    pub open spec fn as_bool(self) -> Option<bool> {
        match self {
            JsonV::Bool(b) => Some(b),
            _ => None,
        }
    }

    /// The items, for an array.
    pub open spec fn as_array(self) -> Option<Seq<JsonV>> {
        match self {
            JsonV::Array(s) => Some(s),
            _ => None,
        }
    }

    /// The fields, for an object.
    pub open spec fn as_object(self) -> Option<Fields> {
        match self {
            JsonV::Object(f) => Some(f),
            _ => None,
        }
    }
}

/// Whether the bits of an `f64` are those of a NaN.
pub open spec fn is_nan_bits(x: u64) -> bool {
    x & 0x7ff0_0000_0000_0000 == 0x7ff0_0000_0000_0000 && x & 0x000f_ffff_ffff_ffff != 0
}

/// Whether two `f64`s, given by their bits, are equal as numbers: neither is a
/// NaN, and their bits are the same or both are zeros (`0.0 == -0.0`).
pub open spec fn float_bits_eq(x: u64, y: u64) -> bool {
    &&& !is_nan_bits(x)
    &&& !is_nan_bits(y)
    &&& (x == y || (x & 0x7fff_ffff_ffff_ffff == 0 && y & 0x7fff_ffff_ffff_ffff == 0))
}

/// Whether two values are equal as JSON values are compared: of the same kind,
/// with equal scalars (numbers as numbers) and strings, items equal in order,
/// and objects equal as maps: the same field names, with equal values under each
/// name, in any order.
pub open spec fn json_eq(a: JsonV, b: JsonV) -> bool
    decreases a,
{
    match a {
        JsonV::Null => b is Null,
        JsonV::Bool(x) => b == JsonV::Bool(x),
        JsonV::UInt(x) => b == JsonV::UInt(x),
        JsonV::NegInt(x) => b == JsonV::NegInt(x),
        JsonV::Float(x) => match b {
            JsonV::Float(y) => float_bits_eq(x, y),
            _ => false,
        },
        JsonV::Str(x) => b == JsonV::Str(x),
        JsonV::Array(x) => match b {
            JsonV::Array(y) => items_eq(x, y),
            _ => false,
        },
        JsonV::Object(x) => match b {
            JsonV::Object(y) => fields_match(x, y) && names_within(y, x),
            _ => false,
        },
    }
}

/// Whether two sequences of items are equal item by item: see [`json_eq`].
pub open spec fn items_eq(x: Seq<JsonV>, y: Seq<JsonV>) -> bool
    decreases x,
{
    if x.len() == 0 {
        y.len() == 0
    } else {
        &&& y.len() == x.len()
        &&& items_eq(x.drop_last(), y.drop_last())
        &&& json_eq(x.last(), y.last())
    }
}

/// Whether each field of `x` has its name in `y`, with an equal value under it
/// there (see [`json_eq`]).
pub open spec fn fields_match(x: Fields, y: Fields) -> bool
    decreases x,
{
    if x.len() == 0 {
        true
    } else {
        &&& fields_match(x.drop_last(), y)
        &&& match lookup(y, x.last().0) {
            Some(w) => json_eq(x.last().1, w),
            None => false,
        }
    }
}

/// Whether every field name of `y` is one of `x`.
pub open spec fn names_within(y: Fields, x: Fields) -> bool {
    forall|j: int| 0 <= j < y.len() ==> #[trigger] lookup(x, y[j].0) is Some
}

/// Equal items stay equal in every prefix.
pub proof fn lemma_items_eq_take(x: Seq<JsonV>, y: Seq<JsonV>, k: int)
    requires
        items_eq(x, y),
        0 <= k <= x.len(),
    ensures
        items_eq(x.take(k), y.take(k)),
    decreases x.len() - k,
{
    if k < x.len() {
        lemma_items_eq_take(x, y, k + 1);
        assert(x.take(k + 1).drop_last() =~= x.take(k));
        assert(y.take(k + 1).drop_last() =~= y.take(k));
    } else {
        assert(x.take(k) =~= x);
        assert(y.take(k) =~= y);
    }
}

/// Matching fields match in every prefix.
pub proof fn lemma_fields_match_take(x: Fields, y: Fields, k: int)
    requires
        fields_match(x, y),
        0 <= k <= x.len(),
    ensures
        fields_match(x.take(k), y),
    decreases x.len() - k,
{
    if k < x.len() {
        lemma_fields_match_take(x, y, k + 1);
        assert(x.take(k + 1).drop_last() =~= x.take(k));
    } else {
        assert(x.take(k) =~= x);
    }
}

/// Whether two `f64`s, given by their bits, are equal as numbers.
pub fn float_eq(x: u64, y: u64) -> (r: bool)
    ensures
        r == float_bits_eq(x, y),
{
    let nan_x = x & 0x7ff0_0000_0000_0000 == 0x7ff0_0000_0000_0000 && x & 0x000f_ffff_ffff_ffff != 0;
    let nan_y = y & 0x7ff0_0000_0000_0000 == 0x7ff0_0000_0000_0000 && y & 0x000f_ffff_ffff_ffff != 0;
    !nan_x && !nan_y && (x == y || (x & 0x7fff_ffff_ffff_ffff == 0 && y & 0x7fff_ffff_ffff_ffff == 0))
}

/// The value of the first field named `key`, if there is one. Later fields of
/// the same name are not read: fields from JSON text never repeat a name.
pub open spec fn lookup(fields: Fields, key: Seq<char>) -> Option<JsonV>
    decreases fields.len(),
{
    if fields.len() == 0 {
        None
    } else if fields[0].0 == key {
        Some(fields[0].1)
    } else {
        lookup(fields.drop_first(), key)
    }
}

/// `fields` with the first field named `key` given the value `v`, or with the
/// field appended when there is none: what inserting into a map does.
pub open spec fn upsert(fields: Fields, key: Seq<char>, v: JsonV) -> Fields
    decreases fields.len(),
{
    if fields.len() == 0 {
        seq![(key, v)]
    } else if fields[0].0 == key {
        fields.update(0, (key, v))
    } else {
        seq![fields[0]] + upsert(fields.drop_first(), key, v)
    }
}

/// Looking a key up after an upsert gives the upserted value for that key and
/// what it gave before for any other.
pub proof fn lemma_lookup_upsert(fields: Fields, key: Seq<char>, v: JsonV, k: Seq<char>)
    ensures
        lookup(upsert(fields, key, v), k) == if k == key {
            Some(v)
        } else {
            lookup(fields, k)
        },
    decreases fields.len(),
{
    let u = upsert(fields, key, v);
    if fields.len() == 0 {
        assert(u[0] == (key, v));
        assert(u.len() == 1);
        assert(u.drop_first() =~= Seq::<(Seq<char>, JsonV)>::empty());
        assert(lookup(u.drop_first(), k) is None);
    } else if fields[0].0 == key {
        assert(u[0] == (key, v));
        assert(u.len() == fields.len());
        assert(u.drop_first() =~= fields.drop_first());
    } else {
        lemma_lookup_upsert(fields.drop_first(), key, v, k);
        assert(u[0] == fields[0]);
        assert(u.len() > 0);
        assert(u.drop_first() =~= upsert(fields.drop_first(), key, v));
    }
}

/// The view of an array has an item for each item, each the item's view.
pub proof fn lemma_items_view(s: Seq<Json>)
    ensures
        items_view(s).len() == s.len(),
        forall|i: int| 0 <= i < s.len() ==> #[trigger] items_view(s)[i] == json_view(s[i]),
    decreases s.len(),
{
    if s.len() > 0 {
        lemma_items_view(s.drop_last());
    }
}

/// The view of an object has a field for each field, each of the field's views.
pub proof fn lemma_fields_view(s: Seq<(String, Json)>)
    ensures
        fields_view(s).len() == s.len(),
        forall|i: int|
            0 <= i < s.len() ==> #[trigger] fields_view(s)[i] == (s[i].0@, json_view(s[i].1)),
    decreases s.len(),
{
    if s.len() > 0 {
        lemma_fields_view(s.drop_last());
    }
}

/// The view of an array with one more item.
pub proof fn lemma_items_view_push(s: Seq<Json>, x: Json)
    ensures
        items_view(s.push(x)) == items_view(s).push(json_view(x)),
{
    assert(s.push(x).drop_last() =~= s);
}

/// The view of an object with one more field.
pub proof fn lemma_fields_view_push(s: Seq<(String, Json)>, x: (String, Json))
    ensures
        fields_view(s.push(x)) == fields_view(s).push((x.0@, json_view(x.1))),
{
    assert(s.push(x).drop_last() =~= s);
}

/// Looking a key up in the fields that follow some fields without it gives what
/// looking it up in all of them gives.
pub proof fn lemma_lookup_skip(fields: Fields, key: Seq<char>, i: int)
    requires
        0 <= i <= fields.len(),
        forall|j: int| 0 <= j < i ==> fields[j].0 != key,
    ensures
        lookup(fields, key) == lookup(fields.subrange(i, fields.len() as int), key),
    decreases i,
{
    if i > 0 {
        assert(fields.drop_first().subrange(i - 1, fields.drop_first().len() as int)
            =~= fields.subrange(i, fields.len() as int));
        lemma_lookup_skip(fields.drop_first(), key, i - 1);
    } else {
        assert(fields.subrange(0, fields.len() as int) =~= fields);
    }
}

/// Upserting after some fields without the key keeps them and upserts into the rest.
pub proof fn lemma_upsert_skip(fields: Fields, key: Seq<char>, v: JsonV, i: int)
    requires
        0 <= i <= fields.len(),
        forall|j: int| 0 <= j < i ==> fields[j].0 != key,
    ensures
        upsert(fields, key, v) == fields.subrange(0, i) + upsert(
            fields.subrange(i, fields.len() as int),
            key,
            v,
        ),
    decreases i,
{
    if i > 0 {
        let rest = fields.drop_first();
        assert(rest.subrange(i - 1, rest.len() as int) =~= fields.subrange(i, fields.len() as int));
        lemma_upsert_skip(rest, key, v, i - 1);
        assert(seq![fields[0]] + rest.subrange(0, i - 1) =~= fields.subrange(0, i));
        assert(upsert(fields, key, v) == seq![fields[0]] + upsert(rest, key, v));
        assert((seq![fields[0]] + rest.subrange(0, i - 1)) + upsert(
            rest.subrange(i - 1, rest.len() as int),
            key,
            v,
        ) =~= seq![fields[0]] + (rest.subrange(0, i - 1) + upsert(
            rest.subrange(i - 1, rest.len() as int),
            key,
            v,
        )));
    } else {
        assert(fields.subrange(0, fields.len() as int) =~= fields);
        assert(fields.subrange(0, 0) + upsert(fields, key, v) =~= upsert(fields, key, v));
    }
}

/// A string literal or a `str` as an owned `String` with the same characters.
pub fn owned(s: &str) -> (r: String)
    ensures
        r@ == s@,
{
    s.to_owned()
}

impl Json {
    /// A copy of this value.
    pub fn copy_value(&self) -> (r: Json)
        ensures
            r@ == self@,
        decreases self,
    {
        match self {
            Json::Null => Json::Null,
            Json::Bool(b) => Json::Bool(*b),
            Json::UInt(n) => Json::UInt(*n),
            Json::NegInt(n) => Json::NegInt(*n),
            Json::Float(b) => Json::Float(*b),
            Json::Str(s) => Json::Str(s.clone()),
            Json::Array(items) => {
                let mut out: Vec<Json> = Vec::new();
                let n = items.len();
                let mut i: usize = 0;
                while i < n
                    invariant
                        n == items@.len(),
                        *self is Array,
                        (*self)->Array_0 == *items,
                        0 <= i <= n,
                        items_view(out@) == items_view(items@.take(i as int)),
                    decreases n - i,
                {
                    proof {
                        vstd::std_specs::vec::axiom_vec_index_decreases(*items, i as int);
                        assert(decreases_to!(*self => (*self)->Array_0));
                        assert(decreases_to!(*self => items[i as int]));
                    }
                    let c = items[i].copy_value();
                    proof {
                        lemma_items_view_push(out@, c);
                        lemma_items_view_push(items@.take(i as int), items@[i as int]);
                        assert(items@.take(i as int).push(items@[i as int]) =~= items@.take(
                            i + 1,
                        ));
                    }
                    out.push(c);
                    i = i + 1;
                }
                proof {
                    assert(items@.take(n as int) =~= items@);
                }
                Json::Array(out)
            },
            Json::Object(fields) => {
                let mut out: Vec<(String, Json)> = Vec::new();
                let n = fields.len();
                let mut i: usize = 0;
                while i < n
                    invariant
                        n == fields@.len(),
                        *self is Object,
                        (*self)->Object_0 == *fields,
                        0 <= i <= n,
                        fields_view(out@) == fields_view(fields@.take(i as int)),
                    decreases n - i,
                {
                    proof {
                        vstd::std_specs::vec::axiom_vec_index_decreases(*fields, i as int);
                        assert(decreases_to!(*self => (*self)->Object_0));
                        assert(decreases_to!(*self => fields[i as int]));
                        assert(decreases_to!(*self => fields[i as int].1));
                    }
                    let k = fields[i].0.clone();
                    let c = fields[i].1.copy_value();
                    proof {
                        lemma_fields_view_push(out@, (k, c));
                        lemma_fields_view_push(fields@.take(i as int), fields@[i as int]);
                        assert(fields@.take(i as int).push(fields@[i as int]) =~= fields@.take(
                            i + 1,
                        ));
                    }
                    out.push((k, c));
                    i = i + 1;
                }
                proof {
                    assert(fields@.take(n as int) =~= fields@);
                }
                Json::Object(out)
            },
        }
    }

    /// Whether two values are equal: see [`json_eq`].
    pub fn eq_value(&self, other: &Json) -> (r: bool)
        ensures
            r == json_eq(self@, other@),
        decreases self,
    {
        match self {
            Json::Null => match other {
                Json::Null => true,
                _ => false,
            },
            Json::Bool(a) => match other {
                Json::Bool(b) => *a == *b,
                _ => false,
            },
            Json::UInt(a) => match other {
                Json::UInt(b) => *a == *b,
                _ => false,
            },
            Json::NegInt(a) => match other {
                Json::NegInt(b) => *a == *b,
                _ => false,
            },
            Json::Float(a) => match other {
                Json::Float(b) => float_eq(*a, *b),
                _ => false,
            },
            Json::Str(a) => match other {
                Json::Str(b) => *a == *b,
                _ => false,
            },
            Json::Array(a) => match other {
                Json::Array(b) => {
                    proof {
                        lemma_items_view(a@);
                        lemma_items_view(b@);
                    }
                    let n = a.len();
                    if n != b.len() {
                        return false;
                    }
                    let mut i: usize = 0;
                    while i < n
                        invariant
                            n == a@.len(),
                            n == b@.len(),
                            *self is Array,
                            (*self)->Array_0 == *a,
                            *other is Array,
                            (*other)->Array_0 == *b,
                            items_view(a@).len() == n,
                            items_view(b@).len() == n,
                            forall|j: int| 0 <= j < n ==> #[trigger] items_view(a@)[j] == json_view(a@[j]),
                            forall|j: int| 0 <= j < n ==> #[trigger] items_view(b@)[j] == json_view(b@[j]),
                            0 <= i <= n,
                            items_eq(items_view(a@).take(i as int), items_view(b@).take(i as int)),
                        decreases n - i,
                    {
                        proof {
                            vstd::std_specs::vec::axiom_vec_index_decreases(*a, i as int);
                            assert(decreases_to!(*self => (*self)->Array_0));
                            assert(decreases_to!(*self => a[i as int]));
                        }
                        let ghost xs = items_view(a@);
                        let ghost ys = items_view(b@);
                        proof {
                            assert(xs.take(i + 1).drop_last() =~= xs.take(i as int));
                            assert(ys.take(i + 1).drop_last() =~= ys.take(i as int));
                        }
                        if !a[i].eq_value(&b[i]) {
                            proof {
                                if items_eq(xs, ys) {
                                    lemma_items_eq_take(xs, ys, i + 1);
                                }
                            }
                            return false;
                        }
                        i = i + 1;
                    }
                    proof {
                        assert(items_view(a@).take(n as int) =~= items_view(a@));
                        assert(items_view(b@).take(n as int) =~= items_view(b@));
                    }
                    true
                },
                _ => false,
            },
            Json::Object(a) => match other {
                Json::Object(b) => {
                    proof {
                        lemma_fields_view(a@);
                        lemma_fields_view(b@);
                    }
                    let ghost xs = fields_view(a@);
                    let ghost ys = fields_view(b@);
                    let n = a.len();
                    let mut i: usize = 0;
                    while i < n
                        invariant
                            n == a@.len(),
                            *self is Object,
                            (*self)->Object_0 == *a,
                            *other is Object,
                            (*other)->Object_0 == *b,
                            xs == fields_view(a@),
                            ys == fields_view(b@),
                            xs.len() == n,
                            0 <= i <= n,
                            fields_match(xs.take(i as int), ys),
                            forall|j: int| 0 <= j < n ==> #[trigger] xs[j] == (a@[j].0@, json_view(a@[j].1)),
                        decreases n - i,
                    {
                        proof {
                            vstd::std_specs::vec::axiom_vec_index_decreases(*a, i as int);
                            assert(decreases_to!(*self => (*self)->Object_0));
                            assert(decreases_to!(*self => a[i as int]));
                            assert(decreases_to!(*self => a[i as int].1));
                            assert(xs.take(i + 1).drop_last() =~= xs.take(i as int));
                            if fields_match(xs, ys) {
                                lemma_fields_match_take(xs, ys, i + 1);
                            }
                        }
                        match get_field(b, a[i].0.as_str()) {
                            None => {
                                return false;
                            },
                            Some(w) => {
                                if !a[i].1.eq_value(w) {
                                    return false;
                                }
                            },
                        }
                        i = i + 1;
                    }
                    proof {
                        assert(xs.take(n as int) =~= xs);
                    }
                    let m = b.len();
                    let mut j: usize = 0;
                    while j < m
                        invariant
                            m == b@.len(),
                            *self is Object,
                            (*self)->Object_0 == *a,
                            *other is Object,
                            (*other)->Object_0 == *b,
                            xs == fields_view(a@),
                            ys == fields_view(b@),
                            ys.len() == m,
                            fields_match(xs, ys),
                            0 <= j <= m,
                            forall|t: int| 0 <= t < m ==> #[trigger] ys[t] == (b@[t].0@, json_view(b@[t].1)),
                            forall|t: int| 0 <= t < j ==> #[trigger] lookup(xs, ys[t].0) is Some,
                        decreases m - j,
                    {
                        if get_field(a, b[j].0.as_str()).is_none() {
                            proof {
                                assert(lookup(xs, ys[j as int].0) is None);
                            }
                            return false;
                        }
                        j = j + 1;
                    }
                    true
                },
                _ => false,
            },
        }
    }

    /// The integer, for a non-negative integer.
    pub fn as_u64(&self) -> (r: Option<u64>)
        ensures
            r == self@.as_u64(),
    {
        match self {
            Json::UInt(n) => Some(*n),
            _ => None,
        }
    }

    /// The string, for a string.
    pub fn as_str(&self) -> (r: Option<&String>)
        ensures
            r is Some <==> self@.as_str() is Some,
            r matches Some(s) ==> self@.as_str() == Some(s@),
    {
        match self {
            Json::Str(s) => Some(s),
            _ => None,
        }
    }

    /// The boolean, for a boolean.
    pub fn as_bool(&self) -> (r: Option<bool>)
        ensures
            r == self@.as_bool(),
    {
        match self {
            Json::Bool(b) => Some(*b),
            _ => None,
        }
    }

    /// The items, for an array.
    pub fn as_array(&self) -> (r: Option<&Vec<Json>>)
        ensures
            r is Some <==> self@.as_array() is Some,
            r matches Some(v) ==> self@.as_array() == Some(items_view(v@)),
    {
        match self {
            Json::Array(v) => Some(v),
            _ => None,
        }
    }

    /// The fields, for an object.
    pub fn as_object(&self) -> (r: Option<&Vec<(String, Json)>>)
        ensures
            r is Some <==> self@.as_object() is Some,
            r matches Some(v) ==> self@.as_object() == Some(fields_view(v@)),
    {
        match self {
            Json::Object(v) => Some(v),
            _ => None,
        }
    }
}

/// A copy of a sequence of values.
pub fn copy_items(v: &Vec<Json>) -> (r: Vec<Json>)
    ensures
        items_view(r@) == items_view(v@),
{
    let mut out: Vec<Json> = Vec::new();
    let n = v.len();
    let mut i: usize = 0;
    while i < n
        invariant
            n == v@.len(),
            0 <= i <= n,
            items_view(out@) == items_view(v@.take(i as int)),
        decreases n - i,
    {
        let c = v[i].copy_value();
        proof {
            lemma_items_view_push(out@, c);
            lemma_items_view_push(v@.take(i as int), v@[i as int]);
            assert(v@.take(i as int).push(v@[i as int]) =~= v@.take(i + 1));
        }
        out.push(c);
        i = i + 1;
    }
    proof {
        assert(v@.take(n as int) =~= v@);
    }
    out
}

/// A copy of a sequence of fields.
pub fn copy_fields(v: &Vec<(String, Json)>) -> (r: Vec<(String, Json)>)
    ensures
        fields_view(r@) == fields_view(v@),
{
    let mut out: Vec<(String, Json)> = Vec::new();
    let n = v.len();
    let mut i: usize = 0;
    while i < n
        invariant
            n == v@.len(),
            0 <= i <= n,
            fields_view(out@) == fields_view(v@.take(i as int)),
        decreases n - i,
    {
        let k = v[i].0.clone();
        let c = v[i].1.copy_value();
        proof {
            lemma_fields_view_push(out@, (k, c));
            lemma_fields_view_push(v@.take(i as int), v@[i as int]);
            assert(v@.take(i as int).push(v@[i as int]) =~= v@.take(i + 1));
        }
        out.push((k, c));
        i = i + 1;
    }
    proof {
        assert(v@.take(n as int) =~= v@);
    }
    out
}

/// The value of the first field named `key`.
pub fn get_field<'a>(fields: &'a Vec<(String, Json)>, key: &str) -> (r: Option<&'a Json>)
    ensures
        r is Some <==> lookup(fields_view(fields@), key@) is Some,
        r matches Some(v) ==> lookup(fields_view(fields@), key@) == Some(v@),
{
    let k = owned(key);
    let n = fields.len();
    let mut i: usize = 0;
    proof {
        lemma_fields_view(fields@);
    }
    while i < n
        invariant
            n == fields@.len(),
            0 <= i <= n,
            k@ == key@,
            fields_view(fields@).len() == n,
            forall|j: int| 0 <= j < i ==> #[trigger] fields_view(fields@)[j].0 != key@,
            forall|j: int|
                0 <= j < n ==> #[trigger] fields_view(fields@)[j] == (
                    fields@[j].0@,
                    json_view(fields@[j].1),
                ),
        decreases n - i,
    {
        if fields[i].0 == k {
            proof {
                let fv = fields_view(fields@);
                lemma_lookup_skip(fv, key@, i as int);
                assert(fv.subrange(i as int, n as int)[0] == fv[i as int]);
            }
            return Some(&fields[i].1);
        }
        i = i + 1;
    }
    proof {
        let fv = fields_view(fields@);
        lemma_lookup_skip(fv, key@, n as int);
    }
    None
}

/// Gives the first field named `key` the value `value`, or appends the field
/// when there is none.
pub fn set_field(fields: &mut Vec<(String, Json)>, key: String, value: Json)
    ensures
        fields_view(final(fields)@) == upsert(fields_view(old(fields)@), key@, value@),
{
    let n = fields.len();
    let mut i: usize = 0;
    proof {
        lemma_fields_view(fields@);
    }
    while i < n
        invariant
            n == fields@.len(),
            fields@ == old(fields)@,
            0 <= i <= n,
            fields_view(fields@).len() == n,
            forall|j: int| 0 <= j < i ==> #[trigger] fields_view(fields@)[j].0 != key@,
            forall|j: int|
                0 <= j < n ==> #[trigger] fields_view(fields@)[j] == (
                    fields@[j].0@,
                    json_view(fields@[j].1),
                ),
        decreases n - i,
    {
        if fields[i].0 == key {
            let ghost fv = fields_view(fields@);
            proof {
                lemma_upsert_skip(fv, key@, value@, i as int);
            }
            let ghost kv = key@;
            let ghost vv = value@;
            fields.set(i, (key, value));
            proof {
                lemma_fields_view(fields@);
                let rest = fv.subrange(i as int, n as int);
                assert(rest[0].0 == kv);
                assert(fields_view(fields@) =~= fv.subrange(0, i as int) + rest.update(
                    0,
                    (kv, vv),
                ));
            }
            return ;
        }
        i = i + 1;
    }
    let ghost fv = fields_view(fields@);
    proof {
        lemma_upsert_skip(fv, key@, value@, n as int);
        lemma_fields_view_push(fields@, (key, value));
        assert(fv.subrange(n as int, n as int) =~= Seq::<(Seq<char>, JsonV)>::empty());
        assert(fv.subrange(0, n as int) =~= fv);
    }
    fields.push((key, value));
}

} // verus!

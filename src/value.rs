use vstd::prelude::*;

verus! {

/// A parsed JSON datum.
///
/// Objects are kept as ordered member lists, so that output and tests are
/// deterministic; `==` therefore compares members in order.
#[derive(Debug, PartialEq)]
pub enum Value {
    /// The literal `null`.
    Null,
    /// The literals `true` and `false`.
    Boolean(bool),
    /// A string, with every escape sequence decoded.
    String(String),
    /// A number, kept as the numeral that spelled it.
    Number(String),
    /// Zero or more values, in order.
    Array(Vec<Value>),
    /// Members with unique keys, in the order in which each key first appeared.
    Object(Vec<(String, Value)>),
}

/// The mathematical model of a [`Value`]: strings and numerals as sequences of
/// characters, object members in order.
pub enum JsonValue {
    Null,
    Boolean(bool),
    Str(Seq<char>),
    Number(Seq<char>),
    Array(Seq<JsonValue>),
    Object(Seq<(Seq<char>, JsonValue)>),
}

impl View for Value {
    type V = JsonValue;

    open spec fn view(&self) -> JsonValue {
        model(*self)
    }
}

/// The model of a value.
pub open spec fn model(v: Value) -> JsonValue
    decreases v,
{
    match v {
        Value::Null => JsonValue::Null,
        Value::Boolean(b) => JsonValue::Boolean(b),
        Value::String(s) => JsonValue::Str(s@),
        Value::Number(n) => JsonValue::Number(n@),
        Value::Array(items) => JsonValue::Array(
            Seq::new(items@.len(), |i: int|
                if 0 <= i < items@.len() { model(items@[i]) } else { JsonValue::Null },
            ),
        ),
        Value::Object(members) => JsonValue::Object(
            Seq::new(members@.len(), |i: int|
                if 0 <= i < members@.len() {
                    (members@[i].0@, model(members@[i].1))
                } else {
                    (Seq::empty(), JsonValue::Null)
                },
            ),
        ),
    }
}

/// The models of a sequence of values.
pub open spec fn values_view(vs: Seq<Value>) -> Seq<JsonValue> {
    Seq::new(vs.len(), |i: int| vs[i]@)
}

/// The models of a sequence of object members.
pub open spec fn members_view(ms: Seq<(String, Value)>) -> Seq<(Seq<char>, JsonValue)> {
    Seq::new(ms.len(), |i: int| (ms[i].0@, ms[i].1@))
}

/// No two members share a key.
pub open spec fn keys_unique(ms: Seq<(Seq<char>, JsonValue)>) -> bool {
    forall|a: int, b: int| 0 <= a < ms.len() && 0 <= b < ms.len() && a != b ==> ms[a].0 != ms[b].0
}

/// Whether a member has the key `k`.
pub open spec fn has_key(ms: Seq<(Seq<char>, JsonValue)>, k: Seq<char>) -> bool {
    exists|j: int| 0 <= j < ms.len() && ms[j].0 == k
}

/// `ms` with the value of key `k` set to `v`: the member that holds `k` is
/// overwritten in place, or a new member goes at the end.
pub open spec fn upsert(ms: Seq<(Seq<char>, JsonValue)>, k: Seq<char>, v: JsonValue) -> Seq<
    (Seq<char>, JsonValue),
> {
    if has_key(ms, k) {
        ms.update(choose|j: int| 0 <= j < ms.len() && ms[j].0 == k, (k, v))
    } else {
        ms.push((k, v))
    }
}

/// A tree that the parser can build: no object, at any depth, repeats a key.
pub open spec fn well_formed(v: JsonValue) -> bool
    decreases v,
{
    match v {
        JsonValue::Array(vs) => forall|k: int| 0 <= k < vs.len() ==> well_formed(#[trigger] vs[k]),
        JsonValue::Object(ms) => keys_unique(ms) && forall|k: int|
            0 <= k < ms.len() ==> well_formed(#[trigger] ms[k].1),
        _ => true,
    }
}

/// The model of an array is the models of its elements.
pub proof fn lemma_array_view(vs: Vec<Value>)
    ensures
        Value::Array(vs)@ == JsonValue::Array(values_view(vs@)),
{
    assert(Value::Array(vs)@->Array_0 =~= values_view(vs@));
}

/// The model of an object is the models of its members.
pub proof fn lemma_object_view(ms: Vec<(String, Value)>)
    ensures
        Value::Object(ms)@ == JsonValue::Object(members_view(ms@)),
{
    assert(Value::Object(ms)@->Object_0 =~= members_view(ms@));
}

/// Setting a key keeps keys unique and members well formed.
pub proof fn lemma_upsert_well_formed(ms: Seq<(Seq<char>, JsonValue)>, k: Seq<char>, v: JsonValue)
    requires
        keys_unique(ms),
        forall|m: int| 0 <= m < ms.len() ==> well_formed(#[trigger] ms[m].1),
        well_formed(v),
    ensures
        keys_unique(upsert(ms, k, v)),
        forall|m: int|
            0 <= m < upsert(ms, k, v).len() ==> well_formed(#[trigger] upsert(ms, k, v)[m].1),
{
}

/// The position of the first member from `from` on whose key is `k`, or -1.
pub open spec fn key_index(ms: Seq<(Seq<char>, JsonValue)>, k: Seq<char>, from: int) -> int
    decreases ms.len() - from,
{
    if from < 0 || from >= ms.len() {
        -1
    } else if ms[from].0 == k {
        from
    } else {
        key_index(ms, k, from + 1)
    }
}

/// Two trees are equivalent when they agree value for value, objects compared as
/// mappings: both have as many members, and each member of one has a member of the
/// other with the same key (the first such) and an equivalent value.
pub open spec fn equivalent(a: JsonValue, b: JsonValue) -> bool
    decreases a,
{
    match (a, b) {
        (JsonValue::Array(xs), JsonValue::Array(ys)) => xs.len() == ys.len() && forall|k: int|
            0 <= k < xs.len() ==> equivalent(#[trigger] xs[k], ys[k]),
        (JsonValue::Object(ms), JsonValue::Object(ns)) => ms.len() == ns.len() && forall|k: int|
            0 <= k < ms.len() ==> key_index(ns, (#[trigger] ms[k]).0, 0) >= 0 && equivalent(
                ms[k].1,
                ns[key_index(ns, ms[k].0, 0)].1,
            ),
        _ => a == b,
    }
}

proof fn lemma_element_smaller(vs: Vec<Value>, m: int)
    requires
        0 <= m < vs.len(),
    ensures
        decreases_to!(Value::Array(vs) => vs@[m]),
{
    broadcast use vstd::std_specs::vec::axiom_vec_decreases_to_view;

    let v = Value::Array(vs);
    assert(decreases_to!(v => v->Array_0));
    assert(decreases_to!(vs => vs@));
    assert(decreases_to!(vs@ => vs@[m]));
}

proof fn lemma_member_smaller(ms: Vec<(String, Value)>, m: int)
    requires
        0 <= m < ms.len(),
    ensures
        decreases_to!(Value::Object(ms) => ms@[m].1),
{
    broadcast use vstd::std_specs::vec::axiom_vec_decreases_to_view;

    let v = Value::Object(ms);
    assert(decreases_to!(v => v->Object_0));
    assert(decreases_to!(ms => ms@));
    assert(decreases_to!(ms@ => ms@[m]));
    assert(decreases_to!(ms@[m] => ms@[m].1));
}

impl Value {
    /// Whether two values are equivalent: equal value for value, with objects
    /// compared as mappings, whatever the order of their members.
    pub fn equivalent(&self, other: &Value) -> (r: bool)
        ensures
            r == equivalent(self@, other@),
        decreases self,
    {
        match (self, other) {
            (Value::Null, Value::Null) => true,
            (Value::Boolean(a), Value::Boolean(b)) => *a == *b,
            (Value::String(a), Value::String(b)) => *a == *b,
            (Value::Number(a), Value::Number(b)) => *a == *b,
            (Value::Array(xs), Value::Array(ys)) => {
                proof {
                    lemma_array_view(*xs);
                    lemma_array_view(*ys);
                    assert forall|m: int| 0 <= m < xs.len() implies decreases_to!(*self => xs@[m]) by {
                        lemma_element_smaller(*xs, m);
                    }
                }
                if xs.len() != ys.len() {
                    return false;
                }
                let mut k: usize = 0;
                while k < xs.len()
                    invariant
                        k <= xs.len(),
                        xs.len() == ys.len(),
                        self@ == JsonValue::Array(values_view(xs@)),
                        other@ == JsonValue::Array(values_view(ys@)),
                        forall|m: int| 0 <= m < xs.len() ==> decreases_to!(*self => xs@[m]),
                        forall|m: int| 0 <= m < k ==> equivalent(xs@[m]@, ys@[m]@),
                    decreases xs.len() - k,
                {
                    if !xs[k].equivalent(&ys[k]) {
                        proof {
                            assert(values_view(xs@)[k as int] == xs@[k as int]@);
                            assert(values_view(ys@)[k as int] == ys@[k as int]@);
                        }
                        return false;
                    }
                    k = k + 1;
                }
                proof {
                    let xv = values_view(xs@);
                    let yv = values_view(ys@);
                    assert forall|m: int| 0 <= m < xv.len() implies equivalent(#[trigger] xv[m], yv[m]) by {
                        assert(xv[m] == xs@[m]@);
                        assert(yv[m] == ys@[m]@);
                    }
                }
                true
            },
            (Value::Object(ms), Value::Object(ns)) => {
                proof {
                    lemma_object_view(*ms);
                    lemma_object_view(*ns);
                    assert forall|m: int| 0 <= m < ms.len() implies decreases_to!(*self => ms@[m].1) by {
                        lemma_member_smaller(*ms, m);
                    }
                }
                if ms.len() != ns.len() {
                    return false;
                }
                let ghost a = members_view(ms@);
                let ghost b = members_view(ns@);
                let mut k: usize = 0;
                while k < ms.len()
                    invariant
                        k <= ms.len(),
                        ms.len() == ns.len(),
                        a == members_view(ms@),
                        b == members_view(ns@),
                        self@ == JsonValue::Object(a),
                        other@ == JsonValue::Object(b),
                        forall|m: int| 0 <= m < ms.len() ==> decreases_to!(*self => ms@[m].1),
                        forall|m: int|
                            0 <= m < k ==> key_index(b, (#[trigger] a[m]).0, 0) >= 0 && equivalent(
                                a[m].1,
                                b[key_index(b, a[m].0, 0)].1,
                            ),
                    decreases ms.len() - k,
                {
                    let ghost key = a[k as int].0;
                    let mut j: usize = 0;
                    while j < ns.len() && ns[j].0 != ms[k].0
                        invariant
                            j <= ns.len(),
                            k < ms.len(),
                            a == members_view(ms@),
                            b == members_view(ns@),
                            key == a[k as int].0,
                            key_index(b, key, 0) == key_index(b, key, j as int),
                        decreases ns.len() - j,
                    {
                        proof {
                            assert(b[j as int] == (ns@[j as int].0@, ns@[j as int].1@));
                        }
                        j = j + 1;
                    }
                    proof {
                        assert(a[k as int] == (ms@[k as int].0@, ms@[k as int].1@));
                        if j < ns.len() {
                            assert(b[j as int] == (ns@[j as int].0@, ns@[j as int].1@));
                        }
                    }
                    if j == ns.len() || !ms[k].1.equivalent(&ns[j].1) {
                        proof {
                            assert(!equivalent(self@, other@));
                        }
                        return false;
                    }
                    k = k + 1;
                }
                proof {
                    assert(a.len() == b.len());
                    assert(equivalent(JsonValue::Object(a), JsonValue::Object(b)));
                }
                true
            },
            _ => false,
        }
    }
}

} // verus!

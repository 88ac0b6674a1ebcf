//! A JSON document model: the values that the change dispatcher reads and
//! edits, with the lookups and updates that it performs on them.
use vstd::prelude::*;
use crate::text::{owned, str_eq};

verus! {

/// A JSON number as it is stored: a non-negative integer, a negative
/// integer, or a floating-point number kept as its shortest decimal text.
pub enum JsonNumber {
    PosInt(u64),
    NegInt(i64),
    Float(String),
}

/// A JSON value. Object members keep their order; a key occurs at most once.
pub enum JsonValue {
    Null,
    Bool(bool),
    Number(JsonNumber),
    String(String),
    Array(Vec<JsonValue>),
    Object(Vec<(String, JsonValue)>),
}

/// The mathematical form of a JSON number.
#[verifier::ext_equal]
pub enum NumberView {
    PosInt(u64),
    NegInt(i64),
    Float(Seq<char>),
}

/// The mathematical form of a JSON value.
#[verifier::ext_equal]
pub enum JsonView {
    Null,
    Bool(bool),
    Number(NumberView),
    Str(Seq<char>),
    Array(Seq<JsonView>),
    Object(Seq<(Seq<char>, JsonView)>),
}

pub open spec fn number_view(n: JsonNumber) -> NumberView {
    match n {
        JsonNumber::PosInt(u) => NumberView::PosInt(u),
        JsonNumber::NegInt(i) => NumberView::NegInt(i),
        JsonNumber::Float(s) => NumberView::Float(s@),
    }
}

pub open spec fn json_view(v: JsonValue) -> JsonView
    decreases v,
{
    match v {
        JsonValue::Null => JsonView::Null,
        JsonValue::Bool(b) => JsonView::Bool(b),
        JsonValue::Number(n) => JsonView::Number(number_view(n)),
        JsonValue::String(s) => JsonView::Str(s@),
        JsonValue::Array(items) => JsonView::Array(
            Seq::new(
                items@.len(),
                |i: int|
                    if 0 <= i < items@.len() {
                        json_view(items@[i])
                    } else {
                        JsonView::Null
                    },
            ),
        ),
        JsonValue::Object(members) => JsonView::Object(
            Seq::new(
                members@.len(),
                |i: int|
                    if 0 <= i < members@.len() {
                        (members@[i].0@, json_view(members@[i].1))
                    } else {
                        (Seq::empty(), JsonView::Null)
                    },
            ),
        ),
    }
}

/// The mathematical form of an object's member list.
pub open spec fn members_view(m: Seq<(String, JsonValue)>) -> Seq<(Seq<char>, JsonView)> {
    Seq::new(
        m.len(),
        |i: int|
            if 0 <= i < m.len() {
                (m[i].0@, json_view(m[i].1))
            } else {
                (Seq::empty(), JsonView::Null)
            },
    )
}

/// The mathematical form of an array's items.
pub open spec fn items_view(a: Seq<JsonValue>) -> Seq<JsonView> {
    Seq::new(
        a.len(),
        |i: int|
            if 0 <= i < a.len() {
                json_view(a[i])
            } else {
                JsonView::Null
            },
    )
}

/// The value of the first member named `key`, if any.
pub open spec fn member_lookup(ms: Seq<(Seq<char>, JsonView)>, key: Seq<char>) -> Option<JsonView>
    decreases ms.len(),
{
    if ms.len() == 0 {
        None
    } else if ms[0].0 == key {
        Some(ms[0].1)
    } else {
        member_lookup(ms.drop_first(), key)
    }
}

/// The member list after `key` is given the value `x`: the first member
/// named `key` takes the new value in place, or a new member is appended.
pub open spec fn member_update(
    ms: Seq<(Seq<char>, JsonView)>,
    key: Seq<char>,
    x: JsonView,
) -> Seq<(Seq<char>, JsonView)>
    decreases ms.len(),
{
    if ms.len() == 0 {
        seq![(key, x)]
    } else if ms[0].0 == key {
        seq![(key, x)] + ms.drop_first()
    } else {
        seq![ms[0]] + member_update(ms.drop_first(), key, x)
    }
}

impl JsonView {
    /// The member named `key` of an object; nothing for other values.
    pub open spec fn lookup(self, key: Seq<char>) -> Option<JsonView> {
        match self {
            JsonView::Object(ms) => member_lookup(ms, key),
            _ => None,
        }
    }

    /// Reading `value[key]`: the member named `key`, or `null` when the
    /// value is no object or has no such member.
    pub open spec fn index(self, key: Seq<char>) -> JsonView {
        match self.lookup(key) {
            Some(v) => v,
            None => JsonView::Null,
        }
    }

    /// `value[key] = x` is defined on `null` and on objects.
    pub open spec fn can_assign(self) -> bool {
        self is Null || self is Object
    }

    /// The value after `value[key] = x`: `null` becomes an object first.
    pub open spec fn assign(self, key: Seq<char>, x: JsonView) -> JsonView {
        match self {
            JsonView::Object(ms) => JsonView::Object(member_update(ms, key, x)),
            _ => JsonView::Object(seq![(key, x)]),
        }
    }

    /// `value[k0][k1]...[kn] = x` is defined: each value on the way is
    /// `null` or an object.
    pub open spec fn can_assign_path(self, path: Seq<Seq<char>>) -> bool
        decreases path.len(),
    {
        path.len() == 0 || (self.can_assign() && self.index(path[0]).can_assign_path(
            path.drop_first(),
        ))
    }

    /// The value after `value[k0][k1]...[kn] = x`.
    pub open spec fn assign_path(self, path: Seq<Seq<char>>, x: JsonView) -> JsonView
        decreases path.len(),
    {
        if path.len() == 0 {
            x
        } else {
            self.assign(path[0], self.index(path[0]).assign_path(path.drop_first(), x))
        }
    }

    /// The text of a string value.
    pub open spec fn as_str(self) -> Option<Seq<char>> {
        match self {
            JsonView::Str(s) => Some(s),
            _ => None,
        }
    }

    /// The items of an array value.
    pub open spec fn as_array(self) -> Option<Seq<JsonView>> {
        match self {
            JsonView::Array(a) => Some(a),
            _ => None,
        }
    }
}

/// The keys of a path, from position `at` on.
pub open spec fn path_keys(path: Seq<&str>, at: int) -> Seq<Seq<char>> {
    path.subrange(at, path.len() as int).map_values(|k: &str| k@)
}

proof fn lemma_member_found(ms: Seq<(Seq<char>, JsonView)>, key: Seq<char>, i: int, x: JsonView)
    requires
        0 <= i < ms.len(),
        ms[i].0 == key,
        forall|j: int| 0 <= j < i ==> ms[j].0 != key,
    ensures
        member_lookup(ms, key) == Some(ms[i].1),
        member_update(ms, key, x) == ms.update(i, (key, x)),
    decreases i,
{
    if i > 0 {
        assert forall|j: int| 0 <= j < i - 1 implies ms.drop_first()[j].0 != key by {
            assert(ms.drop_first()[j] == ms[j + 1]);
        }
        lemma_member_found(ms.drop_first(), key, i - 1, x);
    }
    assert(member_update(ms, key, x) =~= ms.update(i, (key, x)));
}

proof fn lemma_member_absent(ms: Seq<(Seq<char>, JsonView)>, key: Seq<char>, x: JsonView)
    requires
        forall|j: int| 0 <= j < ms.len() ==> ms[j].0 != key,
    ensures
        member_lookup(ms, key) is None,
        member_update(ms, key, x) == ms.push((key, x)),
    decreases ms.len(),
{
    if ms.len() > 0 {
        assert forall|j: int| 0 <= j < ms.len() - 1 implies ms.drop_first()[j].0 != key by {
            assert(ms.drop_first()[j] == ms[j + 1]);
        }
        lemma_member_absent(ms.drop_first(), key, x);
        assert(ms[0].0 != key);
    }
    assert(member_update(ms, key, x) =~= ms.push((key, x)));
}

impl View for JsonValue {
    type V = JsonView;

    open spec fn view(&self) -> JsonView {
        json_view(*self)
    }
}


impl JsonValue {
    pub proof fn lemma_object_view(m: Vec<(String, JsonValue)>)
        ensures
            JsonValue::Object(m)@ == JsonView::Object(members_view(m@)),
    {
        let v = JsonValue::Object(m)@;
        assert(v->Object_0 =~= members_view(m@));
    }

    pub proof fn lemma_array_view(a: Vec<JsonValue>)
        ensures
            JsonValue::Array(a)@ == JsonView::Array(items_view(a@)),
    {
        let v = JsonValue::Array(a)@;
        assert(v->Array_0 =~= items_view(a@));
    }

    /// An equal copy of the value.
    pub fn deep_copy(&self) -> (r: JsonValue)
        ensures
            r@ == self@,
        decreases self,
    {
        match self {
            JsonValue::Null => JsonValue::Null,
            JsonValue::Bool(b) => JsonValue::Bool(*b),
            JsonValue::Number(n) => JsonValue::Number(
                match n {
                    JsonNumber::PosInt(u) => JsonNumber::PosInt(*u),
                    JsonNumber::NegInt(i) => JsonNumber::NegInt(*i),
                    JsonNumber::Float(t) => JsonNumber::Float(t.clone()),
                },
            ),
            JsonValue::String(s) => JsonValue::String(s.clone()),
            JsonValue::Array(items) => {
                let mut out: Vec<JsonValue> = Vec::new();
                let mut i: usize = 0;
                while i < items.len()
                    invariant
                        *self == JsonValue::Array(*items),
                        i <= items.len(),
                        out@.len() == i,
                        forall|j: int| 0 <= j < i ==> #[trigger] out@[j]@ == items@[j]@,
                    decreases items.len() - i,
                {
                    proof {
                        let ghost whole = *self;
                        assert(whole == JsonValue::Array(*items));
                        assert(decreases_to!(whole => whole->Array_0));
                        assert(decreases_to!(whole->Array_0 => whole->Array_0@));
                        assert(decreases_to!(whole->Array_0@ => whole->Array_0@[i as int]));
                    }
                    let c = items[i].deep_copy();
                    out.push(c);
                    i = i + 1;
                }
                proof {
                    JsonValue::lemma_array_view(out);
                    JsonValue::lemma_array_view(*items);
                    assert forall|j: int| 0 <= j < out@.len() implies #[trigger] items_view(out@)[j]
                        == items_view(items@)[j] by {
                        assert(out@[j]@ == items@[j]@);
                    }
                    assert(items_view(out@) =~= items_view(items@));
                }
                JsonValue::Array(out)
            },
            JsonValue::Object(members) => {
                let mut out: Vec<(String, JsonValue)> = Vec::new();
                let mut i: usize = 0;
                while i < members.len()
                    invariant
                        *self == JsonValue::Object(*members),
                        i <= members.len(),
                        out@.len() == i,
                        forall|j: int|
                            #![trigger out@[j]]
                            0 <= j < i ==> out@[j].0@ == members@[j].0@ && out@[j].1@ == members@[j].1@,
                    decreases members.len() - i,
                {
                    let k = members[i].0.clone();
                    proof {
                        let ghost whole = *self;
                        assert(decreases_to!(whole => whole->Object_0));
                        assert(decreases_to!(whole->Object_0 => whole->Object_0@));
                        assert(decreases_to!(whole->Object_0@ => whole->Object_0@[i as int]));
                        assert(decreases_to!(whole->Object_0@[i as int] => whole->Object_0@[i as int].1));
                    }
                    let c = members[i].1.deep_copy();
                    out.push((k, c));
                    i = i + 1;
                }
                proof {
                    JsonValue::lemma_object_view(out);
                    JsonValue::lemma_object_view(*members);
                    assert forall|j: int| 0 <= j < out@.len() implies #[trigger] members_view(out@)[j]
                        == members_view(members@)[j] by {
                        assert(out@[j].0@ == members@[j].0@ && out@[j].1@ == members@[j].1@);
                    }
                    assert(members_view(out@) =~= members_view(members@));
                }
                JsonValue::Object(out)
            },
        }
    }
}


/// The JSON number that `serde_json` makes of an `i64`: non-negative
/// values are stored as unsigned integers.
pub open spec fn i64_view(t: i64) -> JsonView {
    if t < 0 {
        JsonView::Number(NumberView::NegInt(t))
    } else {
        JsonView::Number(NumberView::PosInt(t as u64))
    }
}

/// The position of the first member named `key`.
pub fn member_position(m: &Vec<(String, JsonValue)>, key: &str) -> (r: Option<usize>)
    ensures
        match r {
            Some(i) => i < m@.len() && m@[i as int].0@ == key@ && forall|j: int|
                0 <= j < i ==> (#[trigger] m@[j]).0@ != key@,
            None => forall|j: int| 0 <= j < m@.len() ==> (#[trigger] m@[j]).0@ != key@,
        },
{
    let mut i: usize = 0;
    while i < m.len()
        invariant
            i <= m@.len(),
            forall|j: int| 0 <= j < i ==> (#[trigger] m@[j]).0@ != key@,
        decreases m.len() - i,
    {
        if str_eq(m[i].0.as_str(), key) {
            return Some(i);
        }
        i = i + 1;
    }
    None
}

proof fn lemma_members_view_keys(m: Seq<(String, JsonValue)>)
    ensures
        forall|j: int| 0 <= j < m.len() ==> (#[trigger] members_view(m)[j]).0 == m[j].0@,
        forall|j: int| 0 <= j < m.len() ==> (#[trigger] members_view(m)[j]).1 == m[j].1@,
{
}

impl JsonValue {
    /// `serde_json`'s `Value::from(i64)`.
    pub fn from_i64(t: i64) -> (r: JsonValue)
        ensures
            r@ == i64_view(t),
    {
        if t < 0 {
            JsonValue::Number(JsonNumber::NegInt(t))
        } else {
            JsonValue::Number(JsonNumber::PosInt(t as u64))
        }
    }

    /// The member named `key` of an object; `None` for other values and
    /// missing members (where `value[key]` reads `null`).
    pub fn get(&self, key: &str) -> (r: Option<&JsonValue>)
        ensures
            match r {
                Some(v) => self@.lookup(key@) == Some(v@),
                None => self@.lookup(key@) is None,
            },
    {
        match self {
            JsonValue::Object(m) => {
                proof {
                    JsonValue::lemma_object_view(*m);
                    lemma_members_view_keys(m@);
                }
                match member_position(m, key) {
                    Some(i) => {
                        proof {
                            lemma_member_found(members_view(m@), key@, i as int, JsonView::Null);
                        }
                        Some(&m[i].1)
                    },
                    None => {
                        proof {
                            lemma_member_absent(members_view(m@), key@, JsonView::Null);
                        }
                        None
                    },
                }
            },
            _ => None,
        }
    }

    /// The items of an array value.
    pub fn as_array(&self) -> (r: Option<&Vec<JsonValue>>)
        ensures
            match r {
                Some(a) => self@.as_array() == Some(items_view(a@)),
                None => self@.as_array() is None,
            },
    {
        match self {
            JsonValue::Array(a) => {
                proof {
                    JsonValue::lemma_array_view(*a);
                }
                Some(a)
            },
            _ => None,
        }
    }

    /// The text of a string value.
    pub fn as_str(&self) -> (r: Option<&String>)
        ensures
            match r {
                Some(t) => self@.as_str() == Some(t@),
                None => self@.as_str() is None,
            },
    {
        match self {
            JsonValue::String(t) => Some(t),
            _ => None,
        }
    }

    /// `value == text`: the value is a string with exactly this text.
    pub fn eq_str(&self, text: &str) -> (r: bool)
        ensures
            r == (self@.as_str() == Some(text@)),
    {
        match self {
            JsonValue::String(t) => str_eq(t.as_str(), text),
            _ => false,
        }
    }

    /// `value[key] = x`, on `null` or an object.
    pub fn assign(self, key: &str, x: JsonValue) -> (r: JsonValue)
        requires
            self@.can_assign(),
        ensures
            r@ == self@.assign(key@, x@),
    {
        let ghost old_view = self@;
        let mut m: Vec<(String, JsonValue)> = match self {
            JsonValue::Object(m) => {
                proof {
                    JsonValue::lemma_object_view(m);
                }
                m
            },
            _ => Vec::new(),
        };
        let ghost m0 = m@;
        assert(old_view == JsonView::Null ==> members_view(m0) =~= Seq::empty());
        proof {
            lemma_members_view_keys(m0);
        }
        match member_position(&m, key) {
            Some(i) => {
                proof {
                    lemma_member_found(members_view(m0), key@, i as int, x@);
                }
                let k = m[i].0.clone();
                m.set(i, (k, x));
                proof {
                    lemma_members_view_keys(m@);
                    assert(members_view(m@) =~= members_view(m0).update(i as int, (key@, x@)));
                }
            },
            None => {
                proof {
                    lemma_member_absent(members_view(m0), key@, x@);
                }
                m.push((owned(key), x));
                proof {
                    lemma_members_view_keys(m@);
                    assert(members_view(m@) =~= members_view(m0).push((key@, x@)));
                }
            },
        }
        proof {
            JsonValue::lemma_object_view(m);
        }
        JsonValue::Object(m)
    }

    /// `value[path[at]][path[at + 1]]...[path[n - 1]] = x`.
    pub fn assign_path(self, path: &Vec<&str>, at: usize, x: JsonValue) -> (r: JsonValue)
        requires
            at <= path@.len(),
            self@.can_assign_path(path_keys(path@, at as int)),
        ensures
            r@ == self@.assign_path(path_keys(path@, at as int), x@),
        decreases path@.len() - at,
    {
        let ghost keys = path_keys(path@, at as int);
        if at == path.len() {
            assert(keys.len() == 0);
            return x;
        }
        let key = path[at];
        assert(keys[0] == key@);
        assert(keys.drop_first() =~= path_keys(path@, at + 1));
        let ghost old_view = self@;
        let mut m: Vec<(String, JsonValue)> = match self {
            JsonValue::Object(m) => {
                proof {
                    JsonValue::lemma_object_view(m);
                }
                m
            },
            _ => Vec::new(),
        };
        let ghost m0 = m@;
        assert(old_view == JsonView::Null ==> members_view(m0) =~= Seq::empty());
        proof {
            lemma_members_view_keys(m0);
        }
        match member_position(&m, key) {
            Some(i) => {
                let (k, child) = m.remove(i);
                proof {
                    lemma_member_found(members_view(m0), key@, i as int, JsonView::Null);
                    assert(child@ == old_view.index(key@));
                }
                let ghost child_view = child@;
                let updated = child.assign_path(path, at + 1, x);
                proof {
                    lemma_member_found(members_view(m0), key@, i as int, updated@);
                }
                m.insert(i, (k, updated));
                proof {
                    lemma_members_view_keys(m@);
                    assert(members_view(m@) =~= members_view(m0).update(i as int, (key@, updated@)));
                    JsonValue::lemma_object_view(m);
                }
            },
            None => {
                proof {
                    lemma_member_absent(members_view(m0), key@, JsonView::Null);
                    assert(old_view.index(key@) == JsonView::Null);
                }
                let updated = JsonValue::Null.assign_path(path, at + 1, x);
                proof {
                    lemma_member_absent(members_view(m0), key@, updated@);
                }
                m.push((owned(key), updated));
                proof {
                    lemma_members_view_keys(m@);
                    assert(members_view(m@) =~= members_view(m0).push((key@, updated@)));
                    JsonValue::lemma_object_view(m);
                }
            },
        }
        JsonValue::Object(m)
    }
}


impl JsonValue {
    /// Whether `value[path[at]]...[path[n - 1]] = x` is defined.
    pub fn can_assign_path(&self, path: &Vec<&str>, at: usize) -> (r: bool)
        requires
            at <= path@.len(),
        ensures
            r == self@.can_assign_path(path_keys(path@, at as int)),
        decreases path@.len() - at,
    {
        let ghost keys = path_keys(path@, at as int);
        if at == path.len() {
            assert(keys.len() == 0);
            return true;
        }
        let key = path[at];
        assert(keys[0] == key@);
        assert(keys.drop_first() =~= path_keys(path@, at + 1));
        match self {
            JsonValue::Null => {
                let null = JsonValue::Null;
                null.can_assign_path(path, at + 1)
            },
            JsonValue::Object(_) => match self.get(key) {
                Some(child) => child.can_assign_path(path, at + 1),
                None => {
                    let null = JsonValue::Null;
                    null.can_assign_path(path, at + 1)
                },
            },
            _ => false,
        }
    }
}

/// Reading a member just set gives the value set.
pub proof fn lemma_assign_then_index(v: JsonView, key: Seq<char>, x: JsonView)
    requires
        v.can_assign(),
    ensures
        v.assign(key, x).index(key) == x,
        v.assign(key, x) is Object,
{
    match v {
        JsonView::Object(ms) => lemma_update_then_lookup(ms, key, x),
        _ => {},
    }
}

/// Setting a member leaves every other member as it was.
pub proof fn lemma_assign_keeps_others(v: JsonView, key: Seq<char>, x: JsonView, other: Seq<char>)
    requires
        v.can_assign(),
        other != key,
    ensures
        v.assign(key, x).index(other) == v.index(other),
{
    match v {
        JsonView::Object(ms) => lemma_update_keeps_lookup(ms, key, x, other),
        _ => {
            lemma_update_keeps_lookup(Seq::empty(), key, x, other);
            assert(member_update(Seq::empty(), key, x) =~= seq![(key, x)]);
        },
    }
}

proof fn lemma_update_then_lookup(ms: Seq<(Seq<char>, JsonView)>, key: Seq<char>, x: JsonView)
    ensures
        member_lookup(member_update(ms, key, x), key) == Some(x),
    decreases ms.len(),
{
    if ms.len() > 0 && ms[0].0 != key {
        lemma_update_then_lookup(ms.drop_first(), key, x);
        assert((seq![ms[0]] + member_update(ms.drop_first(), key, x)).drop_first() =~= member_update(
            ms.drop_first(),
            key,
            x,
        ));
    }
}

proof fn lemma_update_keeps_lookup(ms: Seq<(Seq<char>, JsonView)>, key: Seq<char>, x: JsonView, other: Seq<char>)
    requires
        other != key,
    ensures
        member_lookup(member_update(ms, key, x), other) == member_lookup(ms, other),
    decreases ms.len(),
{
    let u = member_update(ms, key, x);
    if ms.len() == 0 {
        assert(u =~= seq![(key, x)]);
        assert(u.drop_first() =~= Seq::<(Seq<char>, JsonView)>::empty());
        assert(member_lookup(u.drop_first(), other) is None);
        assert(member_lookup(u, other) == member_lookup(u.drop_first(), other));
    } else if ms[0].0 == key {
        assert(u =~= seq![(key, x)] + ms.drop_first());
        assert(u.drop_first() =~= ms.drop_first());
        assert(member_lookup(u, other) == member_lookup(u.drop_first(), other));
    } else {
        lemma_update_keeps_lookup(ms.drop_first(), key, x, other);
        assert(u =~= seq![ms[0]] + member_update(ms.drop_first(), key, x));
        assert(u.drop_first() =~= member_update(ms.drop_first(), key, x));
        assert(u[0] == ms[0]);
    }
}

/// Reading along a path just set gives the value set.
pub proof fn lemma_assign_path_then_read(v: JsonView, path: Seq<Seq<char>>, x: JsonView)
    requires
        v.can_assign_path(path),
    ensures
        v.assign_path(path, x).read_path(path) == x,
    decreases path.len(),
{
    if path.len() > 0 {
        let child = v.index(path[0]).assign_path(path.drop_first(), x);
        lemma_assign_path_then_read(v.index(path[0]), path.drop_first(), x);
        lemma_assign_then_index(v, path[0], child);
    }
}

/// After a path is set, every path that runs along it to its last step can
/// be set too.
pub proof fn lemma_assign_path_keeps_assignable(v: JsonView, path: Seq<Seq<char>>, x: JsonView, other: Seq<Seq<char>>)
    requires
        v.can_assign_path(path),
        path.len() >= 1,
        other.len() == path.len(),
        forall|i: int| 0 <= i < path.len() - 1 ==> other[i] == path[i],
    ensures
        v.assign_path(path, x).can_assign_path(other),
        v.assign_path(path, x) is Object,
    decreases path.len(),
{
    let child = v.index(path[0]).assign_path(path.drop_first(), x);
    lemma_assign_then_index(v, path[0], child);
    let w = v.assign_path(path, x);
    assert(w == v.assign(path[0], child));
    if path.len() > 1 {
        assert(other[0] == path[0]);
        assert forall|i: int| 0 <= i < path.drop_first().len() - 1 implies other.drop_first()[i]
            == path.drop_first()[i] by {
            assert(other[i + 1] == path[i + 1]);
        }
        lemma_assign_path_keeps_assignable(v.index(path[0]), path.drop_first(), x, other.drop_first());
        assert(w.index(other[0]) == child);
    } else {
        assert(other.drop_first().len() == 0);
        assert(w.index(other[0]).can_assign_path(other.drop_first()));
    }
}

impl JsonView {
    /// Reading `value[k0][k1]...[kn]`.
    pub open spec fn read_path(self, path: Seq<Seq<char>>) -> JsonView
        decreases path.len(),
    {
        if path.len() == 0 {
            self
        } else {
            self.index(path[0]).read_path(path.drop_first())
        }
    }
}


/// Setting a path leaves a neighbouring leaf (same parents, another last
/// key) as it was.
pub proof fn lemma_assign_path_keeps_other_leaf(v: JsonView, path: Seq<Seq<char>>, x: JsonView, other: Seq<Seq<char>>)
    requires
        v.can_assign_path(path),
        path.len() >= 1,
        other.len() == path.len(),
        forall|i: int| 0 <= i < path.len() - 1 ==> other[i] == path[i],
        other[path.len() - 1] != path[path.len() - 1],
    ensures
        v.assign_path(path, x).read_path(other) == v.read_path(other),
    decreases path.len(),
{
    let child = v.index(path[0]).assign_path(path.drop_first(), x);
    let w = v.assign_path(path, x);
    assert(w == v.assign(path[0], child));
    if path.len() == 1 {
        lemma_assign_keeps_others(v, path[0], child, other[0]);
        assert(other.drop_first().len() == 0);
    } else {
        assert(other[0] == path[0]);
        lemma_assign_then_index(v, path[0], child);
        assert forall|i: int| 0 <= i < path.drop_first().len() - 1 implies other.drop_first()[i]
            == path.drop_first()[i] by {
            assert(other[i + 1] == path[i + 1]);
        }
        assert(other.drop_first()[path.len() - 2] == other[path.len() - 1]);
        assert(path.drop_first()[path.len() - 2] == path[path.len() - 1]);
        lemma_assign_path_keeps_other_leaf(v.index(path[0]), path.drop_first(), x, other.drop_first());
    }
}


/// No key occurs twice among an object's members.
pub open spec fn keys_unique(ms: Seq<(Seq<char>, JsonView)>) -> bool {
    forall|i: int, j: int| 0 <= i < j < ms.len() ==> (#[trigger] ms[i]).0 != (#[trigger] ms[j]).0
}

/// Setting a member keeps an object's keys distinct.
pub proof fn lemma_assign_keeps_keys_unique(ms: Seq<(Seq<char>, JsonView)>, key: Seq<char>, x: JsonView)
    requires
        keys_unique(ms),
    ensures
        keys_unique(member_update(ms, key, x)),
{
    if exists|i: int| 0 <= i < ms.len() && ms[i].0 == key {
        let i = choose|i: int| 0 <= i < ms.len() && ms[i].0 == key;
        assert forall|j: int| 0 <= j < i implies (#[trigger] ms[j]).0 != key by {
            assert(ms[j].0 != ms[i].0);
        }
        lemma_member_found(ms, key, i, x);
    } else {
        lemma_member_absent(ms, key, x);
    }
}

} // verus!

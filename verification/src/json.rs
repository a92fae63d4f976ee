//! JSON values: the tree that the logic reads and builds, and the text of it.
//!
//! Reading and writing the text is the work of `serde_json`. Between its value
//! type and the tree stands a row of nodes in pre-order, which is a plain value.

use crate::text;
use serde_json::Value;
use vstd::prelude::*;

verus! {

/// A JSON number.
#[derive(Debug, PartialEq, Eq)]
pub enum JsonNumber {
    /// A whole number that is not negative.
    Unsigned(u64),
    /// A whole number below zero.
    Negative(i64),
    /// Any other number, in its shortest decimal form.
    Other(String),
}

/// A JSON value. The members of an object stand in the order of their keys.
#[derive(Debug, PartialEq, Eq)]
pub enum Json {
    Null,
    Bool(bool),
    Number(JsonNumber),
    Text(String),
    Array(Vec<Json>),
    Object(Vec<(String, Json)>),
}

/// The mathematical form of a `JsonNumber`.
pub enum JsonNumberV {
    Unsigned(u64),
    Negative(i64),
    Other(Seq<char>),
}

/// The mathematical form of a `Json`.
pub enum JsonV {
    Null,
    Bool(bool),
    Number(JsonNumberV),
    Text(Seq<char>),
    Array(Seq<JsonV>),
    Object(Seq<(Seq<char>, JsonV)>),
}

impl JsonNumber {
    pub open spec fn view(self) -> JsonNumberV {
        match self {
            JsonNumber::Unsigned(n) => JsonNumberV::Unsigned(n),
            JsonNumber::Negative(n) => JsonNumberV::Negative(n),
            JsonNumber::Other(t) => JsonNumberV::Other(t@),
        }
    }

    /// The decimal form of the number.
    pub fn to_decimal(&self) -> (res: String)
        ensures
            res@ == number_text(self@),
    {
        match self {
            JsonNumber::Unsigned(n) => text::decimal(*n),
            JsonNumber::Negative(n) => text::decimal_signed(*n),
            JsonNumber::Other(t) => t.clone(),
        }
    }

    /// The same number again.
    pub fn copy(&self) -> (res: JsonNumber)
        ensures
            res@ == self@,
    {
        match self {
            JsonNumber::Unsigned(n) => JsonNumber::Unsigned(*n),
            JsonNumber::Negative(n) => JsonNumber::Negative(*n),
            JsonNumber::Other(t) => JsonNumber::Other(t.clone()),
        }
    }
}

impl Json {
    pub open spec fn view(self) -> JsonV
        decreases self,
    {
        match self {
            Json::Null => JsonV::Null,
            Json::Bool(b) => JsonV::Bool(b),
            Json::Number(n) => JsonV::Number(n@),
            Json::Text(t) => JsonV::Text(t@),
            Json::Array(items) => JsonV::Array(
                Seq::new(
                    items@.len(),
                    |i: int|
                        if 0 <= i < items@.len() {
                            items@[i].view()
                        } else {
                            JsonV::Null
                        },
                ),
            ),
            Json::Object(members) => JsonV::Object(
                Seq::new(
                    members@.len(),
                    |i: int|
                        if 0 <= i < members@.len() {
                            (members@[i].0@, members@[i].1.view())
                        } else {
                            (Seq::empty(), JsonV::Null)
                        },
                ),
            ),
        }
    }
}

/// The views of a row of values.
pub open spec fn values(items: Seq<Json>) -> Seq<JsonV> {
    Seq::new(items.len(), |i: int| items[i]@)
}

/// The views of the members of an object.
pub open spec fn members(items: Seq<(String, Json)>) -> Seq<(Seq<char>, JsonV)> {
    Seq::new(items.len(), |i: int| (items[i].0@, items[i].1@))
}

/// What the view of an array or an object is made of.
pub broadcast proof fn lemma_view_parts(j: Json)
    ensures
        #![trigger j@]
        j matches Json::Array(items) ==> j@ == JsonV::Array(values(items@)),
        j matches Json::Object(m) ==> j@ == JsonV::Object(members(m@)),
{
    match j {
        Json::Array(items) => {
            assert(j@->Array_0 =~= values(items@));
        },
        Json::Object(m) => {
            assert(j@->Object_0 =~= members(m@));
        },
        _ => {},
    }
}

// ---------------------------------------------------------------------------
// Reading a value
// ---------------------------------------------------------------------------

impl JsonV {
    /// The member of an object under `key`, the first where several share it.
    pub open spec fn get(self, key: Seq<char>) -> Option<JsonV> {
        match self {
            JsonV::Object(m) => member_from(m, key, 0),
            _ => None,
        }
    }

    /// The value under `b` in the value under `a`.
    pub open spec fn at2(self, a: Seq<char>, b: Seq<char>) -> Option<JsonV> {
        match self.get(a) {
            Some(child) => child.get(b),
            None => None,
        }
    }

    /// The value under `c` in the value under `b` in the value under `a`.
    pub open spec fn at3(self, a: Seq<char>, b: Seq<char>, c: Seq<char>) -> Option<JsonV> {
        match self.at2(a, b) {
            Some(child) => child.get(c),
            None => None,
        }
    }

    /// The text under `b` in the value under `a`.
    pub open spec fn text2(self, a: Seq<char>, b: Seq<char>) -> Option<Seq<char>> {
        match self.at2(a, b) {
            Some(v) => v.as_text(),
            None => None,
        }
    }

    /// The text of a string.
    pub open spec fn as_text(self) -> Option<Seq<char>> {
        match self {
            JsonV::Text(t) => Some(t),
            _ => None,
        }
    }

    /// The items of an array.
    pub open spec fn as_items(self) -> Option<Seq<JsonV>> {
        match self {
            JsonV::Array(a) => Some(a),
            _ => None,
        }
    }

    /// The truth value of a boolean.
    pub open spec fn as_flag(self) -> Option<bool> {
        match self {
            JsonV::Bool(b) => Some(b),
            _ => None,
        }
    }

    /// A whole number of 64 bits with sign.
    pub open spec fn as_int(self) -> Option<i64> {
        match self {
            JsonV::Number(JsonNumberV::Unsigned(n)) => if n <= i64::MAX {
                Some(n as i64)
            } else {
                None
            },
            JsonV::Number(JsonNumberV::Negative(n)) => Some(n),
            _ => None,
        }
    }

    /// A whole number of 64 bits without sign.
    pub open spec fn as_count(self) -> Option<u64> {
        match self {
            JsonV::Number(JsonNumberV::Unsigned(n)) => Some(n),
            _ => None,
        }
    }

    /// The text under `key`.
    pub open spec fn text(self, key: Seq<char>) -> Option<Seq<char>> {
        match self.get(key) {
            Some(v) => v.as_text(),
            None => None,
        }
    }

    /// The text under `key`, or the empty text.
    pub open spec fn text_or_empty(self, key: Seq<char>) -> Seq<char> {
        match self.text(key) {
            Some(t) => t,
            None => Seq::empty(),
        }
    }

    /// The items under `key`.
    pub open spec fn items(self, key: Seq<char>) -> Option<Seq<JsonV>> {
        match self.get(key) {
            Some(v) => v.as_items(),
            None => None,
        }
    }

    /// The number with sign under `key`.
    pub open spec fn whole(self, key: Seq<char>) -> Option<i64> {
        match self.get(key) {
            Some(v) => v.as_int(),
            None => None,
        }
    }

    /// The number without sign under `key`.
    pub open spec fn count(self, key: Seq<char>) -> Option<u64> {
        match self.get(key) {
            Some(v) => v.as_count(),
            None => None,
        }
    }

    /// The truth value under `key`.
    pub open spec fn flag(self, key: Seq<char>) -> Option<bool> {
        match self.get(key) {
            Some(v) => v.as_flag(),
            None => None,
        }
    }
}

/// The first member from position `i` on whose key is `key`.
pub open spec fn member_from(m: Seq<(Seq<char>, JsonV)>, key: Seq<char>, i: int) -> Option<JsonV>
    decreases m.len() - i,
{
    if i < 0 || i >= m.len() {
        None
    } else if m[i].0 == key {
        Some(m[i].1)
    } else {
        member_from(m, key, i + 1)
    }
}

/// Whether an optional value and its view agree.
pub open spec fn opt(v: Option<&Json>) -> Option<JsonV> {
    match v {
        Some(j) => Some(j@),
        None => None,
    }
}

/// The view of an optional string slice.
pub open spec fn opt_str(v: Option<&str>) -> Option<Seq<char>> {
    match v {
        Some(s) => Some(s@),
        None => None,
    }
}

impl Json {
    /// The member of an object under `key`.
    pub fn get(&self, key: &str) -> (res: Option<&Json>)
        ensures
            opt(res) == self@.get(key@),
    {
        broadcast use lemma_view_parts;

        match self {
            Json::Object(m) => {
                let mut i: usize = 0;
                while i < m.len()
                    invariant
                        i <= m@.len(),
                        self@ == JsonV::Object(members(m@)),
                        member_from(members(m@), key@, 0) == member_from(
                            members(m@),
                            key@,
                            i as int,
                        ),
                    decreases m@.len() - i,
                {
                    if text::same(m[i].0.as_str(), key) {
                        return Some(&m[i].1);
                    }
                    i += 1;
                }
                None
            },
            _ => None,
        }
    }

    /// The value under `b` in the value under `a`.
    pub fn at2(&self, a: &str, b: &str) -> (res: Option<&Json>)
        ensures
            opt(res) == self@.at2(a@, b@),
    {
        match self.get(a) {
            Some(child) => child.get(b),
            None => None,
        }
    }

    /// The value under `c` in the value under `b` in the value under `a`.
    pub fn at3(&self, a: &str, b: &str, c: &str) -> (res: Option<&Json>)
        ensures
            opt(res) == self@.at3(a@, b@, c@),
    {
        match self.at2(a, b) {
            Some(child) => child.get(c),
            None => None,
        }
    }

    /// The text under `b` in the value under `a`.
    pub fn text2(&self, a: &str, b: &str) -> (res: Option<&str>)
        ensures
            opt_str(res) == self@.text2(a@, b@),
    {
        match self.at2(a, b) {
            Some(v) => v.as_str(),
            None => None,
        }
    }

    /// The text of a string.
    pub fn as_str(&self) -> (res: Option<&str>)
        ensures
            opt_str(res) == self@.as_text(),
    {
        match self {
            Json::Text(t) => Some(t.as_str()),
            _ => None,
        }
    }

    /// The items of an array.
    pub fn as_array(&self) -> (res: Option<&Vec<Json>>)
        ensures
            match res {
                Some(a) => self@.as_items() == Some(values(a@)),
                None => self@.as_items() is None,
            },
    {
        broadcast use lemma_view_parts;

        match self {
            Json::Array(a) => Some(a),
            _ => None,
        }
    }

    /// The truth value of a boolean.
    pub fn as_bool(&self) -> (res: Option<bool>)
        ensures
            res == self@.as_flag(),
    {
        match self {
            Json::Bool(b) => Some(*b),
            _ => None,
        }
    }

    /// A whole number of 64 bits with sign.
    pub fn as_i64(&self) -> (res: Option<i64>)
        ensures
            res == self@.as_int(),
    {
        match self {
            Json::Number(JsonNumber::Unsigned(n)) => if *n <= 0x7fff_ffff_ffff_ffff {
                Some(*n as i64)
            } else {
                None
            },
            Json::Number(JsonNumber::Negative(n)) => Some(*n),
            _ => None,
        }
    }

    /// A whole number of 64 bits without sign.
    pub fn as_u64(&self) -> (res: Option<u64>)
        ensures
            res == self@.as_count(),
    {
        match self {
            Json::Number(JsonNumber::Unsigned(n)) => Some(*n),
            _ => None,
        }
    }

    /// The text under `key`.
    pub fn get_str(&self, key: &str) -> (res: Option<&str>)
        ensures
            opt_str(res) == self@.text(key@),
    {
        match self.get(key) {
            Some(v) => v.as_str(),
            None => None,
        }
    }

    /// The text under `key`, or the empty text.
    pub fn get_str_or_empty(&self, key: &str) -> (res: String)
        ensures
            res@ == self@.text_or_empty(key@),
    {
        match self.get_str(key) {
            Some(t) => t.to_owned(),
            None => String::new(),
        }
    }

    /// The items under `key`.
    pub fn get_array(&self, key: &str) -> (res: Option<&Vec<Json>>)
        ensures
            match res {
                Some(a) => self@.items(key@) == Some(values(a@)),
                None => self@.items(key@) is None,
            },
    {
        match self.get(key) {
            Some(v) => v.as_array(),
            None => None,
        }
    }

    /// The number with sign under `key`.
    pub fn get_i64(&self, key: &str) -> (res: Option<i64>)
        ensures
            res == self@.whole(key@),
    {
        match self.get(key) {
            Some(v) => v.as_i64(),
            None => None,
        }
    }

    /// The number without sign under `key`.
    pub fn get_u64(&self, key: &str) -> (res: Option<u64>)
        ensures
            res == self@.count(key@),
    {
        match self.get(key) {
            Some(v) => v.as_u64(),
            None => None,
        }
    }

    /// The truth value under `key`.
    pub fn get_bool(&self, key: &str) -> (res: Option<bool>)
        ensures
            res == self@.flag(key@),
    {
        match self.get(key) {
            Some(v) => v.as_bool(),
            None => None,
        }
    }

    /// The same value again.
    pub fn copy(&self) -> (res: Json)
        ensures
            res@ == self@,
        decreases self,
    {
        broadcast use lemma_view_parts;

        match self {
            Json::Null => Json::Null,
            Json::Bool(b) => Json::Bool(*b),
            Json::Number(n) => Json::Number(n.copy()),
            Json::Text(t) => Json::Text(t.clone()),
            Json::Array(items) => {
                let mut out: Vec<Json> = Vec::new();
                let mut i: usize = 0;
                while i < items.len()
                    invariant
                        i <= items@.len(),
                        self == Json::Array(*items),
                        values(out@) == values(items@).take(i as int),
                    decreases items@.len() - i,
                {
                    assert(decreases_to!(*self => self->Array_0));
                    assert(decreases_to!(items => items@));
                    assert(decreases_to!(items@ => items@[i as int]));
                    let item = items[i].copy();
                    let ghost before = out@;
                    out.push(item);
                    assert(values(out@) =~= values(before).push(item@));
                    assert(values(items@).take(i + 1) =~= values(items@).take(i as int).push(
                        items@[i as int]@,
                    ));
                    i += 1;
                }
                assert(values(out@) =~= values(items@));
                Json::Array(out)
            },
            Json::Object(m) => {
                let mut out: Vec<(String, Json)> = Vec::new();
                let mut i: usize = 0;
                while i < m.len()
                    invariant
                        i <= m@.len(),
                        self == Json::Object(*m),
                        members(out@) == members(m@).take(i as int),
                    decreases m@.len() - i,
                {
                    assert(decreases_to!(*self => self->Object_0));
                    assert(decreases_to!(m => m@));
                    assert(decreases_to!(m@ => m@[i as int]));
                    assert(decreases_to!(m@[i as int] => m@[i as int].1));
                    let item = m[i].1.copy();
                    let ghost before = out@;
                    out.push((m[i].0.clone(), item));
                    assert(members(out@) =~= members(before).push((m@[i as int].0@, item@)));
                    assert(members(m@).take(i + 1) =~= members(m@).take(i as int).push(
                        (m@[i as int].0@, m@[i as int].1@),
                    ));
                    i += 1;
                }
                assert(members(out@) =~= members(m@));
                Json::Object(out)
            },
        }
    }
}

impl Clone for Json {
    fn clone(&self) -> (res: Json)
        ensures
            res@ == self@,
    {
        self.copy()
    }
}

// ---------------------------------------------------------------------------
// Building a value
// ---------------------------------------------------------------------------

/// The string `s`.
pub fn string(s: &str) -> (res: Json)
    ensures
        res@ == JsonV::Text(s@),
{
    Json::Text(s.to_owned())
}

/// The number `n`.
pub fn number(n: u64) -> (res: Json)
    ensures
        res@ == JsonV::Number(JsonNumberV::Unsigned(n)),
{
    Json::Number(JsonNumber::Unsigned(n))
}

/// The view of a whole number of either sign.
pub open spec fn int_view(n: i64) -> JsonV {
    if n >= 0 {
        JsonV::Number(JsonNumberV::Unsigned(n as u64))
    } else {
        JsonV::Number(JsonNumberV::Negative(n))
    }
}

/// The number `n`, of either sign.
pub fn integer(n: i64) -> (res: Json)
    ensures
        res@ == int_view(n),
{
    if n >= 0 {
        Json::Number(JsonNumber::Unsigned(n as u64))
    } else {
        Json::Number(JsonNumber::Negative(n))
    }
}

/// The array of `items`.
pub fn array(items: Vec<Json>) -> (res: Json)
    ensures
        res@ == JsonV::Array(values(items@)),
{
    broadcast use lemma_view_parts;

    Json::Array(items)
}

/// The object with one member.
pub open spec fn obj1(a: Seq<char>, x: JsonV) -> JsonV {
    JsonV::Object(Seq::empty().push((a, x)))
}

/// The object with two members.
pub open spec fn obj2(a: Seq<char>, x: JsonV, b: Seq<char>, y: JsonV) -> JsonV {
    JsonV::Object(Seq::empty().push((a, x)).push((b, y)))
}

/// The object with three members.
pub open spec fn obj3(
    a: Seq<char>,
    x: JsonV,
    b: Seq<char>,
    y: JsonV,
    c: Seq<char>,
    z: JsonV,
) -> JsonV {
    JsonV::Object(Seq::empty().push((a, x)).push((b, y)).push((c, z)))
}

/// The object with four members.
pub open spec fn obj4(
    a: Seq<char>,
    x: JsonV,
    b: Seq<char>,
    y: JsonV,
    c: Seq<char>,
    z: JsonV,
    d: Seq<char>,
    w: JsonV,
) -> JsonV {
    JsonV::Object(Seq::empty().push((a, x)).push((b, y)).push((c, z)).push((d, w)))
}

/// The members `m`, and one more where there is a value for it.
pub open spec fn and_opt(
    m: Seq<(Seq<char>, JsonV)>,
    key: Seq<char>,
    value: Option<JsonV>,
) -> Seq<(Seq<char>, JsonV)> {
    match value {
        Some(v) => m.push((key, v)),
        None => m,
    }
}

/// `s` as a JSON string.
pub open spec fn jstr(s: Seq<char>) -> JsonV {
    JsonV::Text(s)
}

/// `n` as a JSON number.
pub open spec fn num(n: u64) -> JsonV {
    JsonV::Number(JsonNumberV::Unsigned(n))
}

/// The object that `fields` are put into one after the other.
pub struct Fields {
    pub members: Vec<(String, Json)>,
}

impl Fields {
    pub open spec fn view(self) -> Seq<(Seq<char>, JsonV)> {
        members(self.members@)
    }

    /// No members yet.
    pub fn new() -> (res: Fields)
        ensures
            res@ == Seq::<(Seq<char>, JsonV)>::empty(),
    {
        let res = Fields { members: Vec::new() };
        assert(res@ =~= Seq::empty());
        res
    }

    /// These members and one more.
    pub fn with(self, key: &str, value: Json) -> (res: Fields)
        ensures
            res@ == self@.push((key@, value@)),
    {
        let mut m = self.members;
        let ghost before = m@;
        m.push((key.to_owned(), value));
        assert(members(m@) =~= members(before).push((key@, value@)));
        Fields { members: m }
    }

    /// These members and one more, a string.
    pub fn text(self, key: &str, value: &str) -> (res: Fields)
        ensures
            res@ == self@.push((key@, JsonV::Text(value@))),
    {
        self.with(key, string(value))
    }

    /// These members, and one more where there is a value for it.
    pub fn with_opt(self, key: &str, value: Option<Json>) -> (res: Fields)
        ensures
            res@ == and_opt(
                self@,
                key@,
                match value {
                    Some(v) => Some(v@),
                    None => None,
                },
            ),
    {
        match value {
            Some(v) => self.with(key, v),
            None => self,
        }
    }

    /// The object of these members.
    pub fn object(self) -> (res: Json)
        ensures
            res@ == JsonV::Object(self@),
    {
        broadcast use lemma_view_parts;

        Json::Object(self.members)
    }
}

// ---------------------------------------------------------------------------
// Values as rows of nodes
// ---------------------------------------------------------------------------

/// One node of a value. An array is followed by its items, an object by the
/// values of its keys.
pub enum Node {
    Null,
    Bool(bool),
    /// A number, in decimal form.
    Number(String),
    Text(String),
    Array(usize),
    Object(Vec<String>),
}

/// The mathematical form of a `Node`.
pub enum NodeV {
    Null,
    Bool(bool),
    Number(Seq<char>),
    Text(Seq<char>),
    Array(nat),
    Object(Seq<Seq<char>>),
}

impl Node {
    pub open spec fn view(self) -> NodeV {
        match self {
            Node::Null => NodeV::Null,
            Node::Bool(b) => NodeV::Bool(b),
            Node::Number(t) => NodeV::Number(t@),
            Node::Text(t) => NodeV::Text(t@),
            Node::Array(n) => NodeV::Array(n as nat),
            Node::Object(keys) => NodeV::Object(text::strs(keys@)),
        }
    }
}

/// The views of a row of nodes.
pub open spec fn nodes(v: Seq<Node>) -> Seq<NodeV> {
    Seq::new(v.len(), |i: int| v[i]@)
}

/// The members made of keys and values in the same order.
pub open spec fn zip(keys: Seq<Seq<char>>, items: Seq<JsonV>) -> Seq<(Seq<char>, JsonV)> {
    Seq::new(keys.len(), |i: int| (keys[i], items[i]))
}

/// The number that a decimal form stands for.
pub open spec fn number_of(t: Seq<char>) -> JsonNumberV {
    let whole = text::digits_value(t);
    let below_zero = text::digits_value(t.skip(1));
    if whole is Some && whole->0 <= u64::MAX {
        JsonNumberV::Unsigned(whole->0 as u64)
    } else if t.len() > 0 && t[0] == '-' && below_zero is Some && 0 < below_zero->0
        <= 0x8000_0000_0000_0000 {
        JsonNumberV::Negative((-(below_zero->0 as int)) as i64)
    } else {
        JsonNumberV::Other(t)
    }
}

/// The decimal form of a number.
pub open spec fn number_text(n: JsonNumberV) -> Seq<char> {
    match n {
        JsonNumberV::Unsigned(n) => text::digits(n as nat),
        JsonNumberV::Negative(n) => text::signed(n as int),
        JsonNumberV::Other(t) => t,
    }
}

/// The value whose nodes begin at `pos`, and where they end.
pub open spec fn tree_at(row: Seq<NodeV>, pos: int) -> Option<(JsonV, int)>
    decreases row.len() - pos, 0nat,
{
    if pos < 0 || pos >= row.len() {
        None
    } else {
        match row[pos] {
            NodeV::Null => Some((JsonV::Null, pos + 1)),
            NodeV::Bool(b) => Some((JsonV::Bool(b), pos + 1)),
            NodeV::Number(t) => Some((JsonV::Number(number_of(t)), pos + 1)),
            NodeV::Text(t) => Some((JsonV::Text(t), pos + 1)),
            NodeV::Array(n) => match trees_at(row, pos + 1, n) {
                Some((items, end)) => Some((JsonV::Array(items), end)),
                None => None,
            },
            NodeV::Object(keys) => match trees_at(row, pos + 1, keys.len()) {
                Some((items, end)) => Some((JsonV::Object(zip(keys, items)), end)),
                None => None,
            },
        }
    }
}

/// The `n` values whose nodes begin at `pos`, and where the last one ends.
pub open spec fn trees_at(row: Seq<NodeV>, pos: int, n: nat) -> Option<(Seq<JsonV>, int)>
    decreases row.len() - pos, 1nat,
{
    if n == 0 {
        Some((Seq::empty(), pos))
    } else if pos < 0 || pos >= row.len() {
        None
    } else {
        match tree_at(row, pos) {
            Some((first, next)) => if pos < next <= row.len() {
                match trees_at(row, next, (n - 1) as nat) {
                    Some((rest, end)) => Some((seq![first] + rest, end)),
                    None => None,
                }
            } else {
                None
            },
            None => None,
        }
    }
}

/// The value of a whole row of nodes.
pub open spec fn tree_of(row: Seq<NodeV>) -> Option<JsonV> {
    match tree_at(row, 0) {
        Some((value, end)) => if end == row.len() {
            Some(value)
        } else {
            None
        },
        None => None,
    }
}

/// The nodes of a value, in pre-order.
pub open spec fn nodes_of(j: JsonV) -> Seq<NodeV>
    decreases j,
{
    match j {
        JsonV::Null => seq![NodeV::Null],
        JsonV::Bool(b) => seq![NodeV::Bool(b)],
        JsonV::Number(n) => seq![NodeV::Number(number_text(n))],
        JsonV::Text(t) => seq![NodeV::Text(t)],
        JsonV::Array(items) => seq![NodeV::Array(items.len())] + nodes_of_items(items),
        JsonV::Object(m) => seq![NodeV::Object(keys_of(m))] + nodes_of_members(m),
    }
}

/// The keys of an object's members.
pub open spec fn keys_of(m: Seq<(Seq<char>, JsonV)>) -> Seq<Seq<char>> {
    Seq::new(m.len(), |i: int| m[i].0)
}

/// The nodes of the items one after the other.
pub open spec fn nodes_of_items(items: Seq<JsonV>) -> Seq<NodeV>
    decreases items,
{
    if items.len() == 0 {
        Seq::empty()
    } else {
        nodes_of_items(items.drop_last()) + nodes_of(items[items.len() - 1])
    }
}

/// The nodes of the members' values one after the other.
pub open spec fn nodes_of_members(m: Seq<(Seq<char>, JsonV)>) -> Seq<NodeV>
    decreases m,
{
    if m.len() == 0 {
        Seq::empty()
    } else {
        nodes_of_members(m.drop_last()) + nodes_of(m[m.len() - 1].1)
    }
}

/// A value built from the nodes of `tree_at` ends behind where it begins.
proof fn lemma_tree_at_end(row: Seq<NodeV>, pos: int)
    ensures
        tree_at(row, pos) matches Some((_, end)) ==> 0 <= pos < end <= row.len(),
    decreases row.len() - pos, 0nat,
{
    if 0 <= pos < row.len() {
        match row[pos] {
            NodeV::Array(n) => {
                lemma_trees_at_end(row, pos + 1, n);
            },
            NodeV::Object(keys) => {
                lemma_trees_at_end(row, pos + 1, keys.len());
            },
            _ => {},
        }
    }
}

proof fn lemma_trees_at_end(row: Seq<NodeV>, pos: int, n: nat)
    requires
        pos <= row.len(),
    ensures
        trees_at(row, pos, n) matches Some((items, end)) ==> items.len() == n && pos <= end
            <= row.len(),
    decreases row.len() - pos, 1nat,
{
    if n > 0 && 0 <= pos < row.len() {
        match tree_at(row, pos) {
            Some((_, next)) => {
                if pos < next <= row.len() {
                    lemma_trees_at_end(row, next, (n - 1) as nat);
                }
            },
            None => {},
        }
    }
}

/// Taking the values of `a` trees and then of `b` more is taking `a + b`.
proof fn lemma_trees_at_add(row: Seq<NodeV>, pos: int, a: nat, b: nat)
    requires
        0 <= pos <= row.len(),
        trees_at(row, pos, a) is Some,
    ensures
        ({
            let (xs, mid) = trees_at(row, pos, a)->0;
            trees_at(row, pos, a + b) == match trees_at(row, mid, b) {
                Some((ys, end)) => Some((xs + ys, end)),
                None => None,
            }
        }),
    decreases a,
{
    let (xs, mid) = trees_at(row, pos, a)->0;
    if a == 0 {
        match trees_at(row, mid, b) {
            Some((ys, end)) => {
                assert(xs + ys =~= ys);
            },
            None => {},
        }
    } else {
        let (first, next) = tree_at(row, pos)->0;
        lemma_trees_at_add(row, next, (a - 1) as nat, b);
        let (rest, _) = trees_at(row, next, (a - 1) as nat)->0;
        assert((a - 1) as nat + b == (a + b - 1) as nat);
        match trees_at(row, mid, b) {
            Some((ys, end)) => {
                assert(seq![first] + (rest + ys) =~= (seq![first] + rest) + ys);
            },
            None => {},
        }
    }
}

/// Whether each number of a value is in its own form: one that is called below
/// zero is, and one that is called no whole number does not read as one.
pub open spec fn in_form(j: JsonV) -> bool
    decreases j,
{
    match j {
        JsonV::Number(JsonNumberV::Negative(n)) => n < 0,
        JsonV::Number(JsonNumberV::Other(t)) => number_of(t) is Other,
        JsonV::Array(items) => forall|i: int|
            0 <= i < items.len() ==> in_form(#[trigger] items[i]),
        JsonV::Object(m) => forall|i: int| 0 <= i < m.len() ==> in_form((#[trigger] m[i]).1),
        _ => true,
    }
}

/// The decimal form of a number in its own form stands for that number.
proof fn lemma_number_read_back(n: JsonNumberV)
    requires
        in_form(JsonV::Number(n)),
    ensures
        number_of(number_text(n)) == n,
{
    match n {
        JsonNumberV::Unsigned(u) => {
            text::lemma_digits_read_back(u as nat);
        },
        JsonNumberV::Negative(i) => {
            let t = number_text(n);
            text::lemma_digits_read_back((-i) as nat);
            assert(t.skip(1) =~= text::digits((-i) as nat));
            text::lemma_digits_value_first(t);
        },
        JsonNumberV::Other(_) => {},
    }
}

/// The nodes of a value, wherever they stand in a row, are read as one value: that
/// value, where its numbers are in their own form.
pub proof fn lemma_nodes_read_back(pre: Seq<NodeV>, j: JsonV, post: Seq<NodeV>)
    ensures
        tree_at(pre + nodes_of(j) + post, pre.len() as int) matches Some((value, end)) && end
            == pre.len() + nodes_of(j).len() && (in_form(j) ==> value == j),
        nodes_of(j).len() > 0,
    decreases j,
{
    let row = pre + nodes_of(j) + post;
    match j {
        JsonV::Array(items) => {
            let head = seq![NodeV::Array(items.len())];
            assert(row =~= (pre + head) + nodes_of_items(items) + post);
            lemma_items_read_back(pre + head, items, post);
            assert(row[pre.len() as int] == head[0]);
        },
        JsonV::Object(m) => {
            let head = seq![NodeV::Object(keys_of(m))];
            assert(row =~= (pre + head) + nodes_of_members(m) + post);
            lemma_members_read_back(pre + head, m, post);
            assert(row[pre.len() as int] == head[0]);
            let items = Seq::new(m.len(), |i: int| m[i].1);
            assert(zip(keys_of(m), items) =~= m);
        },
        JsonV::Number(n) => {
            assert(row[pre.len() as int] == nodes_of(j)[0]);
            if in_form(j) {
                lemma_number_read_back(n);
            }
        },
        _ => {
            assert(row[pre.len() as int] == nodes_of(j)[0]);
        },
    }
}

proof fn lemma_items_read_back(pre: Seq<NodeV>, items: Seq<JsonV>, post: Seq<NodeV>)
    ensures
        trees_at(pre + nodes_of_items(items) + post, pre.len() as int, items.len()) matches Some(
            (read, end),
        ) && end == pre.len() + nodes_of_items(items).len() && ((forall|i: int|
            0 <= i < items.len() ==> in_form(#[trigger] items[i])) ==> read == items),
    decreases items,
{
    let row = pre + nodes_of_items(items) + post;
    if items.len() == 0 {
        assert(items =~= Seq::empty());
    } else {
        let last = items[items.len() - 1];
        let front = items.drop_last();
        assert(row =~= pre + nodes_of_items(front) + (nodes_of(last) + post));
        lemma_items_read_back(pre, front, nodes_of(last) + post);
        let pre2 = pre + nodes_of_items(front);
        assert(row =~= pre2 + nodes_of(last) + post);
        lemma_nodes_read_back(pre2, last, post);
        lemma_trees_at_add(row, pre.len() as int, front.len(), 1);
        let (first_read, _) = trees_at(row, pre.len() as int, front.len())->0;
        let (last_read, end) = tree_at(row, pre2.len() as int)->0;
        assert(trees_at(row, end, 0) == Some((Seq::<JsonV>::empty(), end)));
        assert(trees_at(row, pre2.len() as int, 1) == Some((seq![last_read] + Seq::empty(), end)));
        if forall|i: int| 0 <= i < items.len() ==> in_form(#[trigger] items[i]) {
            assert forall|i: int| 0 <= i < front.len() implies in_form(#[trigger] front[i]) by {
                assert(front[i] == items[i]);
            }
            assert(front + (seq![last] + Seq::<JsonV>::empty()) =~= items);
        }
    }
}

proof fn lemma_members_read_back(
    pre: Seq<NodeV>,
    m: Seq<(Seq<char>, JsonV)>,
    post: Seq<NodeV>,
)
    ensures
        trees_at(pre + nodes_of_members(m) + post, pre.len() as int, m.len()) matches Some(
            (read, end),
        ) && end == pre.len() + nodes_of_members(m).len() && ((forall|i: int|
            0 <= i < m.len() ==> in_form((#[trigger] m[i]).1)) ==> read == Seq::new(
            m.len(),
            |i: int| m[i].1,
        )),
    decreases m,
{
    let row = pre + nodes_of_members(m) + post;
    let items = Seq::new(m.len(), |i: int| m[i].1);
    if m.len() == 0 {
        assert(items =~= Seq::empty());
    } else {
        let last = m[m.len() - 1].1;
        let front = m.drop_last();
        let front_items = Seq::new(front.len(), |i: int| front[i].1);
        assert(row =~= pre + nodes_of_members(front) + (nodes_of(last) + post));
        lemma_members_read_back(pre, front, nodes_of(last) + post);
        let pre2 = pre + nodes_of_members(front);
        assert(row =~= pre2 + nodes_of(last) + post);
        assert(decreases_to!(m => m[m.len() - 1]));
        assert(decreases_to!(m[m.len() - 1] => m[m.len() - 1].1));
        lemma_nodes_read_back(pre2, last, post);
        lemma_trees_at_add(row, pre.len() as int, front.len(), 1);
        let (last_read, end) = tree_at(row, pre2.len() as int)->0;
        assert(trees_at(row, end, 0) == Some((Seq::<JsonV>::empty(), end)));
        assert(trees_at(row, pre2.len() as int, 1) == Some((seq![last_read] + Seq::empty(), end)));
        if forall|i: int| 0 <= i < m.len() ==> in_form((#[trigger] m[i]).1) {
            assert forall|i: int| 0 <= i < front.len() implies in_form((#[trigger] front[i]).1) by {
                assert(front[i] == m[i]);
            }
            assert(in_form(m[m.len() - 1].1));
            assert(front_items + (seq![last] + Seq::<JsonV>::empty()) =~= items);
        }
    }
}

/// The nodes of a value are the nodes of one value.
pub proof fn lemma_nodes_are_whole(j: JsonV)
    ensures
        tree_of(nodes_of(j)) is Some,
{
    lemma_nodes_read_back(Seq::empty(), j, Seq::empty());
    assert(Seq::<NodeV>::empty() + nodes_of(j) + Seq::empty() =~= nodes_of(j));
}

/// The nodes of a value whose numbers are in their own form are read back as that
/// value.
pub proof fn law_nodes_round_trip(j: JsonV)
    requires
        in_form(j),
    ensures
        tree_of(nodes_of(j)) == Some(j),
{
    lemma_nodes_read_back(Seq::empty(), j, Seq::empty());
    assert(Seq::<NodeV>::empty() + nodes_of(j) + Seq::empty() =~= nodes_of(j));
}

/// The number that a decimal form stands for.
fn read_number(t: &str) -> (res: JsonNumber)
    ensures
        res@ == number_of(t@),
{
    let v = text::to_chars(t);
    assert(v@.skip(0) =~= t@);
    match text::digits_number(&v, 0) {
        Some(n) => {
            return JsonNumber::Unsigned(n);
        },
        None => {},
    }
    if v.len() > 0 && v[0] == '-' {
        match text::digits_number(&v, 1) {
            Some(n) => {
                if n == 0x8000_0000_0000_0000 {
                    return JsonNumber::Negative(i64::MIN);
                } else if 0 < n && n < 0x8000_0000_0000_0000 {
                    return JsonNumber::Negative(-(n as i64));
                }
            },
            None => {},
        }
    }
    JsonNumber::Other(t.to_owned())
}

/// The value whose nodes begin at `pos`, and where they end.
fn read_tree(row: &Vec<Node>, pos: usize) -> (res: Option<(Json, usize)>)
    ensures
        match res {
            Some((j, end)) => tree_at(nodes(row@), pos as int) == Some((j@, end as int)) && pos
                < end <= row@.len(),
            None => tree_at(nodes(row@), pos as int) is None,
        },
    decreases row@.len() - pos, 0nat,
{
    broadcast use lemma_view_parts;

    if pos >= row.len() {
        return None;
    }
    proof {
        lemma_tree_at_end(nodes(row@), pos as int);
    }
    match &row[pos] {
        Node::Null => Some((Json::Null, pos + 1)),
        Node::Bool(b) => Some((Json::Bool(*b), pos + 1)),
        Node::Number(t) => Some((Json::Number(read_number(t.as_str())), pos + 1)),
        Node::Text(t) => Some((Json::Text(t.clone()), pos + 1)),
        Node::Array(n) => {
            match read_trees(row, pos + 1, *n) {
                Some((items, end)) => Some((Json::Array(items), end)),
                None => None,
            }
        },
        Node::Object(keys) => {
            match read_trees(row, pos + 1, keys.len()) {
                Some((items, end)) => {
                    let ghost item_views = values(items@);
                    let mut rest = items;
                    let mut out: Vec<(String, Json)> = Vec::new();
                    let mut i: usize = keys.len();
                    let ghost whole = zip(text::strs(keys@), item_views);
                    while i > 0
                        invariant
                            i <= keys@.len(),
                            rest@.len() == i,
                            item_views.len() == keys@.len(),
                            values(rest@) == item_views.take(i as int),
                            whole == zip(text::strs(keys@), item_views),
                            members(out@) == whole.skip(i as int).reverse(),
                        decreases i,
                    {
                        i -= 1;
                        let ghost rest_before = rest@;
                        let item = rest.pop().unwrap();
                        assert(item@ == values(rest_before)[i as int]);
                        assert(values(rest@) =~= item_views.take(i as int));
                        let ghost before = out@;
                        out.push((keys[i].clone(), item));
                        assert(members(out@) =~= members(before).push((keys@[i as int]@, item@)));
                        assert(whole.skip(i as int).reverse() =~= whole.skip(i + 1).reverse().push(
                            whole[i as int],
                        ));
                    }
                    let ghost backward = members(out@);
                    let m = reversed(out);
                    assert(members(m@) =~= backward.reverse());
                    assert(whole.skip(0) =~= whole);
                    assert(backward.reverse() =~= whole);
                    Some((Json::Object(m), end))
                },
                None => None,
            }
        },
    }
}

/// The members in the opposite order.
fn reversed(v: Vec<(String, Json)>) -> (res: Vec<(String, Json)>)
    ensures
        res@ == v@.reverse(),
{
    let mut from = v;
    let mut out: Vec<(String, Json)> = Vec::new();
    while from.len() > 0
        invariant
            from@.len() <= v@.len(),
            from@ == v@.take(from@.len() as int),
            out@ == v@.skip(from@.len() as int).reverse(),
        decreases from@.len(),
    {
        let ghost n = from@.len() as int;
        let item = from.pop().unwrap();
        out.push(item);
        assert(out@ =~= v@.skip(n - 1).reverse());
        assert(from@ =~= v@.take(n - 1));
    }
    assert(v@.skip(0) =~= v@);
    out
}

/// The `n` values whose nodes begin at `pos`, and where the last one ends.
fn read_trees(row: &Vec<Node>, pos: usize, n: usize) -> (res: Option<(Vec<Json>, usize)>)
    requires
        pos <= row@.len(),
    ensures
        match res {
            Some((items, end)) => trees_at(nodes(row@), pos as int, n as nat) == Some(
                (values(items@), end as int),
            ) && items@.len() == n && pos <= end <= row@.len(),
            None => trees_at(nodes(row@), pos as int, n as nat) is None,
        },
    decreases row@.len() - pos, 1nat,
{
    let mut out: Vec<Json> = Vec::new();
    let mut at: usize = pos;
    let mut left: usize = n;
    assert(match trees_at(nodes(row@), pos as int, n as nat) {
        Some((rest, end)) => values(out@) + rest =~= rest,
        None => true,
    });
    while left > 0
        invariant
            left <= n,
            pos <= at <= row@.len(),
            out@.len() + left == n,
            left == n ==> at == pos,
            left < n ==> at > pos,
            trees_at(nodes(row@), pos as int, n as nat) == match trees_at(
                nodes(row@),
                at as int,
                left as nat,
            ) {
                Some((rest, end)) => Some((values(out@) + rest, end)),
                None => None,
            },
        decreases left,
    {
        if at >= row.len() {
            return None;
        }
        match read_tree(row, at) {
            Some((item, next)) => {
                let ghost before = values(out@);
                out.push(item);
                assert(values(out@) =~= before.push(item@));
                proof {
                    match trees_at(nodes(row@), next as int, (left - 1) as nat) {
                        Some((rest, end)) => {
                            assert(before + (seq![item@] + rest) =~= values(out@) + rest);
                        },
                        None => {},
                    }
                }
                at = next;
                left -= 1;
            },
            None => {
                return None;
            },
        }
    }
    assert(values(out@) + Seq::<JsonV>::empty() =~= values(out@));
    Some((out, at))
}

/// The value of a whole row of nodes.
pub fn value_of_nodes(row: &Vec<Node>) -> (res: Option<Json>)
    ensures
        match res {
            Some(j) => tree_of(nodes(row@)) == Some(j@),
            None => tree_of(nodes(row@)) is None,
        },
{
    match read_tree(row, 0) {
        Some((j, end)) => if end == row.len() {
            Some(j)
        } else {
            None
        },
        None => None,
    }
}

// ---------------------------------------------------------------------------
// Values as text
// ---------------------------------------------------------------------------

/// The nodes of the JSON document that a text holds, if it holds one.
pub uninterp spec fn nodes_in_text(text: Seq<char>) -> Option<Seq<NodeV>>;

/// The compact JSON text of a row of nodes.
pub uninterp spec fn text_of_nodes(row: Seq<NodeV>) -> Seq<char>;

/// The indented JSON text of a row of nodes.
pub uninterp spec fn indented_text_of_nodes(row: Seq<NodeV>) -> Seq<char>;

/// The value that a text holds, if it is JSON.
pub open spec fn value_in_text(text: Seq<char>) -> Option<JsonV> {
    match nodes_in_text(text) {
        Some(row) => tree_of(row),
        None => None,
    }
}

/// The compact text of a value.
pub open spec fn text_of(j: JsonV) -> Seq<char> {
    text_of_nodes(nodes_of(j))
}

/// The indented text of a value.
pub open spec fn indented_text_of(j: JsonV) -> Seq<char> {
    indented_text_of_nodes(nodes_of(j))
}

/// Reads a JSON document (`serde_json::from_str` into `serde_json::Value`) and
/// hands its values out as nodes in pre-order, an object's members in the order
/// of the map that holds them. Which texts are documents, and of what value, is
/// named only.
#[verifier::external_body]
fn read_nodes(text: &str) -> (res: Option<Vec<Node>>)
    ensures
        match res {
            Some(row) => nodes_in_text(text@) == Some(nodes(row@)),
            None => nodes_in_text(text@) is None,
        },
{
    let (mut todo, mut out) = (vec![serde_json::from_str(text).ok()?], Vec::new());
    while let Some(value) = todo.pop() {
        out.push(match value {
            Value::Null => Node::Null,
            Value::Bool(b) => Node::Bool(b),
            Value::Number(n) => Node::Number(n.to_string()),
            Value::String(s) => Node::Text(s),
            Value::Array(a) => (Node::Array(a.len()), todo.extend(a.into_iter().rev())).0,
            Value::Object(m) => (Node::Object(m.keys().cloned().collect()),
                todo.extend(m.values().rev().cloned())).0
        });
    }
    Some(out)
}

/// Writes the value of a row of nodes as compact JSON (the `Display` form of
/// `serde_json::Value`). The text is named only.
#[verifier::external_body]
fn write_nodes(row: &Vec<Node>) -> (res: String)
    requires
        tree_of(nodes(row@)) is Some,
    ensures
        res@ == text_of_nodes(nodes(row@)),
{
    let mut stack: Vec<Value> = Vec::new();
    for node in row.iter().rev() {
        let value = match node {
            Node::Null => Value::Null,
            Node::Bool(b) => Value::from(*b),
            Node::Number(t) => t.parse().unwrap_or_default(),
            Node::Text(t) => Value::from(t.as_str()),
            Node::Array(n) => (0..*n).map(|_| stack.pop()).collect(),
            Node::Object(k) => k.iter().map(|k| (k.clone(), stack.pop())).collect()
        };
        stack.push(value);
    }
    Value::from(stack.pop()).to_string()
}

/// Writes the value of a row of nodes as indented JSON (the alternate `Display`
/// form of `serde_json::Value`). The text is named only.
#[verifier::external_body]
fn write_nodes_indented(row: &Vec<Node>) -> (res: String)
    requires
        tree_of(nodes(row@)) is Some,
    ensures
        res@ == indented_text_of_nodes(nodes(row@)),
{
    let mut stack: Vec<Value> = Vec::new();
    for node in row.iter().rev() {
        let value = match node {
            Node::Null => Value::Null,
            Node::Bool(b) => Value::from(*b),
            Node::Number(t) => t.parse().unwrap_or_default(),
            Node::Text(t) => Value::from(t.as_str()),
            Node::Array(n) => (0..*n).map(|_| stack.pop()).collect(),
            Node::Object(k) => k.iter().map(|k| (k.clone(), stack.pop())).collect()
        };
        stack.push(value);
    }
    format!("{:#}", Value::from(stack.pop()))
}

/// The value that a text holds, if it is JSON.
pub fn parse(text: &str) -> (res: Option<Json>)
    ensures
        match res {
            Some(j) => value_in_text(text@) == Some(j@),
            None => value_in_text(text@) is None,
        },
{
    match read_nodes(text) {
        Some(row) => value_of_nodes(&row),
        None => None,
    }
}

impl Json {
    /// Appends the nodes of this value to `out`.
    fn push_nodes(&self, out: &mut Vec<Node>)
        ensures
            nodes(final(out)@) == nodes(old(out)@) + nodes_of(self@),
        decreases self,
    {
        broadcast use lemma_view_parts;

        let ghost before = nodes(out@);
        match self {
            Json::Null => {
                out.push(Node::Null);
            },
            Json::Bool(b) => {
                out.push(Node::Bool(*b));
            },
            Json::Number(n) => {
                out.push(Node::Number(n.to_decimal()));
            },
            Json::Text(t) => {
                out.push(Node::Text(t.clone()));
            },
            Json::Array(items) => {
                out.push(Node::Array(items.len()));
                let ghost start = before + seq![NodeV::Array(items@.len())];
                assert(nodes(out@) =~= start);
                let mut i: usize = 0;
                assert(nodes_of_items(values(items@).take(0)) =~= Seq::empty());
                while i < items.len()
                    invariant
                        i <= items@.len(),
                        self == Json::Array(*items),
                        nodes(out@) == start + nodes_of_items(values(items@).take(i as int)),
                    decreases items@.len() - i,
                {
                    assert(decreases_to!(*self => self->Array_0));
                    assert(decreases_to!(items => items@));
                    assert(decreases_to!(items@ => items@[i as int]));
                    let ghost next = values(items@).take(i + 1);
                    assert(next.drop_last() =~= values(items@).take(i as int));
                    assert(next[next.len() - 1] == items@[i as int]@);
                    items[i].push_nodes(out);
                    assert(nodes(out@) =~= start + nodes_of_items(next));
                    i += 1;
                }
                assert(values(items@).take(items@.len() as int) =~= values(items@));
                assert(nodes(out@) =~= before + nodes_of(self@));
            },
            Json::Object(m) => {
                let mut keys: Vec<String> = Vec::new();
                let mut k: usize = 0;
                while k < m.len()
                    invariant
                        k <= m@.len(),
                        text::strs(keys@) == keys_of(members(m@)).take(k as int),
                    decreases m@.len() - k,
                {
                    let ghost keys_before = text::strs(keys@);
                    keys.push(m[k].0.clone());
                    assert(text::strs(keys@) =~= keys_before.push(m@[k as int].0@));
                    assert(keys_of(members(m@)).take(k + 1) =~= keys_of(members(m@)).take(
                        k as int,
                    ).push(m@[k as int].0@));
                    k += 1;
                }
                assert(text::strs(keys@) =~= keys_of(members(m@)));
                out.push(Node::Object(keys));
                let ghost start = before + seq![NodeV::Object(keys_of(members(m@)))];
                assert(nodes(out@) =~= start);
                let mut i: usize = 0;
                assert(nodes_of_members(members(m@).take(0)) =~= Seq::empty());
                while i < m.len()
                    invariant
                        i <= m@.len(),
                        self == Json::Object(*m),
                        nodes(out@) == start + nodes_of_members(members(m@).take(i as int)),
                    decreases m@.len() - i,
                {
                    assert(decreases_to!(*self => self->Object_0));
                    assert(decreases_to!(m => m@));
                    assert(decreases_to!(m@ => m@[i as int]));
                    assert(decreases_to!(m@[i as int] => m@[i as int].1));
                    let ghost next = members(m@).take(i + 1);
                    assert(next.drop_last() =~= members(m@).take(i as int));
                    assert(next[next.len() - 1].1 == m@[i as int].1@);
                    m[i].1.push_nodes(out);
                    assert(nodes(out@) =~= start + nodes_of_members(next));
                    i += 1;
                }
                assert(members(m@).take(m@.len() as int) =~= members(m@));
                assert(nodes(out@) =~= before + nodes_of(self@));
            },
        }
        assert(nodes(out@) =~= before + nodes_of(self@));
    }

    /// The compact text of this value.
    pub fn to_text(&self) -> (res: String)
        ensures
            res@ == text_of(self@),
    {
        let mut row: Vec<Node> = Vec::new();
        self.push_nodes(&mut row);
        assert(nodes(row@) =~= nodes_of(self@));
        proof {
            lemma_nodes_are_whole(self@);
        }
        write_nodes(&row)
    }

    /// The indented text of this value.
    pub fn to_indented_text(&self) -> (res: String)
        ensures
            res@ == indented_text_of(self@),
    {
        let mut row: Vec<Node> = Vec::new();
        self.push_nodes(&mut row);
        assert(nodes(row@) =~= nodes_of(self@));
        proof {
            lemma_nodes_are_whole(self@);
        }
        write_nodes_indented(&row)
    }
}

// ---------------------------------------------------------------------------
// What holds of values
// ---------------------------------------------------------------------------

/// The value under a key of an object is that of the first of its members with the key,
/// wherever it stands; where no member has the key there is none, nor in what is no
/// object.
pub proof fn law_member(v: JsonV, key: Seq<char>)
    ensures
        match v {
            JsonV::Object(m) => match v.get(key) {
                Some(x) => exists|i: int|
                    0 <= i < m.len() && (#[trigger] m[i]).0 == key && m[i].1 == x && forall|j: int|
                        0 <= j < i ==> (#[trigger] m[j]).0 != key,
                None => forall|i: int| 0 <= i < m.len() ==> (#[trigger] m[i]).0 != key,
            },
            _ => v.get(key) is None,
        },
{
    match v {
        JsonV::Object(m) => {
            lemma_member_from(m, key, 0);
        },
        _ => {},
    }
}

proof fn lemma_member_from(m: Seq<(Seq<char>, JsonV)>, key: Seq<char>, i: int)
    requires
        0 <= i,
    ensures
        match member_from(m, key, i) {
            Some(x) => exists|k: int|
                i <= k < m.len() && (#[trigger] m[k]).0 == key && m[k].1 == x && forall|j: int|
                    i <= j < k ==> (#[trigger] m[j]).0 != key,
            None => forall|k: int| i <= k < m.len() ==> (#[trigger] m[k]).0 != key,
        },
    decreases m.len() - i,
{
    if i < m.len() && m[i].0 != key {
        lemma_member_from(m, key, i + 1);
    } else if i < m.len() {
        assert(m[i].0 == key);
    }
}

/// The value of a member that is the only one with its key is found.
pub proof fn law_only_member(m: Seq<(Seq<char>, JsonV)>, i: int)
    requires
        0 <= i < m.len(),
        forall|j: int| 0 <= j < m.len() && j != i ==> (#[trigger] m[j]).0 != m[i].0,
    ensures
        JsonV::Object(m).get(m[i].0) == Some(m[i].1),
{
    law_member(JsonV::Object(m), m[i].0);
}

/// What is read under keys is what stands there, where it is of the kind that is asked
/// for.
pub proof fn law_reading(v: JsonV, a: Seq<char>, b: Seq<char>, c: Seq<char>)
    ensures
        v.text(a) == match v.get(a) {
            Some(JsonV::Text(t)) => Some(t),
            _ => None,
        },
        v.items(a) == match v.get(a) {
            Some(JsonV::Array(x)) => Some(x),
            _ => None,
        },
        v.flag(a) == match v.get(a) {
            Some(JsonV::Bool(x)) => Some(x),
            _ => None,
        },
        v.count(a) == match v.get(a) {
            Some(JsonV::Number(JsonNumberV::Unsigned(n))) => Some(n),
            _ => None,
        },
        v.whole(a) == match v.get(a) {
            Some(JsonV::Number(JsonNumberV::Unsigned(n))) => if n <= 0x7fff_ffff_ffff_ffff {
                Some(n as i64)
            } else {
                None
            },
            Some(JsonV::Number(JsonNumberV::Negative(n))) => Some(n),
            _ => None,
        },
        v.text_or_empty(a) == if v.text(a) is Some {
            v.text(a)->0
        } else {
            Seq::empty()
        },
        v.at2(a, b) == if v.get(a) is Some {
            v.get(a)->0.get(b)
        } else {
            None
        },
        v.at3(a, b, c) == if v.get(a) is Some {
            v.get(a)->0.at2(b, c)
        } else {
            None
        },
        v.text2(a, b) == if v.get(a) is Some {
            v.get(a)->0.text(b)
        } else {
            None
        },
{
}

/// A member that is given, under a key that no other has, is found under it; one that is
/// not given is not there; and all others are found as before.
pub proof fn law_given_member(
    m: Seq<(Seq<char>, JsonV)>,
    key: Seq<char>,
    value: Option<JsonV>,
    other: Seq<char>,
)
    ensures
        JsonV::Object(and_opt(m, key, value)).get(other) == if JsonV::Object(m).get(
            other,
        ) is None && other == key {
            value
        } else {
            JsonV::Object(m).get(other)
        },
        JsonV::Object(Seq::empty()).get(other) is None,
{
    match value {
        Some(v) => {
            lemma_pushed_member(m, key, v, other, 0);
        },
        None => {},
    }
}

proof fn lemma_pushed_member(
    m: Seq<(Seq<char>, JsonV)>,
    key: Seq<char>,
    value: JsonV,
    other: Seq<char>,
    i: int,
)
    requires
        0 <= i <= m.len(),
    ensures
        member_from(m.push((key, value)), other, i) == if member_from(m, other, i) is None && other
            == key {
            Some(value)
        } else {
            member_from(m, other, i)
        },
    decreases m.len() - i,
{
    let t = m.push((key, value));
    if i < m.len() {
        assert(t[i] == m[i]);
        lemma_pushed_member(m, key, value, other, i + 1);
    } else {
        assert(t[i] == (key, value));
        assert(member_from(t, other, i + 1) is None);
    }
}

} // verus!

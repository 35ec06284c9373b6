//! A JSON document model that the validator and the schema writer work on.

use vstd::prelude::*;
use crate::text::join_with;

verus! {

/// A JSON number as `serde_json` keeps it: a non-negative integer, a
/// negative integer, or a finite float (held by its bit pattern, with `-0.0`
/// stored as `0.0`, so that equal floats have equal bits).
#[derive(PartialEq, Eq, Structural, Clone, Copy, Debug)]
pub enum NumberKind {
    PosInt(u64),
    NegInt(i64),
    Float(u64),
}

/// A number together with its rendering as JSON text.
pub struct JsonNumber {
    pub kind: NumberKind,
    pub text: String,
}

pub enum JsonValue {
    Null,
    Bool(bool),
    Number(JsonNumber),
    String(String),
    Array(Vec<JsonValue>),
    Object(Vec<(String, JsonValue)>),
}

/// The mathematical content of a JSON value.
pub enum Json {
    Null,
    Bool(bool),
    Number(NumberKind),
    Str(Seq<char>),
    Array(Seq<Json>),
    Object(Seq<(Seq<char>, Json)>),
}

impl JsonValue {
    pub open spec fn model(self) -> Json
        decreases self,
    {
        match self {
            JsonValue::Null => Json::Null,
            JsonValue::Bool(b) => Json::Bool(b),
            JsonValue::Number(n) => Json::Number(n.kind),
            JsonValue::String(s) => Json::Str(s@),
            JsonValue::Array(xs) => Json::Array(
                Seq::new(
                    xs@.len(),
                    |i: int|
                        if 0 <= i < xs@.len() {
                            xs@[i].model()
                        } else {
                            Json::Null
                        },
                ),
            ),
            JsonValue::Object(fs) => Json::Object(
                Seq::new(
                    fs@.len(),
                    |i: int|
                        if 0 <= i < fs@.len() {
                            (fs@[i].0@, fs@[i].1.model())
                        } else {
                            (Seq::empty(), Json::Null)
                        },
                ),
            ),
        }
    }
}

impl View for JsonValue {
    type V = Json;

    open spec fn view(&self) -> Json {
        self.model()
    }
}


/// An element of an array is smaller than the array.
pub proof fn lemma_element_smaller(v: JsonValue, i: int)
    requires
        v is Array,
        0 <= i < v->Array_0@.len(),
    ensures
        decreases_to!(v => v->Array_0@[i]),
{
    assert(decreases_to!(v => v->Array_0));
    assert(decreases_to!(v->Array_0 => v->Array_0@));
    assert(decreases_to!(v->Array_0@ => v->Array_0@[i]));
}

/// A member value of an object is smaller than the object.
pub proof fn lemma_member_smaller(v: JsonValue, i: int)
    requires
        v is Object,
        0 <= i < v->Object_0@.len(),
    ensures
        decreases_to!(v => v->Object_0@[i].1),
{
    assert(decreases_to!(v => v->Object_0));
    assert(decreases_to!(v->Object_0 => v->Object_0@));
    assert(decreases_to!(v->Object_0@ => v->Object_0@[i]));
    assert(decreases_to!(v->Object_0@[i] => v->Object_0@[i].1));
}

/// Index of the first field named `key`.
pub open spec fn field_index(fs: Seq<(String, JsonValue)>, key: Seq<char>, i: int) -> Option<int>
    decreases fs.len() - i,
{
    if i < 0 || i >= fs.len() {
        None
    } else if fs[i].0@ == key {
        Some(i)
    } else {
        field_index(fs, key, i + 1)
    }
}

/// `value.get(key)` of `serde_json`: the member named `key` of an object,
/// `None` for any other value.
pub open spec fn member(v: JsonValue, key: Seq<char>) -> Option<JsonValue> {
    match v {
        JsonValue::Object(fs) => match field_index(fs@, key, 0) {
            Some(i) => Some(fs@[i].1),
            None => None,
        },
        _ => None,
    }
}

/// `v.get(key).and_then(Value::as_str)`.
pub open spec fn member_str(v: JsonValue, key: Seq<char>) -> Option<Seq<char>> {
    match member(v, key) {
        Some(JsonValue::String(s)) => Some(s@),
        _ => None,
    }
}

pub fn find_field(fs: &Vec<(String, JsonValue)>, key: &str) -> (r: Option<usize>)
    ensures
        r matches Some(i) ==> i < fs@.len() && field_index(fs@, key@, 0) == Some(i as int),
        r is None ==> field_index(fs@, key@, 0) is None,
{
    let mut i: usize = 0;
    while i < fs.len()
        invariant
            i <= fs@.len(),
            field_index(fs@, key@, 0) == field_index(fs@, key@, i as int),
        decreases fs@.len() - i,
    {
        if crate::text::str_eq(fs[i].0.as_str(), key) {
            return Some(i);
        }
        i = i + 1;
    }
    None
}

/// `value.get(key)`.
pub fn get_member<'a>(v: &'a JsonValue, key: &str) -> (r: Option<&'a JsonValue>)
    ensures
        member(*v, key@) === (match r {
            Some(x) => Some(*x),
            None => None,
        }),
{
    match v {
        JsonValue::Object(fs) => {
            let found = find_field(fs, key);
            assert(member(*v, key@) == match field_index(fs@, key@, 0) {
                Some(i) => Some(fs@[i].1),
                None => None,
            });
            match found {
                Some(i) => {
                    let x = &fs[i].1;
                    assert(*x == fs@[i as int].1);
                    Some(x)
                },
                None => None,
            }
        },
        _ => None,
    }
}

/// `value == other` of `serde_json`.
pub fn json_eq(a: &JsonValue, b: &JsonValue) -> (r: bool)
    ensures
        r == (a@ == b@),
    decreases a,
{
    match (a, b) {
        (JsonValue::Null, JsonValue::Null) => true,
        (JsonValue::Bool(x), JsonValue::Bool(y)) => *x == *y,
        (JsonValue::Number(x), JsonValue::Number(y)) => x.kind == y.kind,
        (JsonValue::String(x), JsonValue::String(y)) => crate::text::str_eq(x.as_str(), y.as_str()),
        (JsonValue::Array(xs), JsonValue::Array(ys)) => {
            if xs.len() != ys.len() {
                assert(a@->Array_0.len() != b@->Array_0.len());
                return false;
            }
            let mut i: usize = 0;
            while i < xs.len()
                invariant
                    i <= xs@.len() == ys@.len(),
                    *a == JsonValue::Array(*xs),
                    *b == JsonValue::Array(*ys),
                    forall|j: int| 0 <= j < i ==> xs@[j]@ == ys@[j]@,
                decreases xs@.len() - i,
            {
                proof {
                    lemma_element_smaller(*a, i as int);
                }
                if !json_eq(&xs[i], &ys[i]) {
                    assert(a@->Array_0[i as int] != b@->Array_0[i as int]);
                    return false;
                }
                i = i + 1;
            }
            assert(a@->Array_0 =~= b@->Array_0);
            true
        },
        (JsonValue::Object(xs), JsonValue::Object(ys)) => {
            if xs.len() != ys.len() {
                assert(a@->Object_0.len() != b@->Object_0.len());
                return false;
            }
            let mut i: usize = 0;
            while i < xs.len()
                invariant
                    i <= xs@.len() == ys@.len(),
                    *a == JsonValue::Object(*xs),
                    *b == JsonValue::Object(*ys),
                    forall|j: int| 0 <= j < i ==> xs@[j].0@ == ys@[j].0@ && xs@[j].1@ == ys@[j].1@,
                decreases xs@.len() - i,
            {
                if !crate::text::str_eq(xs[i].0.as_str(), ys[i].0.as_str()) {
                    assert(a@->Object_0[i as int] != b@->Object_0[i as int]);
                    return false;
                }
                proof {
                    lemma_member_smaller(*a, i as int);
                }
                if !json_eq(&xs[i].1, &ys[i].1) {
                    assert(a@->Object_0[i as int] != b@->Object_0[i as int]);
                    return false;
                }
                i = i + 1;
            }
            assert(a@->Object_0 =~= b@->Object_0);
            true
        },
        _ => false,
    }
}


/// The lower-case hexadecimal digit of `n < 16`.
pub open spec fn hex_digit(n: u32) -> char {
    if n < 10 {
        ('0' as u32 + n) as char
    } else {
        ('a' as u32 + n - 10) as char
    }
}

/// How `serde_json` writes one character inside a string literal.
pub open spec fn escape_char(c: char) -> Seq<char> {
    if c == '"' {
        seq!['\\', '"']
    } else if c == '\\' {
        seq!['\\', '\\']
    } else if c as u32 == 8 {
        seq!['\\', 'b']
    } else if c as u32 == 12 {
        seq!['\\', 'f']
    } else if c as u32 == 10 {
        seq!['\\', 'n']
    } else if c as u32 == 13 {
        seq!['\\', 'r']
    } else if c as u32 == 9 {
        seq!['\\', 't']
    } else if (c as u32) < 0x20 {
        seq!['\\', 'u', '0', '0', hex_digit((c as u32) / 16), hex_digit((c as u32) % 16)]
    } else {
        seq![c]
    }
}

pub open spec fn escape_str(s: Seq<char>) -> Seq<char>
    decreases s.len(),
{
    if s.len() == 0 {
        Seq::empty()
    } else {
        escape_str(s.drop_last()) + escape_char(s.last())
    }
}

/// A JSON string literal.
pub open spec fn quoted(s: Seq<char>) -> Seq<char> {
    seq!['"'] + escape_str(s) + seq!['"']
}

/// The texts of the elements of an array.
pub open spec fn item_texts(xs: Seq<JsonValue>) -> Seq<Seq<char>>
    decreases xs,
{
    Seq::new(
        xs.len(),
        |i: int|
            if 0 <= i < xs.len() {
                xs[i].text()
            } else {
                Seq::empty()
            },
    )
}

/// The texts of the members of an object, each `"key":value`.
pub open spec fn member_texts(fs: Seq<(String, JsonValue)>) -> Seq<Seq<char>>
    decreases fs,
{
    Seq::new(
        fs.len(),
        |i: int|
            if 0 <= i < fs.len() {
                quoted(fs[i].0@) + seq![':'] + fs[i].1.text()
            } else {
                Seq::empty()
            },
    )
}

impl JsonValue {
    /// The compact JSON text of the value, as `serde_json`'s `Display`
    /// writes it.
    pub open spec fn text(self) -> Seq<char>
        decreases self,
    {
        match self {
            JsonValue::Null => seq!['n', 'u', 'l', 'l'],
            JsonValue::Bool(b) => if b {
                seq!['t', 'r', 'u', 'e']
            } else {
                seq!['f', 'a', 'l', 's', 'e']
            },
            JsonValue::Number(n) => n.text@,
            JsonValue::String(s) => quoted(s@),
            JsonValue::Array(xs) => seq!['['] + join_with(item_texts(xs@), seq![',']) + seq![']'],
            JsonValue::Object(fs) => seq!['{'] + join_with(member_texts(fs@), seq![',']) + seq!['}'],
        }
    }
}

fn hex(n: u32) -> (c: char)
    requires
        n < 16,
    ensures
        c == hex_digit(n),
{
    let digits = ['0', '1', '2', '3', '4', '5', '6', '7', '8', '9', 'a', 'b', 'c', 'd', 'e', 'f'];
    let c = digits[n as usize];
    assert(c == hex_digit(n)) by {
        assert(digits@ =~= seq!['0', '1', '2', '3', '4', '5', '6', '7', '8', '9', 'a', 'b', 'c', 'd', 'e', 'f']);
    }
    c
}

pub fn push_all(out: &mut Vec<char>, add: &[char])
    ensures
        final(out)@ == old(out)@ + add@,
{
    let ghost s = add@;
    let mut i: usize = 0;
    while i < add.len()
        invariant
            i <= add@.len(),
            add@ == s,
            out@ == old(out)@ + s.take(i as int),
        decreases add@.len() - i,
    {
        out.push(add[i]);
        i = i + 1;
        assert(s.take(i as int) =~= s.take(i - 1) + seq![s[i - 1]]);
    }
    assert(s.take(i as int) =~= s);
}

/// Appends a JSON string literal for `s`.
pub fn write_quoted(s: &Vec<char>, out: &mut Vec<char>)
    ensures
        final(out)@ == old(out)@ + quoted(s@),
{
    out.push('"');
    let mut i: usize = 0;
    while i < s.len()
        invariant
            i <= s@.len(),
            out@ == old(out)@ + seq!['"'] + escape_str(s@.take(i as int)),
        decreases s@.len() - i,
    {
        let c = s[i];
        let n = c as u32;
        let ghost before = out@;
        assert(s@.take(i + 1).drop_last() =~= s@.take(i as int));
        assert(escape_str(s@.take(i + 1)) == escape_str(s@.take(i as int)) + escape_char(c));
        if c == '"' {
            out.push('\\');
            out.push('"');
        } else if c == '\\' {
            out.push('\\');
            out.push('\\');
        } else if n == 8 {
            out.push('\\');
            out.push('b');
        } else if n == 12 {
            out.push('\\');
            out.push('f');
        } else if n == 10 {
            out.push('\\');
            out.push('n');
        } else if n == 13 {
            out.push('\\');
            out.push('r');
        } else if n == 9 {
            out.push('\\');
            out.push('t');
        } else if n < 0x20 {
            out.push('\\');
            out.push('u');
            out.push('0');
            out.push('0');
            out.push(hex(n / 16));
            out.push(hex(n % 16));
        } else {
            out.push(c);
        }
        assert(out@ =~= before + escape_char(c));
        i = i + 1;
    }
    assert(s@.take(i as int) =~= s@);
    out.push('"');
}

/// Appends the compact JSON text of `v` (`serde_json`'s `Display`).
pub fn write_json(v: &JsonValue, out: &mut Vec<char>)
    ensures
        final(out)@ == old(out)@ + v.text(),
    decreases v,
{
    match v {
        JsonValue::Null => {
            out.push('n');
            out.push('u');
            out.push('l');
            out.push('l');
        },
        JsonValue::Bool(b) => {
            if *b {
                out.push('t');
                out.push('r');
                out.push('u');
                out.push('e');
            } else {
                out.push('f');
                out.push('a');
                out.push('l');
                out.push('s');
                out.push('e');
            }
        },
        JsonValue::Number(n) => {
            let t = crate::text::chars_of(n.text.as_str());
            push_all(out, t.as_slice());
        },
        JsonValue::String(s) => {
            write_quoted(&crate::text::chars_of(s.as_str()), out);
        },
        JsonValue::Array(xs) => {
            let ghost parts = item_texts(xs@);
            assert(v.text() == seq!['['] + join_with(parts, seq![',']) + seq![']']);
            out.push('[');
            let mut i: usize = 0;
            while i < xs.len()
                invariant
                    i <= xs@.len() == parts.len(),
                    *v == JsonValue::Array(*xs),
                    forall|j: int| 0 <= j < xs@.len() ==> parts[j] == #[trigger] xs@[j].text(),
                    out@ == old(out)@ + seq!['['] + join_with(parts.take(i as int), seq![',']),
                decreases xs@.len() - i,
            {
                if i > 0 {
                    out.push(',');
                }
                proof {
                    lemma_element_smaller(*v, i as int);
                }
                write_json(&xs[i], out);
                assert(parts.take(i + 1).drop_last() =~= parts.take(i as int));
                i = i + 1;
            }
            assert(parts.take(i as int) =~= parts);
            out.push(']');
        },
        JsonValue::Object(fs) => {
            let ghost parts = member_texts(fs@);
            assert(v.text() == seq!['{'] + join_with(parts, seq![',']) + seq!['}']);
            out.push('{');
            let mut i: usize = 0;
            while i < fs.len()
                invariant
                    i <= fs@.len() == parts.len(),
                    *v == JsonValue::Object(*fs),
                    forall|j: int|
                        0 <= j < fs@.len() ==> parts[j] == quoted(#[trigger] fs@[j].0@) + seq![
                            ':',
                        ] + fs@[j].1.text(),
                    out@ == old(out)@ + seq!['{'] + join_with(parts.take(i as int), seq![',']),
                decreases fs@.len() - i,
            {
                if i > 0 {
                    out.push(',');
                }
                write_quoted(&crate::text::chars_of(fs[i].0.as_str()), out);
                out.push(':');
                proof {
                    lemma_member_smaller(*v, i as int);
                }
                write_json(&fs[i].1, out);
                assert(parts.take(i + 1).drop_last() =~= parts.take(i as int));
                i = i + 1;
            }
            assert(parts.take(i as int) =~= parts);
            out.push('}');
        },
    }
}

} // verus!

//! Checks JSON instances against the schema documents this crate emits:
//! `type`, `required`, `enum`, `properties`, `items`, `minItems`/`maxItems`
//! and relative `$ref` resolution.

use vstd::prelude::*;
use crate::json::{
    JsonValue, lemma_element_smaller, lemma_member_smaller, NumberKind, field_index, find_field, get_member, json_eq, member,
    member_str, write_json,
};
use crate::catalog::{entry_views, ir_entries};
use crate::parse::{ExampleModel, Ir, ModuleData, TypeEntryModel};
use crate::text::{
    char_views, copy_chars, join_chars, join_with, chars_of, chars_starts_with, debug_text, decimal, find_char,
    lowercase, next_index_of, prev_index_of, push_chars, push_debug, push_message, push_str,
    rfind_char, slice_chars, split, split_chars, starts_with, str_eq, string_of, texts, to_lowercase,
    write_decimal,
};

verus! {

/// The path segments of a directory prefix such as `"profile/"`: the
/// non-empty pieces between slashes.
pub open spec fn dir_segments(dir: Seq<char>) -> Seq<Seq<char>> {
    keep_nonempty(split(dir, '/'))
}

/// The non-empty pieces of `segs`, in order.
pub open spec fn keep_nonempty(segs: Seq<Seq<char>>) -> Seq<Seq<char>>
    decreases segs.len(),
{
    if segs.len() == 0 {
        segs
    } else if segs.last().len() > 0 {
        keep_nonempty(segs.drop_last()).push(segs.last())
    } else {
        keep_nonempty(segs.drop_last())
    }
}

/// Walks the pieces `segs[k..]` of a reference from the directory stack
/// `stack`: empty pieces and `.` stay, `..` leaves a directory (failing at
/// the root), any other piece enters it.
pub open spec fn walk_segments(stack: Seq<Seq<char>>, segs: Seq<Seq<char>>, k: int) -> Option<
    Seq<Seq<char>>,
>
    decreases segs.len() - k,
{
    if k < 0 || k >= segs.len() {
        Some(stack)
    } else {
        let seg = segs[k];
        if seg.len() == 0 || seg == seq!['.'] {
            walk_segments(stack, segs, k + 1)
        } else if seg == seq!['.', '.'] {
            if stack.len() == 0 {
                None
            } else {
                walk_segments(stack.drop_last(), segs, k + 1)
            }
        } else {
            walk_segments(stack.push(seg), segs, k + 1)
        }
    }
}

/// The schema-tree key that `reference` names from `current_dir`, or `None`
/// when it climbs above the root of the tree.
pub open spec fn normalized(current_dir: Seq<char>, reference: Seq<char>) -> Option<Seq<char>> {
    match walk_segments(dir_segments(current_dir), split(reference, '/'), 0) {
        Some(stack) => Some(join_with(stack, seq!['/'])),
        None => None,
    }
}

fn is_dot(seg: &Vec<char>) -> (r: bool)
    ensures
        r == (seg@ == seq!['.']),
{
    if seg.len() == 1 && seg[0] == '.' {
        assert(seg@ =~= seq!['.']);
        true
    } else {
        false
    }
}

fn is_dot_dot(seg: &Vec<char>) -> (r: bool)
    ensures
        r == (seg@ == seq!['.', '.']),
{
    if seg.len() == 2 && seg[0] == '.' && seg[1] == '.' {
        assert(seg@ =~= seq!['.', '.']);
        true
    } else {
        false
    }
}

/// Resolves a `./` or `../` reference against `current_dir` (a
/// `"profile/"` style prefix), giving a key rooted at the schema tree;
/// `None` if the reference escapes above the root of the tree.
pub fn normalize_relative(current_dir: &str, reference: &str) -> (r: Option<String>)
    ensures
        match normalized(current_dir@, reference@) {
            Some(k) => r is Some && r->0@ == k,
            None => r is None,
        },
{
    let dir_pieces = split_chars(&chars_of(current_dir), '/');
    let ghost all = char_views(dir_pieces@);
    let mut segments: Vec<Vec<char>> = Vec::new();
    let mut i: usize = 0;
    while i < dir_pieces.len()
        invariant
            i <= dir_pieces@.len() == all.len(),
            all == char_views(dir_pieces@),
            all == split(current_dir@, '/'),
            char_views(segments@) == keep_nonempty(all.take(i as int)),
        decreases dir_pieces@.len() - i,
    {
        let ghost before = segments@;
        assert(all.take(i + 1).drop_last() =~= all.take(i as int));
        if dir_pieces[i].len() > 0 {
            segments.push(dir_pieces[i].clone());
        }
        assert(char_views(segments@) =~= keep_nonempty(all.take(i + 1)));
        i = i + 1;
    }
    assert(all.take(i as int) =~= all);
    let ref_pieces = split_chars(&chars_of(reference), '/');
    let ghost segs = char_views(ref_pieces@);
    let mut k: usize = 0;
    while k < ref_pieces.len()
        invariant
            k <= ref_pieces@.len() == segs.len(),
            segs == char_views(ref_pieces@),
            segs == split(reference@, '/'),
            walk_segments(dir_segments(current_dir@), segs, 0) == walk_segments(
                char_views(segments@),
                segs,
                k as int,
            ),
        decreases ref_pieces@.len() - k,
    {
        let seg = &ref_pieces[k];
        if seg.len() == 0 || is_dot(seg) {
        } else if is_dot_dot(seg) {
            if segments.len() == 0 {
                return None;
            }
            let ghost before = segments@;
            segments.pop();
            assert(char_views(segments@) =~= char_views(before).drop_last());
        } else {
            let ghost before = segments@;
            segments.push(seg.clone());
            assert(char_views(segments@) =~= char_views(before).push(segs[k as int]));
        }
        k = k + 1;
    }
    let joined = join_chars(&segments, '/');
    Some(string_of(&joined))
}


/// The key that a `$ref` names, seen from the schema directory `current_dir`:
/// `./` and `../` references are relative to it, other references holding a
/// `/` are rooted at the schema tree, and bare names sit in `current_dir`.
pub open spec fn ref_key(reference: Seq<char>, current_dir: Seq<char>) -> Option<Seq<char>> {
    if starts_with(reference, seq!['.', '/']) || starts_with(reference, seq!['.', '.', '/']) {
        normalized(current_dir, reference)
    } else if next_index_of(reference, '/', 0) < reference.len() {
        Some(reference)
    } else {
        Some(current_dir + reference)
    }
}

/// The directory part of a key, up to and including its last `/`.
pub open spec fn key_dir(key: Seq<char>) -> Seq<char> {
    let k = prev_index_of(key, '/', key.len() as int);
    if k < 0 {
        Seq::empty()
    } else {
        key.subrange(0, k + 1)
    }
}

/// All loaded schemas: `"<profile>/<base>.schema.json"` (lower-cased) ->
/// schema document.
pub struct SchemaStore {
    files: Vec<(String, JsonValue)>,
}

pub open spec fn msg_unresolved(path: Seq<char>, reference: Seq<char>) -> Seq<char> {
    path + ": unresolved $ref "@ + debug_text(reference)
}

pub open spec fn msg_cycle(path: Seq<char>, reference: Seq<char>) -> Seq<char> {
    path + ": $ref cycle at "@ + debug_text(reference)
}

pub open spec fn msg_unknown_type(path: Seq<char>, expected: Seq<char>) -> Seq<char> {
    path + ": unknown schema type "@ + debug_text(expected)
}

pub open spec fn msg_expected(path: Seq<char>, expected: Seq<char>, inst: JsonValue) -> Seq<char> {
    path + ": expected "@ + expected + ", got "@ + json_type_name(inst)@
}

pub open spec fn msg_enum(path: Seq<char>, inst: JsonValue) -> Seq<char> {
    path + ": value "@ + inst.text() + " not in enum"@
}

pub open spec fn msg_missing(path: Seq<char>, key: Seq<char>) -> Seq<char> {
    path + ": missing required property "@ + debug_text(key)
}

pub open spec fn msg_min(path: Seq<char>, len: nat, min: nat) -> Seq<char> {
    path + ": array length "@ + decimal(len) + " < minItems "@ + decimal(min)
}

pub open spec fn msg_max(path: Seq<char>, len: nat, max: nat) -> Seq<char> {
    path + ": array length "@ + decimal(len) + " > maxItems "@ + decimal(max)
}

/// The JSON type name of a value.
pub open spec fn json_type_name(v: JsonValue) -> &'static str {
    match v {
        JsonValue::Null => "null",
        JsonValue::Bool(_) => "boolean",
        JsonValue::Number(_) => "number",
        JsonValue::String(_) => "string",
        JsonValue::Array(_) => "array",
        JsonValue::Object(_) => "object",
    }
}

/// The JSON type name of a value.
pub fn type_of(v: &JsonValue) -> (r: &'static str)
    ensures
        r == json_type_name(*v),
{
    match v {
        JsonValue::Null => "null",
        JsonValue::Bool(_) => "boolean",
        JsonValue::Number(_) => "number",
        JsonValue::String(_) => "string",
        JsonValue::Array(_) => "array",
        JsonValue::Object(_) => "object",
    }
}

/// The `type` names the validator knows.
pub open spec fn type_known(e: Seq<char>) -> bool {
    e == "object"@ || e == "array"@ || e == "string"@ || e == "boolean"@ || e == "number"@ || e
        == "integer"@
}

/// Whether `inst` has the JSON type `e` (numbers of either kind are
/// accepted for `number` and `integer`).
pub open spec fn type_ok(inst: JsonValue, e: Seq<char>) -> bool {
    ||| e == "object"@ && inst is Object
    ||| e == "array"@ && inst is Array
    ||| e == "string"@ && inst is String
    ||| e == "boolean"@ && inst is Bool
    ||| (e == "number"@ || e == "integer"@) && inst is Number
}

/// The error for an instance outside the schema's `enum`, if it has one.
pub open spec fn enum_errors(schema: JsonValue, inst: JsonValue, path: Seq<char>) -> Seq<Seq<char>> {
    match member(schema, "enum"@) {
        Some(JsonValue::Array(allowed)) => if exists|j: int|
            0 <= j < allowed@.len() && #[trigger] allowed@[j]@ == inst@ {
            Seq::empty()
        } else {
            seq![msg_enum(path, inst)]
        },
        _ => Seq::empty(),
    }
}

/// The errors for the first `n` names of `required` missing from `fields`.
pub open spec fn required_errors(
    required: Seq<JsonValue>,
    fields: Seq<(String, JsonValue)>,
    path: Seq<char>,
    n: int,
) -> Seq<Seq<char>>
    decreases n,
{
    if n <= 0 || n > required.len() {
        Seq::empty()
    } else {
        required_errors(required, fields, path, n - 1) + match required[n - 1] {
            JsonValue::String(k) => if field_index(fields, k@, 0) is Some {
                Seq::empty()
            } else {
                seq![msg_missing(path, k@)]
            },
            _ => Seq::empty(),
        }
    }
}

/// The errors for array lengths outside `minItems` and `maxItems`.
pub open spec fn length_errors(schema: JsonValue, len: nat, path: Seq<char>) -> Seq<Seq<char>> {
    (match member(schema, "minItems"@) {
        Some(JsonValue::Number(m)) => match m.kind {
            NumberKind::PosInt(min) => if len < min {
                seq![msg_min(path, len, min as nat)]
            } else {
                Seq::empty()
            },
            _ => Seq::empty(),
        },
        _ => Seq::empty(),
    }) + (match member(schema, "maxItems"@) {
        Some(JsonValue::Number(m)) => match m.kind {
            NumberKind::PosInt(max) => if len > max {
                seq![msg_max(path, len, max as nat)]
            } else {
                Seq::empty()
            },
            _ => Seq::empty(),
        },
        _ => Seq::empty(),
    })
}

/// `new` is `old` with `doc` stored under `key`: in place of the entry with
/// that key, or appended when there is none.
pub open spec fn stored_in(
    before: Seq<(String, JsonValue)>,
    after: Seq<(String, JsonValue)>,
    key: Seq<char>,
    doc: JsonValue,
) -> bool {
    let i = match field_index(before, key, 0) {
        Some(i) => i,
        None => before.len() as int,
    };
    &&& after.len() == (if i < before.len() {
        before.len()
    } else {
        before.len() + 1
    })
    &&& after[i].0@ == key
    &&& after[i].1 == doc
    &&& forall|j: int| 0 <= j < before.len() && j != i ==> #[trigger] after[j] == before[j]
}

/// Appends the error of an instance outside the schema's `enum`.
fn check_enum(instance: &JsonValue, schema: &JsonValue, path: &Vec<char>, errors: &mut Vec<String>)
    ensures
        texts(final(errors)@) == texts(old(errors)@) + enum_errors(*schema, *instance, path@),
{
    match get_member(schema, "enum") {
        Some(JsonValue::Array(allowed)) => {
            let mut found = false;
            let mut j: usize = 0;
            while j < allowed.len()
                invariant
                    j <= allowed@.len(),
                    found == exists|k: int| 0 <= k < j && #[trigger] allowed@[k]@ == instance@,
                decreases allowed@.len() - j,
            {
                if json_eq(&allowed[j], instance) {
                    found = true;
                }
                j = j + 1;
            }
            if !found {
                let mut m = copy_chars(path);
                push_str(&mut m, ": value ");
                write_json(instance, &mut m);
                push_str(&mut m, " not in enum");
                push_message(errors, &m);
            }
        },
        _ => {},
    }
    assert(texts(errors@) =~= texts(old(errors)@) + enum_errors(*schema, *instance, path@));
}

/// Appends the errors for the `required` names missing from `fs`.
fn check_required(
    fs: &Vec<(String, JsonValue)>,
    req: &Vec<JsonValue>,
    path: &Vec<char>,
    errors: &mut Vec<String>,
)
    ensures
        texts(final(errors)@) == texts(old(errors)@) + required_errors(
            req@,
            fs@,
            path@,
            req@.len() as int,
        ),
{
    let mut n: usize = 0;
    while n < req.len()
        invariant
            n <= req@.len(),
            texts(errors@) == texts(old(errors)@) + required_errors(req@, fs@, path@, n as int),
        decreases req@.len() - n,
    {
        match &req[n] {
            JsonValue::String(k) => {
                if find_field(fs, k.as_str()).is_none() {
                    let mut m = copy_chars(path);
                    push_str(&mut m, ": missing required property ");
                    push_debug(&mut m, &chars_of(k.as_str()));
                    push_message(errors, &m);
                }
            },
            _ => {},
        }
        n = n + 1;
        assert(texts(errors@) =~= texts(old(errors)@) + required_errors(
            req@,
            fs@,
            path@,
            n as int,
        ));
    }
}

/// Appends the errors for an array length outside `minItems`/`maxItems`.
fn check_lengths(len: usize, schema: &JsonValue, path: &Vec<char>, errors: &mut Vec<String>)
    ensures
        texts(final(errors)@) == texts(old(errors)@) + length_errors(*schema, len as nat, path@),
{
    match get_member(schema, "minItems") {
        Some(JsonValue::Number(m)) => match m.kind {
            NumberKind::PosInt(min) => {
                if (len as u64) < min {
                    let mut t = copy_chars(path);
                    push_str(&mut t, ": array length ");
                    write_decimal(len as u64, &mut t);
                    push_str(&mut t, " < minItems ");
                    write_decimal(min, &mut t);
                    push_message(errors, &t);
                }
            },
            _ => {},
        },
        _ => {},
    }
    match get_member(schema, "maxItems") {
        Some(JsonValue::Number(m)) => match m.kind {
            NumberKind::PosInt(max) => {
                if (len as u64) > max {
                    let mut t = copy_chars(path);
                    push_str(&mut t, ": array length ");
                    write_decimal(len as u64, &mut t);
                    push_str(&mut t, " > maxItems ");
                    write_decimal(max, &mut t);
                    push_message(errors, &t);
                }
            },
            _ => {},
        },
        _ => {},
    }
    assert(texts(errors@) =~= texts(old(errors)@) + length_errors(*schema, len as nat, path@));
}

impl SchemaStore {
    /// The stored documents with their keys.
    pub closed spec fn docs(self) -> Seq<(String, JsonValue)> {
        self.files@
    }

    /// The document stored under the lower-cased `key`.
    pub open spec fn lookup(self, key: Seq<char>) -> Option<JsonValue> {
        match field_index(self.docs(), lowercase(key), 0) {
            Some(i) => Some(self.docs()[i].1),
            None => None,
        }
    }

    /// The schema that `reference` names from `current_dir`, with the
    /// directory its own bare references resolve in.
    pub open spec fn resolved(self, reference: Seq<char>, current_dir: Seq<char>) -> Option<
        (JsonValue, Seq<char>),
    > {
        match ref_key(reference, current_dir) {
            Some(key) => match self.lookup(key) {
                Some(d) => Some((d, key_dir(key))),
                None => None,
            },
            None => None,
        }
    }

    /// The errors of checking `inst` against `schema` (found in directory
    /// `dir`) at `path`, with `hops` more `$ref` hops allowed before a chain
    /// of references is reported as a cycle.
    pub open spec fn errors_for(
        self,
        inst: JsonValue,
        schema: JsonValue,
        dir: Seq<char>,
        path: Seq<char>,
        hops: nat,
    ) -> Seq<Seq<char>>
        decreases inst, hops + 1,
    {
        match member_str(schema, "$ref"@) {
            Some(reference) => match self.resolved(reference, dir) {
                Some((target, target_dir)) => if hops == 0 {
                    seq![msg_cycle(path, reference)]
                } else {
                    self.errors_for(inst, target, target_dir, path, (hops - 1) as nat)
                },
                None => seq![msg_unresolved(path, reference)],
            },
            None => match member_str(schema, "type"@) {
                Some(expected) => if !type_known(expected) {
                    seq![msg_unknown_type(path, expected), msg_expected(path, expected, inst)]
                } else if !type_ok(inst, expected) {
                    seq![msg_expected(path, expected, inst)]
                } else {
                    self.content_errors(inst, schema, dir, path)
                },
                None => self.content_errors(inst, schema, dir, path),
            },
        }
    }

    /// The errors of the checks that follow the `type` check.
    pub open spec fn content_errors(
        self,
        inst: JsonValue,
        schema: JsonValue,
        dir: Seq<char>,
        path: Seq<char>,
    ) -> Seq<Seq<char>>
        decreases inst, 0int,
    {
        enum_errors(schema, inst, path) + match inst {
            JsonValue::Object(fs) => (match member(schema, "required"@) {
                Some(JsonValue::Array(req)) => required_errors(req@, fs@, path, req@.len() as int),
                _ => Seq::empty(),
            }) + (match member(schema, "properties"@) {
                Some(JsonValue::Object(props)) => {
                    proof {
                        assert(decreases_to!(inst => inst->Object_0));
                        assert(decreases_to!(inst->Object_0 => fs@));
                    }
                    self.property_errors(fs@, props@, dir, path, fs@.len() as int)
                },
                _ => Seq::empty(),
            }),
            JsonValue::Array(items) => length_errors(schema, items@.len(), path) + (match member(
                schema,
                "items"@,
            ) {
                Some(item_schema) => {
                    proof {
                        assert(decreases_to!(inst => inst->Array_0));
                        assert(decreases_to!(inst->Array_0 => items@));
                    }
                    self.item_errors(items@, item_schema, dir, path, items@.len() as int)
                },
                None => Seq::empty(),
            }),
            _ => Seq::empty(),
        }
    }

    /// An empty store.
    pub fn new() -> (r: Self)
        ensures
            r.docs() == Seq::<(String, JsonValue)>::empty(),
    {
        SchemaStore { files: Vec::new() }
    }

    /// Stores the document read from the file `name` of the profile
    /// directory `profile`, under the lower-cased key `"<profile>/<name>"`,
    /// in place of one stored under the same key.
    pub fn insert(&mut self, profile: &str, name: &str, doc: JsonValue)
        ensures
            stored_in(old(self).docs(), final(self).docs(), lowercase(profile@ + "/"@ + name@), doc),
    {
        let mut k: Vec<char> = Vec::new();
        push_str(&mut k, profile);
        push_str(&mut k, "/");
        push_str(&mut k, name);
        let key = to_lowercase(string_of(&k).as_str());
        match find_field(&self.files, key.as_str()) {
            Some(i) => {
                self.files.set(i, (key, doc));
            },
            None => {
                self.files.push((key, doc));
            },
        }
    }

    /// The number of stored documents.
    pub fn len(&self) -> (r: usize)
        ensures
            r == self.docs().len(),
    {
        self.files.len()
    }

    /// Resolves `reference` seen from the schema directory `current_dir`
    /// (the `"profile/"` prefix of the file that holds it), giving the
    /// schema and the directory that its own bare references resolve in.
    pub fn resolve(&self, reference: &Vec<char>, current_dir: &Vec<char>) -> (r: Option<
        (&JsonValue, Vec<char>),
    >)
        ensures
            match self.resolved(reference@, current_dir@) {
                Some((d, dir)) => r matches Some((x, y)) && *x == d && y@ == dir,
                None => r is None,
            },
    {
        proof {
            reveal_strlit("./");
            reveal_strlit("../");
            assert("./"@ =~= seq!['.', '/']);
            assert("../"@ =~= seq!['.', '.', '/']);
        }
        let key: Vec<char> = if chars_starts_with(reference, "./") || chars_starts_with(
            reference,
            "../",
        ) {
            match normalize_relative(string_of(current_dir).as_str(), string_of(reference).as_str()) {
                Some(k) => chars_of(k.as_str()),
                None => {
                    return None;
                },
            }
        } else if find_char(reference, '/', 0) < reference.len() {
            copy_chars(reference)
        } else {
            let mut k = copy_chars(current_dir);
            push_chars(&mut k, reference);
            k
        };
        assert(ref_key(reference@, current_dir@) == Some(key@));
        let lower = to_lowercase(string_of(&key).as_str());
        match find_field(&self.files, lower.as_str()) {
            Some(i) => {
                let dir = match rfind_char(&key, '/') {
                    Some(k) => slice_chars(&key, 0, k + 1),
                    None => Vec::new(),
                };
                assert(dir@ =~= key_dir(key@));
                Some((&self.files[i].1, dir))
            },
            None => None,
        }
    }

    /// Checks `instance` against `schema` (held in directory `current_dir`)
    /// at `path`, appending one message per failed check. `hops` more `$ref`
    /// hops are followed before a chain of references is reported as a
    /// cycle; `validate` allows as many as there are stored documents.
    pub fn validate_value(
        &self,
        instance: &JsonValue,
        schema: &JsonValue,
        current_dir: &Vec<char>,
        path: &Vec<char>,
        hops: usize,
        errors: &mut Vec<String>,
    )
        ensures
            texts(final(errors)@) == texts(old(errors)@) + self.errors_for(
                *instance,
                *schema,
                current_dir@,
                path@,
                hops as nat,
            ),
        decreases instance, hops + 1,
    {
        // A `$ref` replaces the schema by the one it names.
        match get_member(schema, "$ref") {
            Some(JsonValue::String(reference)) => {
                let reference = chars_of(reference.as_str());
                match self.resolve(&reference, current_dir) {
                    Some((target, dir)) => {
                        if hops == 0 {
                            let mut m = copy_chars(path);
                            push_str(&mut m, ": $ref cycle at ");
                            push_debug(&mut m, &reference);
                            push_message(errors, &m);
                            assert(texts(errors@) =~= texts(old(errors)@) + self.errors_for(
                                *instance,
                                *schema,
                                current_dir@,
                                path@,
                                hops as nat,
                            ));
                        } else {
                            self.validate_value(instance, target, &dir, path, hops - 1, errors);
                        }
                    },
                    None => {
                        let mut m = copy_chars(path);
                        push_str(&mut m, ": unresolved $ref ");
                        push_debug(&mut m, &reference);
                        push_message(errors, &m);
                        assert(texts(errors@) =~= texts(old(errors)@) + self.errors_for(
                            *instance,
                            *schema,
                            current_dir@,
                            path@,
                            hops as nat,
                        ));
                    },
                }
                return ;
            },
            _ => {},
        }
        match get_member(schema, "type") {
            Some(JsonValue::String(expected)) => {
                let e = expected.as_str();
                let is_object = str_eq(e, "object");
                let is_array = str_eq(e, "array");
                let is_string = str_eq(e, "string");
                let is_boolean = str_eq(e, "boolean");
                let is_number = str_eq(e, "number") || str_eq(e, "integer");
                if !(is_object || is_array || is_string || is_boolean || is_number) {
                    let mut m = copy_chars(path);
                    push_str(&mut m, ": unknown schema type ");
                    push_debug(&mut m, &chars_of(e));
                    push_message(errors, &m);
                }
                let ok = match instance {
                    JsonValue::Object(_) => is_object,
                    JsonValue::Array(_) => is_array,
                    JsonValue::String(_) => is_string,
                    JsonValue::Bool(_) => is_boolean,
                    JsonValue::Number(_) => is_number,
                    JsonValue::Null => false,
                };
                if !ok {
                    let mut m = copy_chars(path);
                    push_str(&mut m, ": expected ");
                    push_str(&mut m, e);
                    push_str(&mut m, ", got ");
                    push_str(&mut m, type_of(instance));
                    push_message(errors, &m);
                    assert(texts(errors@) =~= texts(old(errors)@) + self.errors_for(
                        *instance,
                        *schema,
                        current_dir@,
                        path@,
                        hops as nat,
                    ));
                    return ;
                }
            },
            _ => {},
        }
        self.check_content(instance, schema, current_dir, path, errors);
    }

    /// The checks that follow the `type` check: `enum`, then `required` and
    /// `properties` of objects, or `minItems`, `maxItems` and `items` of
    /// arrays.
    fn check_content(
        &self,
        instance: &JsonValue,
        schema: &JsonValue,
        current_dir: &Vec<char>,
        path: &Vec<char>,
        errors: &mut Vec<String>,
    )
        ensures
            texts(final(errors)@) == texts(old(errors)@) + self.content_errors(
                *instance,
                *schema,
                current_dir@,
                path@,
            ),
        decreases instance, 0int,
    {
        check_enum(instance, schema, path, errors);
        let ghost after_enum = texts(errors@);
        match instance {
            JsonValue::Object(fs) => {
                match get_member(schema, "required") {
                    Some(JsonValue::Array(req)) => {
                        check_required(fs, req, path, errors);
                    },
                    _ => {},
                }
                let ghost after_required = texts(errors@);
                match get_member(schema, "properties") {
                    Some(JsonValue::Object(props)) => {
                        let mut n: usize = 0;
                        while n < fs.len()
                            invariant
                                n <= fs@.len(),
                                *instance == JsonValue::Object(*fs),
                                texts(errors@) == after_required + self.property_errors(
                                    fs@,
                                    props@,
                                    current_dir@,
                                    path@,
                                    n as int,
                                ),
                            decreases fs@.len() - n,
                        {
                            let ghost before = texts(errors@);
                            match find_field(props, fs[n].0.as_str()) {
                                Some(k) => {
                                    let mut child = copy_chars(path);
                                    child.push('.');
                                    push_str(&mut child, fs[n].0.as_str());
                                    assert(child@ =~= path@ + seq!['.'] + fs@[n as int].0@);
                                    proof {
                                        lemma_member_smaller(*instance, n as int);
                                    }
                                    self.validate_value(
                                        &fs[n].1,
                                        &props[k].1,
                                        current_dir,
                                        &child,
                                        self.files.len(),
                                        errors,
                                    );
                                },
                                None => {},
                            }
                            assert(texts(errors@) =~= before + (match field_index(
                                props@,
                                fs@[n as int].0@,
                                0,
                            ) {
                                Some(k) => self.errors_for(
                                    fs@[n as int].1,
                                    props@[k].1,
                                    current_dir@,
                                    path@ + seq!['.'] + fs@[n as int].0@,
                                    self.docs().len(),
                                ),
                                None => Seq::empty(),
                            }));
                            n = n + 1;
                        }
                    },
                    _ => {},
                }
            },
            JsonValue::Array(items) => {
                check_lengths(items.len(), schema, path, errors);
                let ghost after_length = texts(errors@);
                match get_member(schema, "items") {
                    Some(item_schema) => {
                        let mut n: usize = 0;
                        while n < items.len()
                            invariant
                                n <= items@.len(),
                                *instance == JsonValue::Array(*items),
                                texts(errors@) == after_length + self.item_errors(
                                    items@,
                                    *item_schema,
                                    current_dir@,
                                    path@,
                                    n as int,
                                ),
                            decreases items@.len() - n,
                        {
                            let ghost before = texts(errors@);
                            let mut child = copy_chars(path);
                            child.push('[');
                            write_decimal(n as u64, &mut child);
                            child.push(']');
                            assert(child@ =~= path@ + seq!['['] + decimal(n as nat) + seq![']']);
                            proof {
                                lemma_element_smaller(*instance, n as int);
                            }
                            self.validate_value(
                                &items[n],
                                item_schema,
                                current_dir,
                                &child,
                                self.files.len(),
                                errors,
                            );
                            n = n + 1;
                        }
                    },
                    None => {},
                }
            },
            _ => {},
        }
    }

    /// Validates `instance` against the schema at `<profile>/<file>`.
    /// Returns one human-readable message per failed check (none when the
    /// instance is valid).
    pub fn validate(&self, profile: &str, file: &str, instance: &JsonValue) -> (r: Vec<String>)
        ensures
            texts(r@) == self.validation_errors(profile@, file@, *instance),
    {
        let mut errors: Vec<String> = Vec::new();
        let mut dir = chars_of(profile);
        push_str(&mut dir, "/");
        match self.resolve(&chars_of(file), &dir) {
            Some((schema, sdir)) => {
                self.validate_value(
                    instance,
                    schema,
                    &sdir,
                    &chars_of("$"),
                    self.files.len(),
                    &mut errors,
                );
            },
            None => {
                let mut m = chars_of("schema not found: ");
                push_str(&mut m, profile);
                push_str(&mut m, "/");
                push_str(&mut m, file);
                push_message(&mut errors, &m);
            },
        }
        assert(texts(Seq::<String>::empty()) =~= Seq::<Seq<char>>::empty());
        errors
    }

    /// The errors of the first `n` members of an object whose names have a
    /// schema in `props`.
    pub open spec fn property_errors(
        self,
        fs: Seq<(String, JsonValue)>,
        props: Seq<(String, JsonValue)>,
        dir: Seq<char>,
        path: Seq<char>,
        n: int,
    ) -> Seq<Seq<char>>
        decreases fs, n,
    {
        if n <= 0 || n > fs.len() {
            Seq::empty()
        } else {
            self.property_errors(fs, props, dir, path, n - 1) + match field_index(
                props,
                fs[n - 1].0@,
                0,
            ) {
                Some(k) => {
                    proof {
                        assert(decreases_to!(fs => fs[n - 1]));
                        assert(decreases_to!(fs[n - 1] => fs[n - 1].1));
                    }
                    self.errors_for(
                        fs[n - 1].1,
                        props[k].1,
                        dir,
                        path + seq!['.'] + fs[n - 1].0@,
                        self.docs().len(),
                    )
                },
                None => Seq::empty(),
            }
        }
    }

    /// The messages of validating `inst` against the schema at
    /// `<profile>/<file>`.
    pub open spec fn validation_errors(self, profile: Seq<char>, file: Seq<char>, inst: JsonValue) -> Seq<
        Seq<char>,
    > {
        match self.resolved(file, profile + "/"@) {
            Some((schema, dir)) => self.errors_for(inst, schema, dir, "$"@, self.docs().len()),
            None => seq!["schema not found: "@ + profile + "/"@ + file],
        }
    }

    /// The errors of the first `n` elements of an array against `item_schema`.
    pub open spec fn item_errors(
        self,
        items: Seq<JsonValue>,
        item_schema: JsonValue,
        dir: Seq<char>,
        path: Seq<char>,
        n: int,
    ) -> Seq<Seq<char>>
        decreases items, n,
    {
        if n <= 0 || n > items.len() {
            Seq::empty()
        } else {
            self.item_errors(items, item_schema, dir, path, n - 1) + self.errors_for(
                items[n - 1],
                item_schema,
                dir,
                path + seq!['['] + decimal((n - 1) as nat) + seq![']'],
                self.docs().len(),
            )
        }
    }
}

/// The examples of the types `es`, each with its type, in order.
pub open spec fn ir_examples(es: Seq<TypeEntryModel>) -> Seq<(TypeEntryModel, ExampleModel)>
    decreases es.len(),
{
    if es.len() == 0 {
        Seq::empty()
    } else {
        ir_examples(es.drop_last()) + es.last().examples.map_values(
            |x: ExampleModel| (es.last(), x),
        )
    }
}

/// How a failure of an example is labelled: `Type[profile] "example name"`.
pub open spec fn example_label(e: TypeEntryModel, x: ExampleModel) -> Seq<char> {
    e.name + seq!['['] + e.profile + "] "@ + debug_text(x.name)
}

/// The failures of one example of the type `e`, whose text parsed to
/// `inst` (`None` when it is not valid JSON).
pub open spec fn example_failures(
    store: SchemaStore,
    e: TypeEntryModel,
    x: ExampleModel,
    inst: Option<JsonValue>,
) -> Seq<Seq<char>> {
    match inst {
        None => seq![example_label(e, x) + ": example is not valid JSON"@],
        Some(v) => store.validation_errors(e.profile, e.base_name + ".schema.json"@, v).map_values(
            |m: Seq<char>| example_label(e, x) + ": "@ + m,
        ),
    }
}

/// The failures of the examples `xs`, parsed to `parsed`.
pub open spec fn all_failures(
    store: SchemaStore,
    xs: Seq<(TypeEntryModel, ExampleModel)>,
    parsed: Seq<Option<JsonValue>>,
) -> Seq<Seq<char>>
    decreases xs.len(),
{
    if xs.len() == 0 {
        Seq::empty()
    } else {
        all_failures(store, xs.drop_last(), parsed.take(xs.len() - 1)) + example_failures(
            store,
            xs.last().0,
            xs.last().1,
            parsed[xs.len() - 1],
        )
    }
}

/// Validates every example of the spec against the schema of its type.
/// `parsed` holds, for each example in order (module by module, type by
/// type), the JSON value its text parses to, or `None` when it is not valid
/// JSON. Returns the number of examples checked and one failure message per
/// error, `Type[profile] "example": error`.
pub fn validate_examples(ir: &Ir, store: &SchemaStore, parsed: &Vec<Option<JsonValue>>) -> (r: (
    usize,
    Vec<String>,
))
    requires
        parsed@.len() == ir_examples(ir_entries(ir.modules@)).len(),
    ensures
        r.0 == parsed@.len(),
        texts(r.1@) == all_failures(*store, ir_examples(ir_entries(ir.modules@)), parsed@),
{
    let ghost mods = ir.modules@;
    let ghost all = ir_examples(ir_entries(mods));
    let plen = parsed.len();
    let mut failures: Vec<String> = Vec::new();
    let mut k: usize = 0;
    let mut i: usize = 0;
    proof {
        assert(mods.take(0) =~= Seq::<(String, ModuleData)>::empty());
        assert(all.take(0) =~= Seq::<(TypeEntryModel, ExampleModel)>::empty());
        assert(texts(failures@) =~= Seq::<Seq<char>>::empty());
    }
    while i < ir.modules.len()
        invariant
            i <= mods.len(),
            mods == ir.modules@,
            all == ir_examples(ir_entries(mods)),
            parsed@.len() == all.len(),
            plen == parsed@.len(),
            k <= all.len(),
            all.take(k as int) == ir_examples(ir_entries(mods.take(i as int))),
            texts(failures@) == all_failures(*store, all.take(k as int), parsed@.take(k as int)),
        decreases mods.len() - i,
    {
        let types = &ir.modules[i].1.types;
        let ghost pre = ir_entries(mods.take(i as int));
        let ghost views = entry_views(types@);
        let ghost q = ir_examples(pre + views);
        proof {
            assert(mods.take(i + 1).drop_last() =~= mods.take(i as int));
            assert(ir_entries(mods.take(i + 1)) == pre + views);
            lemma_examples_prefix(mods, i + 1);
            assert(pre + views.take(0) =~= pre);
        }
        let mut j: usize = 0;
        while j < types.len()
            invariant
                j <= types@.len(),
                views == entry_views(types@),
                parsed@.len() == all.len(),
                plen == parsed@.len(),
                q == ir_examples(pre + views),
                q.len() <= all.len(),
                all.take(q.len() as int) == q,
                k <= all.len(),
                all.take(k as int) == ir_examples(pre + views.take(j as int)),
                texts(failures@) == all_failures(*store, all.take(k as int), parsed@.take(k as int)),
            decreases types@.len() - j,
        {
            let e = &types[j];
            let ghost here = all.take(k as int);
            let ghost xs = e@.examples.map_values(|x: ExampleModel| (e@, x));
            let ghost ej = pre + views.take(j + 1);
            proof {
                assert(views[j as int] == e@);
                assert(ej.drop_last() =~= pre + views.take(j as int));
                assert(ej.last() == e@);
                assert(ir_examples(ej) == here + xs);
                assert(ej + views.skip(j + 1) =~= pre + views);
                lemma_examples_split(ej, views.skip(j + 1));
                assert(all.take((here + xs).len() as int) =~= here + xs) by {
                    assert(q.take((here + xs).len() as int) =~= here + xs);
                    assert(all.take(q.len() as int).take((here + xs).len() as int) =~= all.take(
                        (here + xs).len() as int,
                    ));
                }
            }
            let mut file: Vec<char> = chars_of(e.base_name.as_str());
            push_str(&mut file, ".schema.json");
            let file = string_of(&file);
            let mut m: usize = 0;
            assert(here + xs.take(0) =~= here);
            while m < e.examples.len()
                invariant
                    m <= e.examples@.len(),
                    xs == e@.examples.map_values(|x: ExampleModel| (e@, x)),
                    xs.len() == e.examples@.len(),
                    file@ == e@.base_name + ".schema.json"@,
                    parsed@.len() == all.len(),
                    plen == parsed@.len(),
                    here.len() + xs.len() <= all.len(),
                    all.take((here.len() + xs.len()) as int) == here + xs,
                    k == here.len() + m,
                    all.take(k as int) == here + xs.take(m as int),
                    texts(failures@) == all_failures(*store, all.take(k as int), parsed@.take(k as int)),
                decreases e.examples@.len() - m,
            {
                let x = &e.examples[m];
                proof {
                    assert(xs[m as int] == (e@, x@));
                    assert(all[k as int] == (here + xs)[k as int]);
                    assert(all.take(k + 1) =~= all.take(k as int).push(all[k as int]));
                    assert(all.take(k + 1).drop_last() =~= all.take(k as int));
                    assert(parsed@.take(k + 1).take(k as int) =~= parsed@.take(k as int));
                    assert(parsed@.take(k + 1)[k as int] == parsed@[k as int]);
                }
                let mut label = chars_of(e.name.as_str());
                label.push('[');
                push_str(&mut label, e.profile.as_str());
                push_str(&mut label, "] ");
                push_debug(&mut label, &chars_of(x.name.as_str()));
                assert(label@ == example_label(e@, x@));
                let ghost before = texts(failures@);
                match &parsed[k] {
                    None => {
                        let mut msg = copy_chars(&label);
                        push_str(&mut msg, ": example is not valid JSON");
                        push_message(&mut failures, &msg);
                        assert(texts(failures@) =~= before + example_failures(*store, e@, x@, None));
                    },
                    Some(inst) => {
                        let errs = store.validate(e.profile.as_str(), file.as_str(), inst);
                        let ghost es = texts(errs@);
                        let mut n: usize = 0;
                        assert(before + es.take(0).map_values(|t: Seq<char>| label@ + ": "@ + t) =~= before);
                        while n < errs.len()
                            invariant
                                n <= errs@.len(),
                                es == texts(errs@),
                                texts(failures@) == before + es.take(n as int).map_values(
                                    |t: Seq<char>| label@ + ": "@ + t,
                                ),
                            decreases errs@.len() - n,
                        {
                            let mut msg = copy_chars(&label);
                            push_str(&mut msg, ": ");
                            push_str(&mut msg, errs[n].as_str());
                            assert(msg@ == label@ + ": "@ + es[n as int]);
                            push_message(&mut failures, &msg);
                            assert(es.take(n + 1).map_values(|t: Seq<char>| label@ + ": "@ + t)
                                =~= es.take(n as int).map_values(|t: Seq<char>| label@ + ": "@ + t).push(
                                msg@,
                            ));
                            n = n + 1;
                        }
                        assert(es.take(n as int) =~= es);
                        assert(texts(failures@) =~= before + example_failures(*store, e@, x@, Some(*inst)));
                    },
                }
                k = k + 1;
                m = m + 1;
                assert(all.take(k as int) =~= here + xs.take(m as int));
            }
            assert(xs.take(m as int) =~= xs);
            j = j + 1;
        }
        assert(pre + views.take(j as int) =~= pre + views);
        i = i + 1;
    }
    proof {
        assert(mods.take(i as int) =~= mods);
        assert(all.take(k as int) =~= all);
        assert(parsed@.take(k as int) =~= parsed@);
    }
    (k, failures)
}

/// The types of modules one after the other are those of the first, then
/// those of the second.
proof fn lemma_entries_split(a: Seq<(String, ModuleData)>, b: Seq<(String, ModuleData)>)
    ensures
        ir_entries(a + b) == ir_entries(a) + ir_entries(b),
    decreases b.len(),
{
    if b.len() == 0 {
        assert(a + b =~= a);
        assert(ir_entries(a) + ir_entries(b) =~= ir_entries(a));
    } else {
        lemma_entries_split(a, b.drop_last());
        assert((a + b).drop_last() =~= a + b.drop_last());
        assert((a + b).last() == b.last());
        assert(ir_entries(a + b) =~= ir_entries(a) + ir_entries(b));
    }
}

/// The examples of types one after the other are those of the first, then
/// those of the second.
proof fn lemma_examples_split(a: Seq<TypeEntryModel>, b: Seq<TypeEntryModel>)
    ensures
        ir_examples(a + b) == ir_examples(a) + ir_examples(b),
    decreases b.len(),
{
    if b.len() == 0 {
        assert(a + b =~= a);
        assert(ir_examples(a) + ir_examples(b) =~= ir_examples(a));
    } else {
        lemma_examples_split(a, b.drop_last());
        assert((a + b).drop_last() =~= a + b.drop_last());
        assert((a + b).last() == b.last());
        assert(ir_examples(a + b) =~= ir_examples(a) + ir_examples(b));
    }
}

/// The examples of the first `n` modules come first among those of all.
proof fn lemma_examples_prefix(mods: Seq<(String, ModuleData)>, n: int)
    requires
        0 <= n <= mods.len(),
    ensures
        ir_examples(ir_entries(mods.take(n))).len() <= ir_examples(ir_entries(mods)).len(),
        ir_examples(ir_entries(mods)).take(ir_examples(ir_entries(mods.take(n))).len() as int)
            == ir_examples(ir_entries(mods.take(n))),
{
    assert(mods.take(n) + mods.skip(n) =~= mods);
    lemma_entries_split(mods.take(n), mods.skip(n));
    lemma_examples_split(ir_entries(mods.take(n)), ir_entries(mods.skip(n)));
    let x = ir_examples(ir_entries(mods.take(n)));
    let y = ir_examples(ir_entries(mods.skip(n)));
    assert((x + y).take(x.len() as int) =~= x);
}

/// Stored documents are found whatever the case of the key they are looked
/// up with.
pub proof fn lemma_lookup_ignores_case(store: SchemaStore, a: Seq<char>, b: Seq<char>)
    requires
        lowercase(a) == lowercase(b),
    ensures
        store.lookup(a) == store.lookup(b),
{
}

/// A document stored from the file `name` of the profile directory
/// `profile` is what a lookup of `"<profile>/<name>"` gives back; a lookup
/// of any other key gives what it gave before.
pub proof fn lemma_insert_then_lookup(
    before: SchemaStore,
    after: SchemaStore,
    profile: Seq<char>,
    name: Seq<char>,
    doc: JsonValue,
    other: Seq<char>,
)
    requires
        stored_in(before.docs(), after.docs(), lowercase(profile + "/"@ + name), doc),
    ensures
        after.lookup(profile + "/"@ + name) == Some(doc),
        lowercase(other) != lowercase(profile + "/"@ + name) ==> after.lookup(other) == before.lookup(
            other,
        ),
{
    let key = lowercase(profile + "/"@ + name);
    let b = before.docs();
    let a = after.docs();
    lemma_field_index(b, key, 0);
    let i = match field_index(b, key, 0) {
        Some(i) => i,
        None => b.len() as int,
    };
    assert forall|j: int| 0 <= j < i implies #[trigger] a[j].0@ != key by {
        assert(a[j] == b[j]);
    }
    lemma_field_index_first(a, key, i);
    if lowercase(other) != key {
        let ok = lowercase(other);
        lemma_field_index(b, ok, 0);
        lemma_field_index(a, ok, 0);
        match field_index(b, ok, 0) {
            Some(j) => {
                assert(j != i || i == b.len());
                if j < i {
                    assert forall|m: int| 0 <= m < j implies #[trigger] a[m].0@ != ok by {
                        assert(a[m] == b[m]);
                    }
                    assert(a[j] == b[j]);
                    lemma_field_index_first(a, ok, j);
                } else {
                    assert(j > i);
                    assert forall|m: int| 0 <= m < j implies #[trigger] a[m].0@ != ok by {
                        if m != i {
                            assert(a[m] == b[m]);
                        }
                    }
                    assert(a[j] == b[j]);
                    lemma_field_index_first(a, ok, j);
                }
            },
            None => {
                assert forall|m: int| 0 <= m < a.len() implies #[trigger] a[m].0@ != ok by {
                    if m != i {
                        assert(a[m] == b[m]);
                    }
                }
                lemma_field_index_none(a, ok);
            },
        }
    }
}

/// What `field_index` finds: a member with the key, after none.
proof fn lemma_field_index(fs: Seq<(String, JsonValue)>, key: Seq<char>, i: int)
    requires
        0 <= i,
    ensures
        match field_index(fs, key, i) {
            Some(j) => i <= j < fs.len() && fs[j].0@ == key && forall|m: int|
                i <= m < j ==> #[trigger] fs[m].0@ != key,
            None => forall|m: int| i <= m < fs.len() ==> #[trigger] fs[m].0@ != key,
        },
    decreases fs.len() - i,
{
    if i < fs.len() && fs[i].0@ != key {
        lemma_field_index(fs, key, i + 1);
    }
}

/// The first member with the key is the one `field_index` finds.
proof fn lemma_field_index_first(fs: Seq<(String, JsonValue)>, key: Seq<char>, j: int)
    requires
        0 <= j < fs.len(),
        fs[j].0@ == key,
        forall|m: int| 0 <= m < j ==> #[trigger] fs[m].0@ != key,
    ensures
        field_index(fs, key, 0) == Some(j),
{
    lemma_field_index(fs, key, 0);
    match field_index(fs, key, 0) {
        Some(k) => {
            if k < j {
                assert(fs[k].0@ != key);
            } else if k > j {
                assert(fs[j].0@ != key);
            }
        },
        None => {
            assert(fs[j].0@ != key);
        },
    }
}

proof fn lemma_field_index_none(fs: Seq<(String, JsonValue)>, key: Seq<char>)
    requires
        forall|m: int| 0 <= m < fs.len() ==> #[trigger] fs[m].0@ != key,
    ensures
        field_index(fs, key, 0) is None,
{
    lemma_field_index(fs, key, 0);
    if let Some(k) = field_index(fs, key, 0) {
        assert(fs[k].0@ != key);
    }
}

/// Every message of `ms` starts with `path`.
pub open spec fn all_at(ms: Seq<Seq<char>>, path: Seq<char>) -> bool {
    forall|i: int| 0 <= i < ms.len() ==> starts_with(#[trigger] ms[i], path)
}

proof fn lemma_all_at_concat(a: Seq<Seq<char>>, b: Seq<Seq<char>>, path: Seq<char>)
    requires
        all_at(a, path),
        all_at(b, path),
    ensures
        all_at(a + b, path),
{
    assert forall|i: int| 0 <= i < (a + b).len() implies starts_with(#[trigger] (a + b)[i], path) by {
        if i < a.len() {
            assert((a + b)[i] == a[i]);
        } else {
            assert((a + b)[i] == b[i - a.len()]);
        }
    }
}

proof fn lemma_prefixed(path: Seq<char>, rest: Seq<char>)
    ensures
        starts_with(path + rest, path),
{
    assert((path + rest).subrange(0, path.len() as int) =~= path);
}

proof fn lemma_all_at_longer(ms: Seq<Seq<char>>, path: Seq<char>, rest: Seq<char>)
    requires
        all_at(ms, path + rest),
    ensures
        all_at(ms, path),
{
    assert forall|i: int| 0 <= i < ms.len() implies starts_with(#[trigger] ms[i], path) by {
        let x = ms[i];
        let pr = path + rest;
        assert(starts_with(x, pr));
        assert(x.subrange(0, pr.len() as int) == pr);
        assert forall|k: int| 0 <= k < path.len() implies x.subrange(0, path.len() as int)[k] == path[k] by {
            assert(x.subrange(0, pr.len() as int)[k] == x[k]);
            assert(pr[k] == path[k]);
        }
        assert(x.subrange(0, path.len() as int) =~= path);
    }
}

proof fn lemma_required_at(
    required: Seq<JsonValue>,
    fields: Seq<(String, JsonValue)>,
    path: Seq<char>,
    n: int,
)
    ensures
        all_at(required_errors(required, fields, path, n), path),
    decreases n,
{
    if 0 < n <= required.len() {
        lemma_required_at(required, fields, path, n - 1);
        match required[n - 1] {
            JsonValue::String(k) => {
                lemma_prefixed(path, ": missing required property "@ + debug_text(k@));
                assert(msg_missing(path, k@) =~= path + (": missing required property "@ + debug_text(k@)));
            },
            _ => {},
        }
        let tail = match required[n - 1] {
            JsonValue::String(k) => if field_index(fields, k@, 0) is Some {
                Seq::empty()
            } else {
                seq![msg_missing(path, k@)]
            },
            _ => Seq::empty(),
        };
        assert(all_at(tail, path));
        lemma_all_at_concat(required_errors(required, fields, path, n - 1), tail, path);
    }
}

impl SchemaStore {
    /// Validation only appends messages, and each one starts with the path
    /// of the value it is about.
    pub proof fn lemma_errors_at_path(
        self,
        inst: JsonValue,
        schema: JsonValue,
        dir: Seq<char>,
        path: Seq<char>,
        hops: nat,
    )
        ensures
            all_at(self.errors_for(inst, schema, dir, path, hops), path),
        decreases inst, hops + 1,
    {
        match member_str(schema, "$ref"@) {
            Some(reference) => match self.resolved(reference, dir) {
                Some((target, target_dir)) => if hops == 0 {
                    lemma_prefixed(path, ": $ref cycle at "@ + debug_text(reference));
                    assert(msg_cycle(path, reference) =~= path + (": $ref cycle at "@ + debug_text(reference)));
                } else {
                    self.lemma_errors_at_path(inst, target, target_dir, path, (hops - 1) as nat);
                },
                None => {
                    lemma_prefixed(path, ": unresolved $ref "@ + debug_text(reference));
                    assert(msg_unresolved(path, reference) =~= path + (": unresolved $ref "@ + debug_text(reference)));
                },
            },
            None => {
                match member_str(schema, "type"@) {
                    Some(expected) => {
                        lemma_prefixed(path, ": unknown schema type "@ + debug_text(expected));
                        assert(msg_unknown_type(path, expected) =~= path + (": unknown schema type "@
                            + debug_text(expected)));
                        lemma_prefixed(path, ": expected "@ + expected + ", got "@ + json_type_name(inst)@);
                        assert(msg_expected(path, expected, inst) =~= path + (": expected "@ + expected
                            + ", got "@ + json_type_name(inst)@));
                    },
                    None => {},
                }
                self.lemma_content_at_path(inst, schema, dir, path);
            },
        }
    }

    proof fn lemma_content_at_path(self, inst: JsonValue, schema: JsonValue, dir: Seq<char>, path: Seq<char>)
        ensures
            all_at(self.content_errors(inst, schema, dir, path), path),
        decreases inst, 0int,
    {
        lemma_prefixed(path, ": value "@ + inst.text() + " not in enum"@);
        assert(msg_enum(path, inst) =~= path + (": value "@ + inst.text() + " not in enum"@));
        let e = enum_errors(schema, inst, path);
        assert(all_at(e, path));
        match inst {
            JsonValue::Object(fs) => {
                let r = match member(schema, "required"@) {
                    Some(JsonValue::Array(req)) => required_errors(req@, fs@, path, req@.len() as int),
                    _ => Seq::empty(),
                };
                match member(schema, "required"@) {
                    Some(JsonValue::Array(req)) => {
                        lemma_required_at(req@, fs@, path, req@.len() as int);
                    },
                    _ => {},
                }
                let p = match member(schema, "properties"@) {
                    Some(JsonValue::Object(props)) => self.property_errors(
                        fs@,
                        props@,
                        dir,
                        path,
                        fs@.len() as int,
                    ),
                    _ => Seq::empty(),
                };
                match member(schema, "properties"@) {
                    Some(JsonValue::Object(props)) => {
                        assert(decreases_to!(inst => inst->Object_0));
                        assert(decreases_to!(inst->Object_0 => fs@));
                        self.lemma_properties_at_path(fs@, props@, dir, path, fs@.len() as int);
                    },
                    _ => {},
                }
                lemma_all_at_concat(r, p, path);
                lemma_all_at_concat(e, r + p, path);
            },
            JsonValue::Array(items) => {
                let n = items@.len();
                lemma_prefixed(path, ": array length "@ + decimal(n) + " < minItems "@ + decimal(0));
                assert forall|m: nat| starts_with(#[trigger] msg_min(path, n, m), path) by {
                    lemma_prefixed(path, ": array length "@ + decimal(n) + " < minItems "@ + decimal(m));
                    assert(msg_min(path, n, m) =~= path + (": array length "@ + decimal(n) + " < minItems "@
                        + decimal(m)));
                }
                assert forall|m: nat| starts_with(#[trigger] msg_max(path, n, m), path) by {
                    lemma_prefixed(path, ": array length "@ + decimal(n) + " > maxItems "@ + decimal(m));
                    assert(msg_max(path, n, m) =~= path + (": array length "@ + decimal(n) + " > maxItems "@
                        + decimal(m)));
                }
                let l = length_errors(schema, n, path);
                assert(all_at(l, path));
                let it = match member(schema, "items"@) {
                    Some(item_schema) => self.item_errors(items@, item_schema, dir, path, items@.len() as int),
                    None => Seq::empty(),
                };
                match member(schema, "items"@) {
                    Some(item_schema) => {
                        assert(decreases_to!(inst => inst->Array_0));
                        assert(decreases_to!(inst->Array_0 => items@));
                        self.lemma_items_at_path(items@, item_schema, dir, path, items@.len() as int);
                    },
                    None => {},
                }
                lemma_all_at_concat(l, it, path);
                lemma_all_at_concat(e, l + it, path);
            },
            _ => {
                assert(e + Seq::<Seq<char>>::empty() =~= e);
            },
        }
    }

    proof fn lemma_properties_at_path(
        self,
        fs: Seq<(String, JsonValue)>,
        props: Seq<(String, JsonValue)>,
        dir: Seq<char>,
        path: Seq<char>,
        n: int,
    )
        ensures
            all_at(self.property_errors(fs, props, dir, path, n), path),
        decreases fs, n,
    {
        if 0 < n <= fs.len() {
            self.lemma_properties_at_path(fs, props, dir, path, n - 1);
            let tail = match field_index(props, fs[n - 1].0@, 0) {
                Some(k) => self.errors_for(
                    fs[n - 1].1,
                    props[k].1,
                    dir,
                    path + seq!['.'] + fs[n - 1].0@,
                    self.docs().len(),
                ),
                None => Seq::empty(),
            };
            match field_index(props, fs[n - 1].0@, 0) {
                Some(k) => {
                    assert(decreases_to!(fs => fs[n - 1]));
                    assert(decreases_to!(fs[n - 1] => fs[n - 1].1));
                    let sub = path + seq!['.'] + fs[n - 1].0@;
                    self.lemma_errors_at_path(fs[n - 1].1, props[k].1, dir, sub, self.docs().len());
                    assert(sub =~= path + (seq!['.'] + fs[n - 1].0@));
                    lemma_all_at_longer(tail, path, seq!['.'] + fs[n - 1].0@);
                },
                None => {},
            }
            lemma_all_at_concat(self.property_errors(fs, props, dir, path, n - 1), tail, path);
        }
    }

    proof fn lemma_items_at_path(
        self,
        items: Seq<JsonValue>,
        item_schema: JsonValue,
        dir: Seq<char>,
        path: Seq<char>,
        n: int,
    )
        ensures
            all_at(self.item_errors(items, item_schema, dir, path, n), path),
        decreases items, n,
    {
        if 0 < n <= items.len() {
            self.lemma_items_at_path(items, item_schema, dir, path, n - 1);
            let sub = path + seq!['['] + decimal((n - 1) as nat) + seq![']'];
            assert(decreases_to!(items => items[n - 1]));
            self.lemma_errors_at_path(items[n - 1], item_schema, dir, sub, self.docs().len());
            assert(sub =~= path + (seq!['['] + decimal((n - 1) as nat) + seq![']']));
            lemma_all_at_longer(
                self.errors_for(items[n - 1], item_schema, dir, sub, self.docs().len()),
                path,
                seq!['['] + decimal((n - 1) as nat) + seq![']'],
            );
            lemma_all_at_concat(
                self.item_errors(items, item_schema, dir, path, n - 1),
                self.errors_for(items[n - 1], item_schema, dir, sub, self.docs().len()),
                path,
            );
        }
    }

    /// A schema with a `$ref` is replaced by the schema it names, found from
    /// the directory of the schema that holds it, and its other keywords are
    /// ignored; a reference that names no stored schema is reported.
    pub proof fn lemma_ref_replaces_schema(
        self,
        inst: JsonValue,
        schema: JsonValue,
        dir: Seq<char>,
        path: Seq<char>,
        hops: nat,
        reference: Seq<char>,
    )
        requires
            member_str(schema, "$ref"@) == Some(reference),
            hops > 0,
        ensures
            self.errors_for(inst, schema, dir, path, hops) == match self.resolved(reference, dir) {
                Some((target, target_dir)) => self.errors_for(inst, target, target_dir, path, (hops - 1) as nat),
                None => seq![msg_unresolved(path, reference)],
            },
    {
    }

    /// A member of an object instance that the schema's `properties` do not
    /// name adds no message.
    pub proof fn lemma_unlisted_member_ignored(
        self,
        fs: Seq<(String, JsonValue)>,
        props: Seq<(String, JsonValue)>,
        dir: Seq<char>,
        path: Seq<char>,
        n: int,
    )
        requires
            0 < n <= fs.len(),
            field_index(props, fs[n - 1].0@, 0) is None,
        ensures
            self.property_errors(fs, props, dir, path, n) == self.property_errors(
                fs,
                props,
                dir,
                path,
                n - 1,
            ),
    {
        assert(self.property_errors(fs, props, dir, path, n) =~= self.property_errors(
            fs,
            props,
            dir,
            path,
            n - 1,
        ) + Seq::<Seq<char>>::empty());
    }
}

/// An instance equal to any value of a schema's `enum` list, wherever it
/// stands in the list, passes the enumeration check; an instance equal to
/// none of them gets exactly one message.
pub proof fn lemma_enum_check(schema: JsonValue, inst: JsonValue, path: Seq<char>, j: int)
    requires
        member(schema, "enum"@) matches Some(JsonValue::Array(allowed)) && 0 <= j
            < allowed@.len(),
    ensures
        (member(schema, "enum"@)->0->Array_0)@[j]@ == inst@ ==> enum_errors(schema, inst, path)
            == Seq::<Seq<char>>::empty(),
        (forall|k: int|
            0 <= k < (member(schema, "enum"@)->0->Array_0)@.len() ==> (#[trigger] (member(
                schema,
                "enum"@,
            )->0->Array_0)@[k])@ != inst@) ==> enum_errors(schema, inst, path) == seq![
            msg_enum(path, inst),
        ],
{
    let allowed = member(schema, "enum"@)->0->Array_0;
    if allowed@[j]@ == inst@ {
        assert(exists|k: int| 0 <= k < allowed@.len() && #[trigger] allowed@[k]@ == inst@);
    }
}

/// A required name that names no member of the instance is reported; when
/// every required name names a member, nothing is.
pub proof fn lemma_required_check(
    required: Seq<JsonValue>,
    fields: Seq<(String, JsonValue)>,
    path: Seq<char>,
    n: int,
)
    requires
        0 <= n <= required.len(),
    ensures
        forall|j: int|
            0 <= j < n && (#[trigger] required[j]) is String && (forall|f: int|
                0 <= f < fields.len() ==> fields[f].0@ != required[j]->String_0@) ==> required_errors(
                required,
                fields,
                path,
                n,
            ).contains(msg_missing(path, required[j]->String_0@)),
        (forall|j: int|
            0 <= j < n && (#[trigger] required[j]) is String ==> exists|f: int|
                0 <= f < fields.len() && fields[f].0@ == required[j]->String_0@) ==> required_errors(
            required,
            fields,
            path,
            n,
        ).len() == 0,
    decreases n,
{
    if n > 0 {
        lemma_required_check(required, fields, path, n - 1);
        let prev = required_errors(required, fields, path, n - 1);
        let r = required_errors(required, fields, path, n);
        let tail = r.subrange(prev.len() as int, r.len() as int);
        assert(r =~= prev + tail);
        assert forall|j: int|
            0 <= j < n && (#[trigger] required[j]) is String && (forall|f: int|
                0 <= f < fields.len() ==> fields[f].0@ != required[j]->String_0@) implies r.contains(
            msg_missing(path, required[j]->String_0@),
        ) by {
            let key = required[j]->String_0@;
            if j < n - 1 {
                let a = choose|a: int| 0 <= a < prev.len() && prev[a] == msg_missing(path, key);
                assert(r[a] == prev[a]);
            } else {
                lemma_field_index(fields, key, 0);
                assert(field_index(fields, key, 0) is None) by {
                    if let Some(x) = field_index(fields, key, 0) {
                        assert(fields[x].0@ == key);
                    }
                }
                assert(r[prev.len() as int] == msg_missing(path, key));
            }
        }
        if forall|j: int|
            0 <= j < n && (#[trigger] required[j]) is String ==> exists|f: int|
                0 <= f < fields.len() && fields[f].0@ == required[j]->String_0@ {
            assert(prev.len() == 0);
            match required[n - 1] {
                JsonValue::String(k) => {
                    assert(required[n - 1] is String);
                    let f = choose|f: int| 0 <= f < fields.len() && fields[f].0@ == k@;
                    lemma_field_index(fields, k@, 0);
                    if field_index(fields, k@, 0) is None {
                        assert(fields[f].0@ != k@);
                    }
                },
                _ => {},
            }
        }
    }
}

/// An array shorter than the schema's `minItems` is reported.
pub proof fn lemma_too_short(schema: JsonValue, len: nat, path: Seq<char>, least: u64)
    requires
        member(schema, "minItems"@) matches Some(JsonValue::Number(m)) && m.kind
            == NumberKind::PosInt(least),
        len < least,
    ensures
        length_errors(schema, len, path).contains(msg_min(path, len, least as nat)),
{
    let r = length_errors(schema, len, path);
    assert(r[0] == msg_min(path, len, least as nat));
}

/// An array longer than the schema's `maxItems` is reported.
pub proof fn lemma_too_long(schema: JsonValue, len: nat, path: Seq<char>, most: u64)
    requires
        member(schema, "maxItems"@) matches Some(JsonValue::Number(m)) && m.kind
            == NumberKind::PosInt(most),
        len > most,
    ensures
        length_errors(schema, len, path).contains(msg_max(path, len, most as nat)),
{
    let a = match member(schema, "minItems"@) {
        Some(JsonValue::Number(m)) => match m.kind {
            NumberKind::PosInt(min) => if len < min {
                seq![msg_min(path, len, min as nat)]
            } else {
                Seq::empty()
            },
            _ => Seq::empty(),
        },
        _ => Seq::empty(),
    };
    let r = length_errors(schema, len, path);
    assert(r[a.len() as int] == msg_max(path, len, most as nat));
}

impl SchemaStore {
    /// A schema's `type` accepts an instance of that JSON type (any number
    /// for `integer`; `null` is not a type the validator knows) and goes on
    /// to the other checks; an instance of any other type is reported, and
    /// its other checks are skipped.
    pub proof fn lemma_type_check(
        self,
        inst: JsonValue,
        schema: JsonValue,
        dir: Seq<char>,
        path: Seq<char>,
        hops: nat,
        t: Seq<char>,
    )
        requires
            member_str(schema, "$ref"@) is None,
            member_str(schema, "type"@) == Some(t),
        ensures
            (t == json_type_name(inst)@ && t != "null"@) || (t == "integer"@ && inst is Number)
                ==> self.errors_for(
                inst,
                schema,
                dir,
                path,
                hops,
            ) == self.content_errors(inst, schema, dir, path),
            !((t == json_type_name(inst)@ && t != "null"@) || (t == "integer"@ && inst is Number))
                ==> self.errors_for(
                inst,
                schema,
                dir,
                path,
                hops,
            ).last() == msg_expected(path, t, inst),
    {
        reveal_strlit("object");
        reveal_strlit("array");
        reveal_strlit("string");
        reveal_strlit("boolean");
        reveal_strlit("number");
        reveal_strlit("integer");
        reveal_strlit("null");
        let name = json_type_name(inst)@;
        assert(name == "object"@ || name == "array"@ || name == "string"@ || name == "boolean"@
            || name == "number"@ || name == "null"@);
        if (t == name && t != "null"@) || (t == "integer"@ && inst is Number) {
            assert(type_known(t));
            assert(type_ok(inst, t));
        } else {
            if type_known(t) {
                assert(!type_ok(inst, t));
            }
        }
    }
}

} // verus!

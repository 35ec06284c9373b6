//! Draft-07 JSON Schema documents for the types read from the spec: one
//! document per type, with relative `$ref`s between them.

use vstd::prelude::*;
use crate::catalog::{dedup_key, entry_views, ir_entries, version_map};
use crate::json::{Json, JsonNumber, JsonValue, NumberKind};
use crate::markdown::{strip_tags, strip_tags_exec};
use crate::parse::{Ir, Property, PropertyModel, TypeDesc, TypeEntry, TypeEntryModel, TypeModel};
use crate::smap::{
    chars_less, find_slot, has_key, key_pos, lemma_absent, lemma_key_pos, lemma_less_asymmetric,
    lemma_less_irreflexive, lemma_less_total, lemma_less_transitive, put_entry, seq_less,
    sorted_keys,
};
use crate::text::{
    chars_of, copy_chars, is_white_space, word_class, lemma_next_index_bounds,
    lemma_ws_back_bounds, lemma_ws_run_end_bounds, lowercase, next_index_of, push_str,
    starts_with, str_eq, string_of, texts, to_lowercase, trim, trim_chars, word_char,
    write_decimal, ws_back, ws_run_end,
};
use crate::validate::ref_key;

verus! {

/// `s[i..]` with every run of `c` shortened to one `c`.
pub open spec fn collapse_from(s: Seq<char>, c: char, i: int) -> Seq<char>
    decreases s.len() - i,
{
    if i < 0 || i >= s.len() {
        Seq::empty()
    } else if s[i] == c && i + 1 < s.len() && s[i + 1] == c {
        collapse_from(s, c, i + 1)
    } else {
        seq![s[i]] + collapse_from(s, c, i + 1)
    }
}

/// `s` with every run of `c` shortened to one `c` (a run of two or more
/// replaced by one).
pub open spec fn collapse(s: Seq<char>, c: char) -> Seq<char> {
    collapse_from(s, c, 0)
}

fn collapse_exec(s: &Vec<char>, c: char) -> (r: Vec<char>)
    ensures
        r@ == collapse(s@, c),
{
    let mut out: Vec<char> = Vec::new();
    let mut i: usize = 0;
    while i < s.len()
        invariant
            i <= s@.len(),
            collapse(s@, c) == out@ + collapse_from(s@, c, i as int),
        decreases s@.len() - i,
    {
        if !(s[i] == c && i + 1 < s.len() && s[i + 1] == c) {
            let ghost before = out@;
            out.push(s[i]);
            assert(before + collapse_from(s@, c, i as int) =~= out@ + collapse_from(s@, c, i + 1));
        }
        i = i + 1;
    }
    assert(collapse_from(s@, c, i as int) =~= Seq::<char>::empty());
    assert(out@ =~= collapse(s@, c));
    out
}

/// The characters that `[\w)'"\]]` matches.
pub open spec fn ends_sentence(c: char) -> bool {
    word_class(c) || c == ')' || c == '\'' || c == '"' || c == ']'
}

pub open spec fn is_ascii_upper(c: char) -> bool {
    65 <= c as u32 <= 90
}

pub open spec fn is_ascii_lower(c: char) -> bool {
    97 <= c as u32 <= 122
}

/// Whether `([\w)'"\]])\.([A-Z{])` matches at `i`.
pub open spec fn sentence_gap_at(s: Seq<char>, i: int) -> bool {
    0 <= i && i + 3 <= s.len() && ends_sentence(s[i]) && s[i + 1] == '.' && (is_ascii_upper(s[i + 2])
        || s[i + 2] == '{')
}

/// `s[i..]` with a space put after each sentence-ending dot that a capital
/// letter or `{` follows directly (`$1. $2`), left to right; the character
/// after an inserted space may itself end the next sentence (`A.B.C` gives
/// `A. B. C`).
pub open spec fn sentence_gaps_from(s: Seq<char>, i: int) -> Seq<char>
    decreases s.len() - i,
{
    if i < 0 || i >= s.len() {
        Seq::empty()
    } else if sentence_gap_at(s, i) {
        seq![s[i], '.', ' '] + sentence_gaps_from(s, i + 2)
    } else {
        seq![s[i]] + sentence_gaps_from(s, i + 1)
    }
}

fn sentence_gaps_exec(s: &Vec<char>) -> (r: Vec<char>)
    ensures
        r@ == sentence_gaps_from(s@, 0),
{
    let mut out: Vec<char> = Vec::new();
    let mut i: usize = 0;
    while i < s.len()
        invariant
            i <= s@.len(),
            sentence_gaps_from(s@, 0) == out@ + sentence_gaps_from(s@, i as int),
        decreases s@.len() - i,
    {
        let ghost before = out@;
        if s.len() - i >= 3 && s[i + 1] == '.' && ((65 <= s[i + 2] as u32 && s[i + 2] as u32 <= 90)
            || s[i + 2] == '{') && (s[i] == ')' || s[i] == '\'' || s[i] == '"' || s[i] == ']'
            || word_char(s[i])) {
            assert(sentence_gap_at(s@, i as int));
            out.push(s[i]);
            out.push('.');
            out.push(' ');
            assert(before + sentence_gaps_from(s@, i as int) =~= out@ + sentence_gaps_from(s@, i + 2));
            i = i + 2;
        } else {
            assert(!sentence_gap_at(s@, i as int));
            out.push(s[i]);
            assert(before + sentence_gaps_from(s@, i as int) =~= out@ + sentence_gaps_from(s@, i + 1));
            i = i + 1;
        }
    }
    assert(sentence_gaps_from(s@, i as int) =~= Seq::<char>::empty());
    out
}

/// Whether ``([a-z])([.,])`([A-Za-z])`` matches at `i`.
pub open spec fn tick_gap_at(s: Seq<char>, i: int) -> bool {
    0 <= i && i + 4 <= s.len() && is_ascii_lower(s[i]) && (s[i + 1] == '.' || s[i + 1] == ',')
        && s[i + 2] == '`' && (is_ascii_upper(s[i + 3]) || is_ascii_lower(s[i + 3]))
}

/// `s[i..]` with a space put between a dot or comma that ends a word and a
/// code span that opens right after it (`` $1$2 `$3 ``).
pub open spec fn tick_gaps_from(s: Seq<char>, i: int) -> Seq<char>
    decreases s.len() - i,
{
    if i < 0 || i >= s.len() {
        Seq::empty()
    } else if tick_gap_at(s, i) {
        seq![s[i], s[i + 1], ' ', '`', s[i + 3]] + tick_gaps_from(s, i + 4)
    } else {
        seq![s[i]] + tick_gaps_from(s, i + 1)
    }
}

fn tick_gaps_exec(s: &Vec<char>) -> (r: Vec<char>)
    ensures
        r@ == tick_gaps_from(s@, 0),
{
    let mut out: Vec<char> = Vec::new();
    let mut i: usize = 0;
    while i < s.len()
        invariant
            i <= s@.len(),
            tick_gaps_from(s@, 0) == out@ + tick_gaps_from(s@, i as int),
        decreases s@.len() - i,
    {
        let ghost before = out@;
        if s.len() - i >= 4 && 97 <= s[i] as u32 && s[i] as u32 <= 122 && (s[i + 1] == '.' || s[i
            + 1] == ',') && s[i + 2] == '`' && ((65 <= s[i + 3] as u32 && s[i + 3] as u32 <= 90)
            || (97 <= s[i + 3] as u32 && s[i + 3] as u32 <= 122)) {
            assert(tick_gap_at(s@, i as int));
            out.push(s[i]);
            out.push(s[i + 1]);
            out.push(' ');
            out.push('`');
            out.push(s[i + 3]);
            assert(before + tick_gaps_from(s@, i as int) =~= out@ + tick_gaps_from(s@, i + 4));
            i = i + 4;
        } else {
            assert(!tick_gap_at(s@, i as int));
            out.push(s[i]);
            assert(before + tick_gaps_from(s@, i as int) =~= out@ + tick_gaps_from(s@, i + 1));
            i = i + 1;
        }
    }
    assert(tick_gaps_from(s@, i as int) =~= Seq::<char>::empty());
    out
}

/// Whether ``([a-z]):` `` matches at `i`.
pub open spec fn colon_gap_at(s: Seq<char>, i: int) -> bool {
    0 <= i && i + 3 <= s.len() && is_ascii_lower(s[i]) && s[i + 1] == ':' && s[i + 2] == '`'
}

/// `s[i..]` with a space put between a colon after a word and a code span
/// that opens right after it (`` $1: ` ``).
pub open spec fn colon_gaps_from(s: Seq<char>, i: int) -> Seq<char>
    decreases s.len() - i,
{
    if i < 0 || i >= s.len() {
        Seq::empty()
    } else if colon_gap_at(s, i) {
        seq![s[i], ':', ' ', '`'] + colon_gaps_from(s, i + 3)
    } else {
        seq![s[i]] + colon_gaps_from(s, i + 1)
    }
}

fn colon_gaps_exec(s: &Vec<char>) -> (r: Vec<char>)
    ensures
        r@ == colon_gaps_from(s@, 0),
{
    let mut out: Vec<char> = Vec::new();
    let mut i: usize = 0;
    while i < s.len()
        invariant
            i <= s@.len(),
            colon_gaps_from(s@, 0) == out@ + colon_gaps_from(s@, i as int),
        decreases s@.len() - i,
    {
        let ghost before = out@;
        if s.len() - i >= 3 && 97 <= s[i] as u32 && s[i] as u32 <= 122 && s[i + 1] == ':' && s[i
            + 2] == '`' {
            assert(colon_gap_at(s@, i as int));
            out.push(s[i]);
            out.push(':');
            out.push(' ');
            out.push('`');
            assert(before + colon_gaps_from(s@, i as int) =~= out@ + colon_gaps_from(s@, i + 3));
            i = i + 3;
        } else {
            assert(!colon_gap_at(s@, i as int));
            out.push(s[i]);
            assert(before + colon_gaps_from(s@, i as int) =~= out@ + colon_gaps_from(s@, i + 1));
            i = i + 1;
        }
    }
    assert(colon_gaps_from(s@, i as int) =~= Seq::<char>::empty());
    out
}

/// A description as it is written into a schema: HTML tags removed, runs of
/// backticks shortened to one, a space put after sentence punctuation that
/// lacks one, runs of spaces shortened to one, and the ends trimmed.
pub open spec fn cleaned(s: Seq<char>) -> Seq<char> {
    trim(
        collapse(
            colon_gaps_from(
                tick_gaps_from(sentence_gaps_from(collapse(strip_tags(s), '`'), 0), 0),
                0,
            ),
            ' ',
        ),
    )
}

/// Normalizes the white space and markup that a description keeps from the
/// markdown; names, enumeration values and wording are left as they are.
pub fn clean_description(s: &str) -> (r: String)
    ensures
        r@ == cleaned(s@),
{
    let a = strip_tags_exec(&chars_of(s));
    let b = collapse_exec(&a, '`');
    let c = sentence_gaps_exec(&b);
    let d = tick_gaps_exec(&c);
    let e = colon_gaps_exec(&d);
    let f = collapse_exec(&e, ' ');
    string_of(&trim_chars(&f))
}

/// The members of an object, by content.
pub open spec fn fields_of(fs: Seq<(String, JsonValue)>) -> Seq<(Seq<char>, Json)> {
    Seq::new(fs.len(), |i: int| (fs[i].0@, fs[i].1@))
}

pub proof fn lemma_object_view(fs: Vec<(String, JsonValue)>)
    ensures
        JsonValue::Object(fs)@ == Json::Object(fields_of(fs@)),
{
    assert(JsonValue::Object(fs)@->Object_0 =~= fields_of(fs@));
}

/// The first position at or after `j` whose key is not below `k`.
pub open spec fn key_slot(fs: Seq<(Seq<char>, Json)>, k: Seq<char>, j: int) -> int
    decreases fs.len() - j,
{
    if j < 0 || j >= fs.len() {
        fs.len() as int
    } else if !seq_less(fs[j].0, k) {
        j
    } else {
        key_slot(fs, k, j + 1)
    }
}

/// `fs` with the member `k` set to `v`, as the ordered map of a JSON object
/// inserts: the value of an existing member is replaced, a new member goes
/// where its key sorts.
pub open spec fn with_field(fs: Seq<(Seq<char>, Json)>, k: Seq<char>, v: Json) -> Seq<
    (Seq<char>, Json),
> {
    let p = key_slot(fs, k, 0);
    if p < fs.len() && fs[p].0 == k {
        fs.update(p, (k, v))
    } else {
        fs.insert(p, (k, v))
    }
}

proof fn lemma_key_slot(fs: Seq<(Seq<char>, Json)>, k: Seq<char>, j: int)
    requires
        0 <= j <= fs.len(),
    ensures
        j <= key_slot(fs, k, j) <= fs.len(),
        forall|i: int| j <= i < key_slot(fs, k, j) ==> seq_less(#[trigger] fs[i].0, k),
        key_slot(fs, k, j) < fs.len() ==> !seq_less(fs[key_slot(fs, k, j)].0, k),
    decreases fs.len() - j,
{
    if j < fs.len() && seq_less(fs[j].0, k) {
        lemma_key_slot(fs, k, j + 1);
    }
}

/// Sets the member `k` of an object to `v`.
pub fn put_field(fs: &mut Vec<(String, JsonValue)>, k: &str, v: JsonValue)
    ensures
        fields_of(final(fs)@) == with_field(fields_of(old(fs)@), k@, v@),
{
    let kc = chars_of(k);
    let ghost f = fields_of(fs@);
    let mut j: usize = 0;
    while j < fs.len() && chars_less(&chars_of(fs[j].0.as_str()), &kc)
        invariant
            j <= fs@.len(),
            f == fields_of(fs@),
            kc@ == k@,
            key_slot(f, k@, 0) == key_slot(f, k@, j as int),
        decreases fs@.len() - j,
    {
        j = j + 1;
    }
    let ghost vv = v@;
    if j < fs.len() && str_eq(fs[j].0.as_str(), k) {
        let _ = fs.remove(j);
        fs.insert(j, (string_of(&kc), v));
        assert(fields_of(fs@) =~= f.update(j as int, (k@, vv)));
    } else {
        fs.insert(j, (string_of(&kc), v));
        assert(fields_of(fs@) =~= f.insert(j as int, (k@, vv)));
    }
}

/// A JSON string.
pub fn json_string(s: &str) -> (r: JsonValue)
    ensures
        r@ == Json::Str(s@),
{
    JsonValue::String(string_of(&chars_of(s)))
}

/// A JSON number holding `n`.
pub fn json_u32(n: u32) -> (r: JsonValue)
    ensures
        r@ == Json::Number(NumberKind::PosInt(n as u64)),
{
    let mut t: Vec<char> = Vec::new();
    write_decimal(n as u64, &mut t);
    JsonValue::Number(JsonNumber { kind: NumberKind::PosInt(n as u64), text: string_of(&t) })
}

/// The JSON strings of `v`, in order.
pub open spec fn str_items(v: Seq<Seq<char>>) -> Seq<Json> {
    v.map_values(|s: Seq<char>| Json::Str(s))
}

/// A JSON array of the strings of `v`.
pub fn json_strings(v: &Vec<String>) -> (r: JsonValue)
    ensures
        r@ == Json::Array(str_items(texts(v@))),
{
    let mut items: Vec<JsonValue> = Vec::new();
    let mut i: usize = 0;
    while i < v.len()
        invariant
            i <= v@.len(),
            items@.len() == i,
            forall|j: int| 0 <= j < i ==> (#[trigger] items@[j])@ == Json::Str(v@[j]@),
        decreases v@.len() - i,
    {
        items.push(json_string(v[i].as_str()));
        i = i + 1;
    }
    let r = JsonValue::Array(items);
    assert(r@->Array_0 =~= str_items(texts(v@)));
    r
}

/// The string map held by a sorted sequence of pairs.
pub open spec fn names_map(s: Seq<(String, String)>) -> Map<Seq<char>, Seq<char>> {
    Map::new(|k: Seq<char>| has_key(s, k), |k: Seq<char>| s[key_pos(s, k)].1@)
}

/// The file name stem of a referenced type: the canonical base name kept
/// for its `"{base}:{profile}"` key, or the base name as written when no
/// such type was read.
pub open spec fn canonical_base(
    canon: Map<Seq<char>, Seq<char>>,
    base: Seq<char>,
    profile: Seq<char>,
) -> Seq<char> {
    let key = lowercase(base) + seq![':'] + profile;
    if canon.contains_key(key) {
        canon[key]
    } else {
        base
    }
}

/// The `$ref` of a referenced type: the bare file name within the same
/// profile, `{profile}/{file}` across profiles.
pub open spec fn ref_target(
    base: Seq<char>,
    profile: Seq<char>,
    own: Seq<char>,
    canon: Map<Seq<char>, Seq<char>>,
) -> Seq<char> {
    if profile == own {
        canonical_base(canon, base, profile) + ".schema.json"@
    } else {
        profile + seq!['/'] + canonical_base(canon, base, profile) + ".schema.json"@
    }
}

/// The members of the schema of a property type, in key order, for a type
/// of the profile `own`.
pub open spec fn desc_schema(d: TypeModel, own: Seq<char>, canon: Map<Seq<char>, Seq<char>>) -> Seq<
    (Seq<char>, Json),
>
    decreases d,
{
    match d {
        TypeModel::Primitive { name } => seq![("type"@, Json::Str(name))],
        TypeModel::Union { types } => seq![("type"@, Json::Array(str_items(types)))],
        TypeModel::Unknown => Seq::empty(),
        TypeModel::FixedArray { element_type, size } => seq![
            ("items"@, Json::Object(seq![("type"@, Json::Str(element_type))])),
            ("maxItems"@, Json::Number(NumberKind::PosInt(size as u64))),
            ("minItems"@, Json::Number(NumberKind::PosInt(size as u64))),
            ("type"@, Json::Str("array"@)),
        ],
        TypeModel::Array { element } => seq![
            ("items"@, Json::Object(desc_schema(*element, own, canon))),
            ("type"@, Json::Str("array"@)),
        ],
        TypeModel::Reference { name, base_name, profile } => seq![
            ("$ref"@, Json::Str(ref_target(base_name, profile, own, canon))),
        ],
    }
}

/// The canonical base name of a referenced type.
fn canonical_of(canonical: &Vec<(String, String)>, base: &str, profile: &str) -> (r: String)
    requires
        sorted_keys(canonical@),
    ensures
        r@ == canonical_base(names_map(canonical@), base@, profile@),
{
    let mut key = chars_of(to_lowercase(base).as_str());
    key.push(':');
    push_str(&mut key, profile);
    assert(key@ == lowercase(base@) + seq![':'] + profile@);
    let (p, found) = find_slot(canonical, &key);
    if found {
        proof {
            lemma_key_pos(canonical@, p as int);
        }
        string_of(&chars_of(canonical[p].1.as_str()))
    } else {
        proof {
            lemma_absent(canonical@, p as int, key@);
        }
        string_of(&chars_of(base))
    }
}

/// A member `(k, v)`.
fn field(k: &str, v: JsonValue) -> (r: (String, JsonValue))
    ensures
        r.0@ == k@,
        r.1@ == v@,
{
    (string_of(&chars_of(k)), v)
}

/// The schema of a property type, for a type of the profile `own_profile`:
/// `{"type": t}` for a primitive, `{"type": [..]}` for a union, `{}` when
/// unconstrained, an array schema with `items` (and `minItems` = `maxItems`
/// for a fixed size), or a `$ref` to the referenced type's schema file.
pub fn type_desc_schema(desc: &TypeDesc, own_profile: &str, canonical: &Vec<(String, String)>) -> (r:
    JsonValue)
    requires
        sorted_keys(canonical@),
    ensures
        r@ == Json::Object(desc_schema(desc@, own_profile@, names_map(canonical@))),
{
    let f = desc_fields(desc, own_profile, canonical);
    proof {
        lemma_object_view(f);
    }
    JsonValue::Object(f)
}

/// The members of the schema of a property type.
fn desc_fields(desc: &TypeDesc, own: &str, canonical: &Vec<(String, String)>) -> (r: Vec<
    (String, JsonValue),
>)
    requires
        sorted_keys(canonical@),
    ensures
        fields_of(r@) == desc_schema(desc@, own@, names_map(canonical@)),
    decreases desc,
{
    let ghost canon = names_map(canonical@);
    let mut r: Vec<(String, JsonValue)> = Vec::new();
    match desc {
        TypeDesc::Primitive { name } => {
            r.push(field("type", json_string(name.as_str())));
            assert(fields_of(r@) =~= desc_schema(desc@, own@, canon));
        },
        TypeDesc::Union { types } => {
            r.push(field("type", json_strings(types)));
            assert(fields_of(r@) =~= desc_schema(desc@, own@, canon));
        },
        TypeDesc::Unknown => {
            assert(fields_of(r@) =~= desc_schema(desc@, own@, canon));
        },
        TypeDesc::FixedArray { element_type, size } => {
            let mut items: Vec<(String, JsonValue)> = Vec::new();
            items.push(field("type", json_string(element_type.as_str())));
            proof {
                lemma_object_view(items);
            }
            assert(fields_of(items@) =~= seq![("type"@, Json::Str(element_type@))]);
            r.push(field("items", JsonValue::Object(items)));
            r.push(field("maxItems", json_u32(*size)));
            r.push(field("minItems", json_u32(*size)));
            r.push(field("type", json_string("array")));
            assert(fields_of(r@) =~= desc_schema(desc@, own@, canon));
        },
        TypeDesc::Array { element } => {
            let items = desc_fields(element, own, canonical);
            proof {
                lemma_object_view(items);
            }
            r.push(field("items", JsonValue::Object(items)));
            r.push(field("type", json_string("array")));
            assert(fields_of(r@) =~= desc_schema(desc@, own@, canon));
        },
        TypeDesc::Reference { name, base_name, profile } => {
            let stem = canonical_of(canonical, base_name.as_str(), profile.as_str());
            let mut t: Vec<char> = Vec::new();
            if str_eq(profile.as_str(), own) {
                push_str(&mut t, stem.as_str());
                push_str(&mut t, ".schema.json");
            } else {
                push_str(&mut t, profile.as_str());
                t.push('/');
                push_str(&mut t, stem.as_str());
                push_str(&mut t, ".schema.json");
            }
            assert(t@ == ref_target(base_name@, profile@, own@, canon));
            r.push(field("$ref", JsonValue::String(string_of(&t))));
            assert(fields_of(r@) =~= desc_schema(desc@, own@, canon));
        },
    }
    r
}

/// Whether a property type is an array (fixed or not).
pub open spec fn is_array_type(d: TypeModel) -> bool {
    d is Array || d is FixedArray
}

/// The members of the element schema of an array type.
pub open spec fn item_schema(d: TypeModel, own: Seq<char>, canon: Map<Seq<char>, Seq<char>>) -> Seq<
    (Seq<char>, Json),
> {
    match d {
        TypeModel::Array { element } => desc_schema(*element, own, canon),
        TypeModel::FixedArray { element_type, size } => seq![("type"@, Json::Str(element_type))],
        _ => Seq::empty(),
    }
}

/// The schema members of a type whose values are limited to `vs`: the
/// enumeration constrains the elements of an array, the value otherwise.
pub open spec fn enum_schema(
    d: TypeModel,
    own: Seq<char>,
    canon: Map<Seq<char>, Seq<char>>,
    vs: Seq<Seq<char>>,
) -> Seq<(Seq<char>, Json)> {
    let ev = Json::Array(str_items(vs));
    if is_array_type(d) {
        with_field(
            desc_schema(d, own, canon),
            "items"@,
            Json::Object(with_field(item_schema(d, own, canon), "enum"@, ev)),
        )
    } else {
        with_field(desc_schema(d, own, canon), "enum"@, ev)
    }
}

/// The members of the schema of a property of a type of profile `own`.
pub open spec fn property_schema(
    p: PropertyModel,
    own: Seq<char>,
    canon: Map<Seq<char>, Seq<char>>,
) -> Seq<(Seq<char>, Json)> {
    let a = match p.enum_values {
        Some(vs) => enum_schema(p.type_desc, own, canon, vs),
        None => desc_schema(p.type_desc, own, canon),
    };
    let b = if p.description.len() > 0 {
        with_field(a, "description"@, Json::Str(cleaned(p.description)))
    } else {
        a
    };
    if p.deprecated {
        with_field(b, "deprecated"@, Json::Bool(true))
    } else {
        b
    }
}

/// The members of the schema of a property.
fn property_fields(prop: &Property, own: &str, canonical: &Vec<(String, String)>) -> (r: Vec<
    (String, JsonValue),
>)
    requires
        sorted_keys(canonical@),
    ensures
        fields_of(r@) == property_schema(prop@, own@, names_map(canonical@)),
{
    let ghost canon = names_map(canonical@);
    let ghost d = prop.type_desc@;
    let mut r = desc_fields(&prop.type_desc, own, canonical);
    match &prop.enum_values {
        Some(vs) => {
            let ev = json_strings(vs);
            let is_array = match &prop.type_desc {
                TypeDesc::Array { .. } => true,
                TypeDesc::FixedArray { .. } => true,
                _ => false,
            };
            assert(is_array == is_array_type(d));
            if is_array {
                let ghost before = fields_of(r@);
                assert(before == desc_schema(d, own@, canon));
                assert(before.len() >= 2 && before[0].0 == "items"@ && before[0].1 == Json::Object(
                    item_schema(d, own@, canon),
                ));
                assert(r@.len() == before.len());
                assert(r@[0].1@ == before[0].1);
                let (k, v) = r.remove(0);
                match v {
                    JsonValue::Object(mut f) => {
                        proof {
                            lemma_object_view(f);
                            assert(fields_of(f@) == item_schema(d, own@, canon));
                        }
                        let ghost fv = fields_of(f@);
                        put_field(&mut f, "enum", ev);
                        let ghost items = Json::Object(fields_of(f@));
                        proof {
                            lemma_object_view(f);
                        }
                        r.insert(0, (k, JsonValue::Object(f)));
                        proof {
                            assert(fields_of(r@) =~= before.update(0, ("items"@, items)));
                            lemma_less_irreflexive("items"@);
                            assert(key_slot(before, "items"@, 0) == 0);
                        }
                    },
                    _ => {
                        assert(false);
                    },
                }
            } else {
                put_field(&mut r, "enum", ev);
            }
        },
        None => {},
    }
    if chars_of(prop.description.as_str()).len() > 0 {
        let c = clean_description(prop.description.as_str());
        put_field(&mut r, "description", JsonValue::String(c));
    }
    if prop.deprecated {
        put_field(&mut r, "deprecated", JsonValue::Bool(true));
    }
    r
}

/// Whether a property stands for the members of a map keyed by arbitrary
/// identifiers.
pub open spec fn is_map_property(name: Seq<char>) -> bool {
    name == "(identifier)"@ || name == "{identifier}"@
}

/// The named properties, the names of the required ones, and the schema of
/// the map members of a type whose properties are `ps`: later properties
/// replace earlier ones of the same name, and the last map property gives
/// the schema of the map members.
pub open spec fn properties_part(
    ps: Seq<PropertyModel>,
    own: Seq<char>,
    canon: Map<Seq<char>, Seq<char>>,
) -> (Seq<(Seq<char>, Json)>, Seq<Seq<char>>, Option<Json>)
    decreases ps.len(),
{
    if ps.len() == 0 {
        (Seq::empty(), Seq::empty(), None)
    } else {
        let (f, req, extra) = properties_part(ps.drop_last(), own, canon);
        let p = ps.last();
        if is_map_property(p.name) {
            (f, req, Some(Json::Object(desc_schema(p.type_desc, own, canon))))
        } else {
            (
                with_field(f, p.name, Json::Object(property_schema(p, own, canon))),
                if p.required {
                    req.push(p.name)
                } else {
                    req
                },
                extra,
            )
        }
    }
}

/// The dialect every schema declares.
pub open spec fn draft_07() -> Seq<char> {
    "http://json-schema.org/draft-07/schema#"@
}

/// The schema of a type that appears in the spec versions `versions`.
pub open spec fn type_schema_of(
    e: TypeEntryModel,
    versions: Seq<Seq<char>>,
    canon: Map<Seq<char>, Seq<char>>,
) -> Json {
    let (props, req, extra) = properties_part(e.properties, e.profile, canon);
    let r1 = with_field(with_field(Seq::empty(), "$schema"@, Json::Str(draft_07())), "title"@, Json::Str(e.name));
    let r2 = if e.description.len() > 0 {
        with_field(r1, "description"@, Json::Str(cleaned(e.description)))
    } else {
        r1
    };
    let r3 = with_field(with_field(r2, "type"@, Json::Str("object"@)), "properties"@, Json::Object(props));
    let r4 = if req.len() > 0 {
        with_field(r3, "required"@, Json::Array(str_items(req)))
    } else {
        r3
    };
    let r5 = match extra {
        Some(x) => with_field(r4, "additionalProperties"@, x),
        None => r4,
    };
    let r6 = if e.deprecated {
        with_field(r5, "deprecated"@, Json::Bool(true))
    } else {
        r5
    };
    Json::Object(
        if versions.len() > 0 {
            with_field(r6, "x-i3s-versions"@, Json::Array(str_items(versions)))
        } else {
            r6
        },
    )
}

/// The content of an optional JSON value.
pub open spec fn opt_view(o: Option<JsonValue>) -> Option<Json> {
    match o {
        Some(v) => Some(v@),
        None => None,
    }
}

/// A copy of the string `s`.
pub(crate) fn copy_string(s: &String) -> (r: String)
    ensures
        r@ == s@,
{
    string_of(&chars_of(s.as_str()))
}

/// Renders one type as a draft-07 JSON Schema object. `versions` are the
/// spec versions in which the type appears; `canonical` maps lower-cased
/// `"{base}:{profile}"` keys to the base names used for schema file names,
/// so that `$ref`s written from markdown links resolve whatever their case.
pub fn type_schema(entry: &TypeEntry, versions: &Vec<String>, canonical: &Vec<(String, String)>) -> (r:
    JsonValue)
    requires
        sorted_keys(canonical@),
    ensures
        r@ == type_schema_of(entry@, texts(versions@), names_map(canonical@)),
{
    let ghost canon = names_map(canonical@);
    let ghost ps = entry@.properties;
    let own = entry.profile.as_str();
    let mut props: Vec<(String, JsonValue)> = Vec::new();
    let mut req: Vec<String> = Vec::new();
    let mut extra: Option<JsonValue> = None;
    let mut i: usize = 0;
    assert(ps.take(0) =~= Seq::<PropertyModel>::empty());
    while i < entry.properties.len()
        invariant
            i <= entry.properties@.len(),
            ps == entry@.properties,
            ps.len() == entry.properties@.len(),
            own@ == entry@.profile,
            sorted_keys(canonical@),
            canon == names_map(canonical@),
            (fields_of(props@), texts(req@), opt_view(extra)) == properties_part(
                ps.take(i as int),
                own@,
                canon,
            ),
        decreases entry.properties@.len() - i,
    {
        let prop = &entry.properties[i];
        assert(ps.take(i + 1).drop_last() =~= ps.take(i as int));
        assert(ps[i as int] == prop@);
        if str_eq(prop.name.as_str(), "(identifier)") || str_eq(prop.name.as_str(), "{identifier}") {
            let f = desc_fields(&prop.type_desc, own, canonical);
            proof {
                lemma_object_view(f);
            }
            extra = Some(JsonValue::Object(f));
        } else {
            let f = property_fields(prop, own, canonical);
            proof {
                lemma_object_view(f);
            }
            put_field(&mut props, prop.name.as_str(), JsonValue::Object(f));
            if prop.required {
                let ghost before = req@;
                req.push(copy_string(&prop.name));
                assert(texts(req@) =~= texts(before).push(prop.name@));
            }
        }
        i = i + 1;
    }
    assert(ps.take(i as int) =~= ps);
    let ghost e = entry@;
    let ghost parts = properties_part(e.properties, e.profile, canon);
    assert(parts.0 == fields_of(props@) && parts.1 == texts(req@) && parts.2 == opt_view(extra));
    let mut root: Vec<(String, JsonValue)> = Vec::new();
    assert(fields_of(root@) =~= Seq::<(Seq<char>, Json)>::empty());
    put_field(&mut root, "$schema", json_string("http://json-schema.org/draft-07/schema#"));
    put_field(&mut root, "title", json_string(entry.name.as_str()));
    let ghost r1 = fields_of(root@);
    if chars_of(entry.description.as_str()).len() > 0 {
        put_field(&mut root, "description", JsonValue::String(clean_description(entry.description.as_str())));
    }
    let ghost r2 = fields_of(root@);
    assert(r2 == if e.description.len() > 0 {
        with_field(r1, "description"@, Json::Str(cleaned(e.description)))
    } else {
        r1
    });
    put_field(&mut root, "type", json_string("object"));
    proof {
        lemma_object_view(props);
    }
    put_field(&mut root, "properties", JsonValue::Object(props));
    let ghost r3 = fields_of(root@);
    if req.len() > 0 {
        put_field(&mut root, "required", json_strings(&req));
    }
    let ghost r4 = fields_of(root@);
    assert(r4 == if parts.1.len() > 0 {
        with_field(r3, "required"@, Json::Array(str_items(parts.1)))
    } else {
        r3
    });
    match extra {
        Some(x) => {
            put_field(&mut root, "additionalProperties", x);
        },
        None => {},
    }
    let ghost r5 = fields_of(root@);
    assert(r5 == match parts.2 {
        Some(x) => with_field(r4, "additionalProperties"@, x),
        None => r4,
    });
    if entry.deprecated {
        put_field(&mut root, "deprecated", JsonValue::Bool(true));
    }
    let ghost r6 = fields_of(root@);
    if versions.len() > 0 {
        put_field(&mut root, "x-i3s-versions", json_strings(versions));
    }
    assert(fields_of(root@) == if texts(versions@).len() > 0 {
        with_field(r6, "x-i3s-versions"@, Json::Array(str_items(texts(versions@))))
    } else {
        r6
    });
    proof {
        lemma_object_view(root);
    }
    JsonValue::Object(root)
}

/// The canonical base names of the types `es`, by lower-cased
/// `"{base}:{profile}"` key, and for the common profile also by lower-cased
/// base name alone; a later type replaces an earlier one under the same key.
pub open spec fn canonical_map(es: Seq<TypeEntryModel>) -> Map<Seq<char>, Seq<char>>
    decreases es.len(),
{
    if es.len() == 0 {
        Map::empty()
    } else {
        let e = es.last();
        let m = canonical_map(es.drop_last()).insert(dedup_key(e), e.base_name);
        if e.profile == "cmn"@ {
            m.insert(lowercase(e.base_name), e.base_name)
        } else {
            m
        }
    }
}

/// Sets `key` to `value` in a sorted string map.
fn put_name(pairs: &mut Vec<(String, String)>, key: &Vec<char>, value: String)
    requires
        sorted_keys(old(pairs)@),
    ensures
        sorted_keys(final(pairs)@),
        names_map(final(pairs)@) == names_map(old(pairs)@).insert(key@, value@),
{
    let ghost v = value@;
    put_entry(pairs, key, value);
    assert(names_map(pairs@) =~= names_map(old(pairs)@).insert(key@, v));
}

/// Maps lower-cased base names to the canonical base names used in file
/// names, so that `$ref`s resolve whatever their case: each type is listed
/// under `"{base}:{profile}"`, and a type of the common profile also under
/// its bare base name. The pairs are sorted by key.
pub fn canonical_names(ir: &Ir) -> (r: Vec<(String, String)>)
    ensures
        sorted_keys(r@),
        names_map(r@) == canonical_map(ir_entries(ir.modules@)),
{
    let ghost mods = ir.modules@;
    let mut out: Vec<(String, String)> = Vec::new();
    assert(names_map(out@) =~= Map::<Seq<char>, Seq<char>>::empty());
    let mut i: usize = 0;
    while i < ir.modules.len()
        invariant
            i <= mods.len(),
            mods == ir.modules@,
            sorted_keys(out@),
            names_map(out@) == canonical_map(ir_entries(mods.take(i as int))),
        decreases mods.len() - i,
    {
        let types = &ir.modules[i].1.types;
        let ghost pre = ir_entries(mods.take(i as int));
        let ghost views = entry_views(types@);
        assert(mods.take(i + 1).drop_last() =~= mods.take(i as int));
        assert(ir_entries(mods.take(i + 1)) == pre + views);
        let mut j: usize = 0;
        assert(pre + views.take(0) =~= pre);
        while j < types.len()
            invariant
                j <= types@.len(),
                views == entry_views(types@),
                sorted_keys(out@),
                names_map(out@) == canonical_map(pre + views.take(j as int)),
            decreases types@.len() - j,
        {
            let e = &types[j];
            assert(views[j as int] == e@);
            assert((pre + views.take(j + 1)).drop_last() =~= pre + views.take(j as int));
            assert((pre + views.take(j + 1)).last() == e@);
            let low = chars_of(to_lowercase(e.base_name.as_str()).as_str());
            let mut key = copy_chars(&low);
            key.push(':');
            push_str(&mut key, e.profile.as_str());
            assert(key@ == dedup_key(e@));
            put_name(&mut out, &key, copy_string(&e.base_name));
            if str_eq(e.profile.as_str(), "cmn") {
                put_name(&mut out, &low, copy_string(&e.base_name));
            }
            j = j + 1;
        }
        assert(pre + views.take(j as int) =~= pre + views);
        i = i + 1;
    }
    assert(mods.take(i as int) =~= mods);
    out
}

/// Where the schema of a type is written: `{profile}/{base}.schema.json`.
pub open spec fn schema_path(e: TypeEntryModel) -> Seq<char> {
    e.profile + seq!['/'] + e.base_name + ".schema.json"@
}

/// The versions recorded for a type (none when its key is not recorded).
pub open spec fn versions_of(vm: Map<Seq<char>, Seq<Seq<char>>>, e: TypeEntryModel) -> Seq<Seq<char>> {
    if vm.contains_key(dedup_key(e)) {
        vm[dedup_key(e)]
    } else {
        Seq::empty()
    }
}

/// The schema documents of the types `es`, by path; a later type replaces
/// an earlier one written to the same path.
pub open spec fn documents(
    es: Seq<TypeEntryModel>,
    vm: Map<Seq<char>, Seq<Seq<char>>>,
    canon: Map<Seq<char>, Seq<char>>,
) -> Map<Seq<char>, Json>
    decreases es.len(),
{
    if es.len() == 0 {
        Map::empty()
    } else {
        let e = es.last();
        documents(es.drop_last(), vm, canon).insert(
            schema_path(e),
            type_schema_of(e, versions_of(vm, e), canon),
        )
    }
}

/// The JSON documents held by a sorted sequence of `(path, document)`.
pub open spec fn document_map(s: Seq<(String, JsonValue)>) -> Map<Seq<char>, Json> {
    Map::new(|k: Seq<char>| has_key(s, k), |k: Seq<char>| s[key_pos(s, k)].1@)
}

/// The versions recorded for a type, from the sorted version index.
fn versions_for(versions: &Vec<(String, Vec<String>)>, e: &TypeEntry) -> (r: Vec<String>)
    requires
        sorted_keys(versions@),
    ensures
        texts(r@) == versions_of(version_map(versions@), e@),
{
    let mut key = chars_of(to_lowercase(e.base_name.as_str()).as_str());
    key.push(':');
    push_str(&mut key, e.profile.as_str());
    assert(key@ == dedup_key(e@));
    let (p, found) = find_slot(versions, &key);
    let mut r: Vec<String> = Vec::new();
    if found {
        proof {
            lemma_key_pos(versions@, p as int);
        }
        let list = &versions[p].1;
        let mut i: usize = 0;
        while i < list.len()
            invariant
                i <= list@.len(),
                texts(r@) == texts(list@).take(i as int),
            decreases list@.len() - i,
        {
            let ghost before = r@;
            let c = copy_string(&list[i]);
            assert(c@ == list@[i as int]@);
            r.push(c);
            assert(texts(r@) =~= texts(before).push(c@));
            assert(texts(list@).take(i + 1) =~= texts(list@).take(i as int).push(list@[i as int]@));
            i = i + 1;
        }
        assert(texts(list@).take(i as int) =~= texts(list@));
    } else {
        proof {
            lemma_absent(versions@, p as int, key@);
        }
        assert(texts(r@) =~= Seq::<Seq<char>>::empty());
    }
    r
}

/// Renders every type of `ir` as a schema document, keyed by the path it is
/// written to and sorted by path. `versions` is the sorted index of the
/// spec versions in which each `"{base}:{profile}"` key appears.
pub fn render_schemas(ir: &Ir, versions: &Vec<(String, Vec<String>)>) -> (r: Vec<(String, JsonValue)>)
    requires
        sorted_keys(versions@),
    ensures
        sorted_keys(r@),
        document_map(r@) == documents(
            ir_entries(ir.modules@),
            version_map(versions@),
            canonical_map(ir_entries(ir.modules@)),
        ),
{
    let canonical = canonical_names(ir);
    let ghost canon = names_map(canonical@);
    let ghost vm = version_map(versions@);
    let ghost mods = ir.modules@;
    let mut out: Vec<(String, JsonValue)> = Vec::new();
    assert(document_map(out@) =~= Map::<Seq<char>, Json>::empty());
    let mut i: usize = 0;
    while i < ir.modules.len()
        invariant
            i <= mods.len(),
            mods == ir.modules@,
            sorted_keys(canonical@),
            sorted_keys(versions@),
            canon == names_map(canonical@),
            vm == version_map(versions@),
            sorted_keys(out@),
            document_map(out@) == documents(ir_entries(mods.take(i as int)), vm, canon),
        decreases mods.len() - i,
    {
        let types = &ir.modules[i].1.types;
        let ghost pre = ir_entries(mods.take(i as int));
        let ghost views = entry_views(types@);
        assert(mods.take(i + 1).drop_last() =~= mods.take(i as int));
        assert(ir_entries(mods.take(i + 1)) == pre + views);
        let mut j: usize = 0;
        assert(pre + views.take(0) =~= pre);
        while j < types.len()
            invariant
                j <= types@.len(),
                views == entry_views(types@),
                sorted_keys(canonical@),
                sorted_keys(versions@),
                canon == names_map(canonical@),
                vm == version_map(versions@),
                sorted_keys(out@),
                document_map(out@) == documents(pre + views.take(j as int), vm, canon),
            decreases types@.len() - j,
        {
            let e = &types[j];
            assert(views[j as int] == e@);
            assert((pre + views.take(j + 1)).drop_last() =~= pre + views.take(j as int));
            assert((pre + views.take(j + 1)).last() == e@);
            let vs = versions_for(versions, e);
            let doc = type_schema(e, &vs, &canonical);
            let mut path: Vec<char> = Vec::new();
            push_str(&mut path, e.profile.as_str());
            path.push('/');
            push_str(&mut path, e.base_name.as_str());
            push_str(&mut path, ".schema.json");
            assert(path@ == schema_path(e@));
            let ghost d = doc@;
            let ghost before = out@;
            put_entry(&mut out, &path, doc);
            assert(document_map(out@) =~= document_map(before).insert(path@, d));
            j = j + 1;
        }
        assert(pre + views.take(j as int) =~= pre + views);
        i = i + 1;
    }
    assert(mods.take(i as int) =~= mods);
    out
}

/// The member names are strictly increasing.
pub open spec fn sorted_fields(fs: Seq<(Seq<char>, Json)>) -> bool {
    forall|i: int, j: int| 0 <= i < j < fs.len() ==> seq_less(#[trigger] fs[i].0, #[trigger] fs[j].0)
}

/// The value of the member `k` (the first one, where names repeat).
pub open spec fn field_value(fs: Seq<(Seq<char>, Json)>, k: Seq<char>) -> Option<Json>
    decreases fs.len(),
{
    if fs.len() == 0 {
        None
    } else if fs[0].0 == k {
        Some(fs[0].1)
    } else {
        field_value(fs.drop_first(), k)
    }
}

proof fn lemma_field_value_at(fs: Seq<(Seq<char>, Json)>, i: int)
    requires
        sorted_fields(fs),
        0 <= i < fs.len(),
    ensures
        field_value(fs, fs[i].0) == Some(fs[i].1),
    decreases i,
{
    if i > 0 {
        assert(seq_less(fs[0].0, fs[i].0));
        lemma_less_asymmetric(fs[0].0, fs[i].0);
        let t = fs.drop_first();
        assert(sorted_fields(t)) by {
            assert forall|a: int, b: int| 0 <= a < b < t.len() implies seq_less(
                #[trigger] t[a].0,
                #[trigger] t[b].0,
            ) by {
                assert(t[a] == fs[a + 1] && t[b] == fs[b + 1]);
            }
        }
        lemma_field_value_at(t, i - 1);
    }
}

proof fn lemma_field_value_absent(fs: Seq<(Seq<char>, Json)>, k: Seq<char>)
    requires
        forall|i: int| 0 <= i < fs.len() ==> #[trigger] fs[i].0 != k,
    ensures
        field_value(fs, k) is None,
    decreases fs.len(),
{
    if fs.len() > 0 {
        assert(fs[0].0 != k);
        let t = fs.drop_first();
        assert forall|i: int| 0 <= i < t.len() implies #[trigger] t[i].0 != k by {
            assert(t[i] == fs[i + 1]);
        }
        lemma_field_value_absent(t, k);
    }
}

/// Setting a member of an object with sorted member names keeps the names
/// sorted; the member then has the new value and every other member keeps
/// its own.
pub proof fn lemma_with_field(fs: Seq<(Seq<char>, Json)>, k: Seq<char>, v: Json)
    requires
        sorted_fields(fs),
    ensures
        sorted_fields(with_field(fs, k, v)),
        field_value(with_field(fs, k, v), k) == Some(v),
        forall|k2: Seq<char>| k2 != k ==> #[trigger] field_value(with_field(fs, k, v), k2) == field_value(fs, k2),
{
    lemma_key_slot(fs, k, 0);
    let p = key_slot(fs, k, 0);
    let r = with_field(fs, k, v);
    if p < fs.len() && fs[p].0 == k {
        assert(r == fs.update(p, (k, v)));
        assert forall|a: int, b: int| 0 <= a < b < r.len() implies seq_less(
            #[trigger] r[a].0,
            #[trigger] r[b].0,
        ) by {
            assert(r[a].0 == fs[a].0 && r[b].0 == fs[b].0);
        }
        assert(r[p] == (k, v));
        lemma_field_value_at(r, p);
        assert forall|k2: Seq<char>| k2 != k implies #[trigger] field_value(r, k2) == field_value(fs, k2) by {
            if exists|j: int| 0 <= j < fs.len() && fs[j].0 == k2 {
                let j = choose|j: int| 0 <= j < fs.len() && fs[j].0 == k2;
                lemma_field_value_at(fs, j);
                assert(j != p);
                assert(r[j] == fs[j]);
                lemma_field_value_at(r, j);
            } else {
                lemma_field_value_absent(fs, k2);
                assert forall|j: int| 0 <= j < r.len() implies #[trigger] r[j].0 != k2 by {
                    if j != p {
                        assert(r[j] == fs[j]);
                    }
                }
                lemma_field_value_absent(r, k2);
            }
        }
    } else {
        assert(r == fs.insert(p, (k, v)));
        if p < fs.len() {
            lemma_less_total(fs[p].0, k);
        }
        assert forall|a: int, b: int| 0 <= a < b < r.len() implies seq_less(
            #[trigger] r[a].0,
            #[trigger] r[b].0,
        ) by {
            if b < p {
                assert(r[a] == fs[a] && r[b] == fs[b]);
            } else if b == p {
                assert(r[a] == fs[a]);
            } else if a < p {
                assert(r[a] == fs[a] && r[b] == fs[b - 1]);
                if b - 1 > p {
                    lemma_less_transitive(k, fs[p].0, fs[b - 1].0);
                }
                lemma_less_transitive(fs[a].0, k, fs[b - 1].0);
            } else if a == p {
                assert(r[b] == fs[b - 1]);
                if b - 1 > p {
                    lemma_less_transitive(k, fs[p].0, fs[b - 1].0);
                }
            } else {
                assert(r[a] == fs[a - 1] && r[b] == fs[b - 1]);
            }
        }
        assert(r[p] == (k, v));
        lemma_field_value_at(r, p);
        assert forall|k2: Seq<char>| k2 != k implies #[trigger] field_value(r, k2) == field_value(fs, k2) by {
            if exists|j: int| 0 <= j < fs.len() && fs[j].0 == k2 {
                let j = choose|j: int| 0 <= j < fs.len() && fs[j].0 == k2;
                lemma_field_value_at(fs, j);
                if j < p {
                    assert(r[j] == fs[j]);
                    lemma_field_value_at(r, j);
                } else {
                    assert(r[j + 1] == fs[j]);
                    lemma_field_value_at(r, j + 1);
                }
            } else {
                lemma_field_value_absent(fs, k2);
                assert forall|j: int| 0 <= j < r.len() implies #[trigger] r[j].0 != k2 by {
                    if j < p {
                        assert(r[j] == fs[j]);
                    } else if j > p {
                        assert(r[j] == fs[j - 1]);
                    }
                }
                lemma_field_value_absent(r, k2);
            }
        }
    }
}

/// Every schema document is an object with sorted member names that
/// declares the draft-07 dialect, is titled with the type heading verbatim,
/// is of type `object`, and lists the type's named properties.
pub proof fn lemma_type_schema_members(
    e: TypeEntryModel,
    versions: Seq<Seq<char>>,
    canon: Map<Seq<char>, Seq<char>>,
)
    ensures
        type_schema_of(e, versions, canon) is Object,
        sorted_fields(type_schema_of(e, versions, canon)->Object_0),
        field_value(type_schema_of(e, versions, canon)->Object_0, "$schema"@) == Some(
            Json::Str(draft_07()),
        ),
        field_value(type_schema_of(e, versions, canon)->Object_0, "title"@) == Some(Json::Str(e.name)),
        field_value(type_schema_of(e, versions, canon)->Object_0, "type"@) == Some(
            Json::Str("object"@),
        ),
        field_value(type_schema_of(e, versions, canon)->Object_0, "properties"@) == Some(
            Json::Object(properties_part(e.properties, e.profile, canon).0),
        ),
{
    reveal_strlit("$schema");
    reveal_strlit("title");
    reveal_strlit("description");
    reveal_strlit("type");
    reveal_strlit("properties");
    reveal_strlit("required");
    reveal_strlit("additionalProperties");
    reveal_strlit("deprecated");
    reveal_strlit("x-i3s-versions");
    let (props, req, extra) = properties_part(e.properties, e.profile, canon);
    let r0 = Seq::<(Seq<char>, Json)>::empty();
    let a = with_field(r0, "$schema"@, Json::Str(draft_07()));
    lemma_with_field(r0, "$schema"@, Json::Str(draft_07()));
    let r1 = with_field(a, "title"@, Json::Str(e.name));
    lemma_with_field(a, "title"@, Json::Str(e.name));
    let r2 = if e.description.len() > 0 {
        with_field(r1, "description"@, Json::Str(cleaned(e.description)))
    } else {
        r1
    };
    lemma_with_field(r1, "description"@, Json::Str(cleaned(e.description)));
    let b = with_field(r2, "type"@, Json::Str("object"@));
    lemma_with_field(r2, "type"@, Json::Str("object"@));
    let r3 = with_field(b, "properties"@, Json::Object(props));
    lemma_with_field(b, "properties"@, Json::Object(props));
    let r4 = if req.len() > 0 {
        with_field(r3, "required"@, Json::Array(str_items(req)))
    } else {
        r3
    };
    lemma_with_field(r3, "required"@, Json::Array(str_items(req)));
    let r5 = match extra {
        Some(x) => with_field(r4, "additionalProperties"@, x),
        None => r4,
    };
    if let Some(x) = extra {
        lemma_with_field(r4, "additionalProperties"@, x);
    }
    let r6 = if e.deprecated {
        with_field(r5, "deprecated"@, Json::Bool(true))
    } else {
        r5
    };
    lemma_with_field(r5, "deprecated"@, Json::Bool(true));
    lemma_with_field(r6, "x-i3s-versions"@, Json::Array(str_items(versions)));
}

/// `s` holds no `/`.
pub open spec fn no_slash(s: Seq<char>) -> bool {
    forall|i: int| 0 <= i < s.len() ==> #[trigger] s[i] != '/'
}

/// A `$ref` that a schema of profile `own` holds, resolved the way the
/// validator resolves it from that schema's directory `own/`, names the
/// file `profile/<canonical base>.schema.json`: the path under which the
/// referenced type's schema is written. (A profile is a single path
/// component other than `.` and `..`; within a profile the canonical base
/// name holds no `/`.)
pub proof fn lemma_ref_resolves_to_written_path(
    base: Seq<char>,
    profile: Seq<char>,
    own: Seq<char>,
    canon: Map<Seq<char>, Seq<char>>,
)
    requires
        no_slash(profile),
        profile != "."@,
        profile != ".."@,
        profile == own ==> no_slash(canonical_base(canon, base, profile)),
    ensures
        ref_key(ref_target(base, profile, own, canon), own + "/"@) == Some(
            profile + "/"@ + canonical_base(canon, base, profile) + ".schema.json"@,
        ),
{
    reveal_strlit(".schema.json");
    reveal_strlit("/");
    reveal_strlit(".");
    reveal_strlit("..");
    let cb = canonical_base(canon, base, profile);
    let t = ref_target(base, profile, own, canon);
    let suffix = ".schema.json"@;
    assert(no_slash(suffix));
    lemma_next_index_bounds(t, '/', 0);
    let n = next_index_of(t, '/', 0);
    if profile == own {
        assert(t == cb + suffix);
        assert(no_slash(t)) by {
            assert forall|i: int| 0 <= i < t.len() implies #[trigger] t[i] != '/' by {
                if i < cb.len() {
                    assert(t[i] == cb[i]);
                } else {
                    assert(t[i] == suffix[i - cb.len()]);
                }
            }
        }
        assert(!starts_with(t, seq!['.', '/'])) by {
            if starts_with(t, seq!['.', '/']) {
                assert(t.subrange(0, 2)[1] == t[1]);
            }
        }
        assert(!starts_with(t, seq!['.', '.', '/'])) by {
            if starts_with(t, seq!['.', '.', '/']) {
                assert(t.subrange(0, 3)[2] == t[2]);
            }
        }
        assert(n == t.len()) by {
            if n < t.len() {
                assert(t[n] == '/');
            }
        }
        assert(own + "/"@ + t =~= profile + "/"@ + cb + suffix);
    } else {
        let p = profile.len() as int;
        assert(t == profile + seq!['/'] + cb + suffix);
        assert(t[p] == '/');
        assert(forall|i: int| 0 <= i < p ==> t[i] == profile[i]);
        assert(n == p) by {
            if n < p {
                assert(t[n] == profile[n]);
            }
            if n > p {
                assert(t[p] != '/');
            }
        }
        assert(!starts_with(t, seq!['.', '/'])) by {
            if starts_with(t, seq!['.', '/']) {
                assert(t.subrange(0, 2)[0] == t[0] && t.subrange(0, 2)[1] == t[1]);
                assert(t[1] == '/');
                if p > 1 {
                    assert(t[1] == profile[1]);
                } else if p == 1 {
                    assert(profile[0] == t[0]);
                    assert(profile =~= "."@);
                }
            }
        }
        assert(!starts_with(t, seq!['.', '.', '/'])) by {
            if starts_with(t, seq!['.', '.', '/']) {
                assert(t.subrange(0, 3)[0] == t[0] && t.subrange(0, 3)[1] == t[1]);
                assert(t.subrange(0, 3)[2] == t[2]);
                assert(t[2] == '/');
                if p > 2 {
                    assert(t[2] == profile[2]);
                } else if p == 2 {
                    assert(profile[0] == t[0] && profile[1] == t[1]);
                    assert(profile =~= ".."@);
                } else if p == 1 {
                    assert(t[1] == '/');
                } else {
                    assert(t[0] == '/');
                }
            }
        }
        assert(t =~= profile + "/"@ + cb + suffix);
    }
}

/// Every type read gets a schema document, at the path it is written to.
pub proof fn lemma_documents_cover(
    es: Seq<TypeEntryModel>,
    vm: Map<Seq<char>, Seq<Seq<char>>>,
    canon: Map<Seq<char>, Seq<char>>,
)
    ensures
        forall|i: int|
            0 <= i < es.len() ==> documents(es, vm, canon).contains_key(#[trigger] schema_path(es[i])),
    decreases es.len(),
{
    if es.len() > 0 {
        lemma_documents_cover(es.drop_last(), vm, canon);
        assert forall|i: int| 0 <= i < es.len() implies documents(es, vm, canon).contains_key(
            #[trigger] schema_path(es[i]),
        ) by {
            if i < es.len() - 1 {
                assert(es.drop_last()[i] == es[i]);
            }
        }
    }
}

/// No two neighbours of `s` are both `c`.
pub open spec fn no_double(s: Seq<char>, c: char) -> bool {
    forall|i: int| 0 <= i < s.len() - 1 ==> !(#[trigger] s[i] == c && s[i + 1] == c)
}

proof fn lemma_collapse_from(s: Seq<char>, c: char, i: int)
    requires
        0 <= i,
    ensures
        no_double(collapse_from(s, c, i), c),
        i < s.len() ==> collapse_from(s, c, i).len() > 0 && collapse_from(s, c, i)[0] == s[i],
    decreases s.len() - i,
{
    if i < s.len() {
        lemma_collapse_from(s, c, i + 1);
        let rest = collapse_from(s, c, i + 1);
        if !(s[i] == c && i + 1 < s.len() && s[i + 1] == c) {
            let r = seq![s[i]] + rest;
            assert(collapse_from(s, c, i) == r);
            assert forall|k: int| 0 <= k < r.len() - 1 implies !(#[trigger] r[k] == c && r[k + 1] == c) by {
                if k > 0 {
                    assert(r[k] == rest[k - 1] && r[k + 1] == rest[k]);
                } else {
                    assert(r[1] == rest[0]);
                }
            }
        }
    }
}

/// A cleaned description has no run of two spaces, and no white space at
/// either end.
pub proof fn lemma_cleaned_spacing(s: Seq<char>)
    ensures
        no_double(cleaned(s), ' '),
        cleaned(s).len() > 0 ==> !is_white_space(cleaned(s)[0]) && !is_white_space(
            cleaned(s).last(),
        ),
{
    let x = collapse(
        colon_gaps_from(tick_gaps_from(sentence_gaps_from(collapse(strip_tags(s), '`'), 0), 0), 0),
        ' ',
    );
    lemma_collapse_from(
        colon_gaps_from(tick_gaps_from(sentence_gaps_from(collapse(strip_tags(s), '`'), 0), 0), 0),
        ' ',
        0,
    );
    lemma_ws_run_end_bounds(x, 0);
    lemma_ws_back_bounds(x, x.len() as int);
    let a = ws_run_end(x, 0);
    let b = ws_back(x, x.len() as int);
    let r = cleaned(s);
    if a < b {
        assert(r == x.subrange(a, b));
        assert forall|k: int| 0 <= k < r.len() - 1 implies !(#[trigger] r[k] == ' ' && r[k + 1] == ' ') by {
            assert(r[k] == x[a + k] && r[k + 1] == x[a + k + 1]);
        }
    }
}

/// A map property (`(identifier)` or `{identifier}`) never becomes a named
/// property of a schema, and is never listed as required.
pub proof fn lemma_map_properties_excluded(
    ps: Seq<PropertyModel>,
    own: Seq<char>,
    canon: Map<Seq<char>, Seq<char>>,
)
    ensures
        forall|i: int|
            0 <= i < properties_part(ps, own, canon).0.len() ==> !is_map_property(
                (#[trigger] properties_part(ps, own, canon).0[i]).0,
            ),
        forall|i: int|
            0 <= i < properties_part(ps, own, canon).1.len() ==> !is_map_property(
                #[trigger] properties_part(ps, own, canon).1[i],
            ),
    decreases ps.len(),
{
    if ps.len() > 0 {
        lemma_map_properties_excluded(ps.drop_last(), own, canon);
        let (f, req, extra) = properties_part(ps.drop_last(), own, canon);
        let p = ps.last();
        if !is_map_property(p.name) {
            let v = Json::Object(property_schema(p, own, canon));
            lemma_key_slot(f, p.name, 0);
            let q = key_slot(f, p.name, 0);
            let g = with_field(f, p.name, v);
            assert forall|i: int| 0 <= i < g.len() implies !is_map_property((#[trigger] g[i]).0) by {
                if q < f.len() && f[q].0 == p.name {
                    if i != q {
                        assert(g[i] == f[i]);
                    }
                } else if i < q {
                    assert(g[i] == f[i]);
                } else if i > q {
                    assert(g[i] == f[i - 1]);
                }
            }
            let req2 = if p.required {
                req.push(p.name)
            } else {
                req
            };
            assert forall|i: int| 0 <= i < req2.len() implies !is_map_property(#[trigger] req2[i]) by {
                if i < req.len() {
                    assert(req2[i] == req[i]);
                }
            }
        }
    }
}

/// Whether cleaning keeps a character as it is: anything but white space
/// and backticks.
pub open spec fn is_wording(c: char) -> bool {
    !is_white_space(c) && c != '`'
}

/// The characters of `s` that cleaning keeps as they are, in order.
pub open spec fn wording(s: Seq<char>) -> Seq<char>
    decreases s.len(),
{
    if s.len() == 0 {
        s
    } else {
        (if is_wording(s[0]) {
            seq![s[0]]
        } else {
            Seq::empty()
        }) + wording(s.drop_first())
    }
}

proof fn lemma_wording_concat(a: Seq<char>, b: Seq<char>)
    ensures
        wording(a + b) == wording(a) + wording(b),
    decreases a.len(),
{
    if a.len() == 0 {
        assert(a + b =~= b);
        assert(wording(a) + wording(b) =~= wording(b));
    } else {
        lemma_wording_concat(a.drop_first(), b);
        assert((a + b).drop_first() =~= a.drop_first() + b);
        assert((a + b)[0] == a[0]);
    }
}

proof fn lemma_wording_unit(c: char)
    ensures
        wording(seq![c]) == if is_wording(c) {
            seq![c]
        } else {
            Seq::<char>::empty()
        },
{
    assert(seq![c].drop_first() =~= Seq::<char>::empty());
    assert(wording(Seq::<char>::empty()) == Seq::<char>::empty());
    assert(seq![c][0] == c);
    if is_wording(c) {
        assert(seq![c] + Seq::<char>::empty() =~= seq![c]);
    } else {
        assert(Seq::<char>::empty() + Seq::<char>::empty() =~= Seq::<char>::empty());
    }
}

/// The wording of `s[i..]` is that of its first character and the rest.
proof fn lemma_wording_step(s: Seq<char>, i: int, k: int)
    requires
        0 <= i <= i + k <= s.len(),
    ensures
        wording(s.skip(i)) == wording(s.subrange(i, i + k)) + wording(s.skip(i + k)),
{
    assert(s.skip(i) =~= s.subrange(i, i + k) + s.skip(i + k));
    lemma_wording_concat(s.subrange(i, i + k), s.skip(i + k));
}

proof fn lemma_collapse_wording(s: Seq<char>, c: char, i: int)
    requires
        0 <= i <= s.len(),
        !is_wording(c),
    ensures
        wording(collapse_from(s, c, i)) == wording(s.skip(i)),
    decreases s.len() - i,
{
    if i == s.len() {
        assert(s.skip(i) =~= Seq::<char>::empty());
    } else {
        lemma_collapse_wording(s, c, i + 1);
        lemma_wording_step(s, i, 1);
        assert(s.subrange(i, i + 1) =~= seq![s[i]]);
        lemma_wording_unit(s[i]);
        if !(s[i] == c && i + 1 < s.len() && s[i + 1] == c) {
            lemma_wording_concat(seq![s[i]], collapse_from(s, c, i + 1));
        }
    }
}

proof fn lemma_sentence_gaps_wording(s: Seq<char>, i: int)
    requires
        0 <= i <= s.len(),
    ensures
        wording(sentence_gaps_from(s, i)) == wording(s.skip(i)),
    decreases s.len() - i,
{
    if i == s.len() {
        assert(s.skip(i) =~= Seq::<char>::empty());
    } else if sentence_gap_at(s, i) {
        lemma_sentence_gaps_wording(s, i + 2);
        lemma_wording_step(s, i, 2);
        let piece = seq![s[i], '.', ' '];
        lemma_wording_concat(piece, sentence_gaps_from(s, i + 2));
        assert(s.subrange(i, i + 2) =~= seq![s[i]] + seq!['.']);
        assert(piece =~= seq![s[i]] + seq!['.'] + seq![' ']);
        lemma_wording_concat(seq![s[i]] + seq!['.'], seq![' ']);
        lemma_wording_concat(seq![s[i]], seq!['.']);
        lemma_wording_unit(s[i]);
        lemma_wording_unit('.');
        lemma_wording_unit(' ');
    } else {
        lemma_sentence_gaps_wording(s, i + 1);
        lemma_wording_step(s, i, 1);
        assert(s.subrange(i, i + 1) =~= seq![s[i]]);
        lemma_wording_concat(seq![s[i]], sentence_gaps_from(s, i + 1));
    }
}

proof fn lemma_tick_gaps_wording(s: Seq<char>, i: int)
    requires
        0 <= i <= s.len(),
    ensures
        wording(tick_gaps_from(s, i)) == wording(s.skip(i)),
    decreases s.len() - i,
{
    if i == s.len() {
        assert(s.skip(i) =~= Seq::<char>::empty());
    } else if tick_gap_at(s, i) {
        lemma_tick_gaps_wording(s, i + 4);
        lemma_wording_step(s, i, 4);
        let piece = seq![s[i], s[i + 1], ' ', '`', s[i + 3]];
        lemma_wording_concat(piece, tick_gaps_from(s, i + 4));
        let a = seq![s[i]] + seq![s[i + 1]];
        assert(s.subrange(i, i + 4) =~= a + seq!['`'] + seq![s[i + 3]]);
        assert(piece =~= a + seq![' '] + seq!['`'] + seq![s[i + 3]]);
        lemma_wording_concat(seq![s[i]], seq![s[i + 1]]);
        lemma_wording_concat(a, seq!['`']);
        lemma_wording_concat(a + seq!['`'], seq![s[i + 3]]);
        lemma_wording_concat(a, seq![' ']);
        lemma_wording_concat(a + seq![' '], seq!['`']);
        lemma_wording_concat(a + seq![' '] + seq!['`'], seq![s[i + 3]]);
        lemma_wording_unit(s[i]);
        lemma_wording_unit(s[i + 1]);
        lemma_wording_unit(' ');
        lemma_wording_unit('`');
        lemma_wording_unit(s[i + 3]);
    } else {
        lemma_tick_gaps_wording(s, i + 1);
        lemma_wording_step(s, i, 1);
        assert(s.subrange(i, i + 1) =~= seq![s[i]]);
        lemma_wording_concat(seq![s[i]], tick_gaps_from(s, i + 1));
    }
}

proof fn lemma_colon_gaps_wording(s: Seq<char>, i: int)
    requires
        0 <= i <= s.len(),
    ensures
        wording(colon_gaps_from(s, i)) == wording(s.skip(i)),
    decreases s.len() - i,
{
    if i == s.len() {
        assert(s.skip(i) =~= Seq::<char>::empty());
    } else if colon_gap_at(s, i) {
        lemma_colon_gaps_wording(s, i + 3);
        lemma_wording_step(s, i, 3);
        let piece = seq![s[i], ':', ' ', '`'];
        lemma_wording_concat(piece, colon_gaps_from(s, i + 3));
        let a = seq![s[i]] + seq![':'];
        assert(s.subrange(i, i + 3) =~= a + seq!['`']);
        assert(piece =~= a + seq![' '] + seq!['`']);
        lemma_wording_concat(seq![s[i]], seq![':']);
        lemma_wording_concat(a, seq!['`']);
        lemma_wording_concat(a, seq![' ']);
        lemma_wording_concat(a + seq![' '], seq!['`']);
        lemma_wording_unit(s[i]);
        lemma_wording_unit(':');
        lemma_wording_unit(' ');
        lemma_wording_unit('`');
    } else {
        lemma_colon_gaps_wording(s, i + 1);
        lemma_wording_step(s, i, 1);
        assert(s.subrange(i, i + 1) =~= seq![s[i]]);
        lemma_wording_concat(seq![s[i]], colon_gaps_from(s, i + 1));
    }
}

proof fn lemma_blank_wording(s: Seq<char>)
    requires
        forall|k: int| 0 <= k < s.len() ==> is_white_space(#[trigger] s[k]),
    ensures
        wording(s) == Seq::<char>::empty(),
    decreases s.len(),
{
    if s.len() > 0 {
        assert(is_white_space(s[0]));
        assert forall|k: int| 0 <= k < s.drop_first().len() implies is_white_space(
            #[trigger] s.drop_first()[k],
        ) by {
            assert(s.drop_first()[k] == s[k + 1]);
        }
        lemma_blank_wording(s.drop_first());
    }
}

proof fn lemma_trim_wording(s: Seq<char>)
    ensures
        wording(trim(s)) == wording(s),
{
    lemma_ws_run_end_bounds(s, 0);
    lemma_ws_back_bounds(s, s.len() as int);
    let a = ws_run_end(s, 0);
    let b = ws_back(s, s.len() as int);
    if a >= b {
        assert(s =~= s.subrange(0, b) + s.subrange(b, s.len() as int));
        lemma_wording_concat(s.subrange(0, b), s.subrange(b, s.len() as int));
        assert forall|k: int| 0 <= k < b implies is_white_space(#[trigger] s.subrange(0, b)[k]) by {
            assert(s.subrange(0, b)[k] == s[k]);
        }
        assert forall|k: int| 0 <= k < s.len() - b implies is_white_space(
            #[trigger] s.subrange(b, s.len() as int)[k],
        ) by {
            assert(s.subrange(b, s.len() as int)[k] == s[b + k]);
        }
        lemma_blank_wording(s.subrange(0, b));
        lemma_blank_wording(s.subrange(b, s.len() as int));
        assert(trim(s) =~= Seq::<char>::empty());
    } else {
        let head = s.subrange(0, a);
        let mid = s.subrange(a, b);
        let tail = s.subrange(b, s.len() as int);
        assert(s =~= head + mid + tail);
        lemma_wording_concat(head, mid);
        lemma_wording_concat(head + mid, tail);
        assert forall|k: int| 0 <= k < head.len() implies is_white_space(#[trigger] head[k]) by {
            assert(head[k] == s[k]);
        }
        assert forall|k: int| 0 <= k < tail.len() implies is_white_space(#[trigger] tail[k]) by {
            assert(tail[k] == s[b + k]);
        }
        lemma_blank_wording(head);
        lemma_blank_wording(tail);
        assert(wording(head) + wording(mid) + wording(tail) =~= wording(mid));
    }
}

/// Cleaning a description changes only its markup and spacing: apart from
/// the HTML tags it removes, every character that is neither white space
/// nor a backtick is kept, in order, so names, enumeration values and
/// wording are never altered.
pub proof fn lemma_cleaned_keeps_wording(s: Seq<char>)
    ensures
        wording(cleaned(s)) == wording(strip_tags(s)),
{
    let a = strip_tags(s);
    let b = collapse(a, '`');
    let c = sentence_gaps_from(b, 0);
    let d = tick_gaps_from(c, 0);
    let e = colon_gaps_from(d, 0);
    let f = collapse(e, ' ');
    assert(a.skip(0) =~= a);
    assert(b.skip(0) =~= b);
    assert(c.skip(0) =~= c);
    assert(d.skip(0) =~= d);
    assert(e.skip(0) =~= e);
    assert(!is_wording('`'));
    assert(is_white_space(' '));
    lemma_collapse_wording(a, '`', 0);
    lemma_sentence_gaps_wording(b, 0);
    lemma_tick_gaps_wording(c, 0);
    lemma_colon_gaps_wording(d, 0);
    lemma_collapse_wording(e, ' ', 0);
    lemma_trim_wording(f);
}

proof fn lemma_sentence_gaps_first(s: Seq<char>, j: int)
    requires
        0 <= j < s.len(),
    ensures
        sentence_gaps_from(s, j).len() > 0,
        sentence_gaps_from(s, j)[0] == s[j],
{
}

/// Once the gaps are put in, no sentence-ending dot is left that a capital
/// letter or `{` follows directly.
pub proof fn lemma_sentence_gaps_complete(s: Seq<char>, i: int)
    requires
        0 <= i,
    ensures
        forall|k: int| !sentence_gap_at(sentence_gaps_from(s, i), k),
    decreases s.len() - i,
{
    if i < s.len() {
        let r = sentence_gaps_from(s, i);
        if sentence_gap_at(s, i) {
            lemma_sentence_gaps_complete(s, i + 2);
            let rest = sentence_gaps_from(s, i + 2);
            let piece = seq![s[i], '.', ' '];
            assert(r == piece + rest);
            assert forall|k: int| !sentence_gap_at(r, k) by {
                if 0 <= k && k + 3 <= r.len() {
                    if k >= 3 {
                        assert(r[k] == rest[k - 3] && r[k + 1] == rest[k - 2] && r[k + 2] == rest[k - 1]);
                        assert(!sentence_gap_at(rest, k - 3));
                    } else if k == 0 {
                        assert(r[2] == ' ');
                    } else if k == 1 {
                        assert(r[1] == '.');
                    } else {
                        assert(r[2] == ' ');
                    }
                }
            }
        } else {
            lemma_sentence_gaps_complete(s, i + 1);
            let rest = sentence_gaps_from(s, i + 1);
            assert(r == seq![s[i]] + rest);
            assert forall|k: int| !sentence_gap_at(r, k) by {
                if 0 <= k && k + 3 <= r.len() {
                    if k >= 1 {
                        assert(r[k] == rest[k - 1] && r[k + 1] == rest[k] && r[k + 2] == rest[k + 1]);
                        assert(!sentence_gap_at(rest, k - 1));
                    } else {
                        lemma_sentence_gaps_first(s, i + 1);
                        if rest[0] == '.' {
                            assert(!sentence_gap_at(s, i + 1));
                            assert(rest == seq![s[i + 1]] + sentence_gaps_from(s, i + 2));
                            lemma_sentence_gaps_first(s, i + 2);
                            assert(r[0] == s[i] && r[1] == s[i + 1] && r[2] == s[i + 2]);
                        }
                    }
                }
            }
        }
    }
}

/// When no two types are written to the same path, the document at each
/// type's path is that type's schema, with the versions recorded for it.
pub proof fn lemma_documents_at(
    es: Seq<TypeEntryModel>,
    vm: Map<Seq<char>, Seq<Seq<char>>>,
    canon: Map<Seq<char>, Seq<char>>,
    i: int,
)
    requires
        0 <= i < es.len(),
        forall|a: int, b: int|
            0 <= a < b < es.len() ==> schema_path(#[trigger] es[a]) != schema_path(#[trigger] es[b]),
    ensures
        documents(es, vm, canon).contains_key(schema_path(es[i])),
        documents(es, vm, canon)[schema_path(es[i])] == type_schema_of(
            es[i],
            versions_of(vm, es[i]),
            canon,
        ),
    decreases es.len(),
{
    let last = es.len() - 1;
    if i < last {
        let t = es.drop_last();
        assert forall|a: int, b: int| 0 <= a < b < t.len() implies schema_path(#[trigger] t[a])
            != schema_path(#[trigger] t[b]) by {
            assert(t[a] == es[a] && t[b] == es[b]);
        }
        assert(t[i] == es[i]);
        lemma_documents_at(t, vm, canon, i);
        assert(schema_path(es[i]) != schema_path(es[last]));
    }
}

proof fn lemma_field_value_first(fs: Seq<(Seq<char>, Json)>, k: Seq<char>, j: int)
    requires
        0 <= j < fs.len(),
        fs[j].0 == k,
        forall|i: int| 0 <= i < j ==> #[trigger] fs[i].0 != k,
    ensures
        field_value(fs, k) == Some(fs[j].1),
    decreases j,
{
    if j > 0 {
        let t = fs.drop_first();
        assert(fs[0].0 != k);
        assert forall|i: int| 0 <= i < j - 1 implies #[trigger] t[i].0 != k by {
            assert(t[i] == fs[i + 1]);
        }
        lemma_field_value_first(t, k, j - 1);
    }
}

/// The value a lookup finds: the first member with the key.
proof fn lemma_field_value_found(fs: Seq<(Seq<char>, Json)>, k: Seq<char>)
    ensures
        field_value(fs, k) is Some ==> exists|j: int|
            0 <= j < fs.len() && #[trigger] fs[j].0 == k && field_value(fs, k) == Some(fs[j].1)
                && forall|i: int| 0 <= i < j ==> #[trigger] fs[i].0 != k,
        field_value(fs, k) is None ==> forall|i: int| 0 <= i < fs.len() ==> #[trigger] fs[i].0 != k,
    decreases fs.len(),
{
    if fs.len() > 0 {
        let t = fs.drop_first();
        lemma_field_value_found(t, k);
        if fs[0].0 == k {
            assert(fs[0].0 == k);
        } else {
            if field_value(fs, k) is Some {
                let j = choose|j: int|
                    0 <= j < t.len() && #[trigger] t[j].0 == k && field_value(t, k) == Some(t[j].1)
                        && forall|i: int| 0 <= i < j ==> #[trigger] t[i].0 != k;
                assert(fs[j + 1] == t[j]);
                assert forall|i: int| 0 <= i < j + 1 implies #[trigger] fs[i].0 != k by {
                    if i > 0 {
                        assert(fs[i] == t[i - 1]);
                    }
                }
            } else {
                assert forall|i: int| 0 <= i < fs.len() implies #[trigger] fs[i].0 != k by {
                    if i > 0 {
                        assert(fs[i] == t[i - 1]);
                    }
                }
            }
        }
    }
}

/// Setting a member gives it the new value, and leaves the value of every
/// other member as it was, whatever order the members are in.
pub proof fn lemma_with_field_values(fs: Seq<(Seq<char>, Json)>, k: Seq<char>, v: Json)
    ensures
        field_value(with_field(fs, k, v), k) == Some(v),
        forall|k2: Seq<char>| k2 != k ==> #[trigger] field_value(with_field(fs, k, v), k2) == field_value(fs, k2),
{
    lemma_key_slot(fs, k, 0);
    let p = key_slot(fs, k, 0);
    let r = with_field(fs, k, v);
    assert forall|i: int| 0 <= i < p implies #[trigger] fs[i].0 != k by {
        assert(seq_less(fs[i].0, k));
        lemma_less_irreflexive(k);
    }
    let upd = p < fs.len() && fs[p].0 == k;
    if upd {
        assert(r == fs.update(p, (k, v)));
    } else {
        assert(r == fs.insert(p, (k, v)));
    }
    assert(r[p] == (k, v));
    assert forall|i: int| 0 <= i < p implies #[trigger] r[i].0 != k by {
        assert(r[i] == fs[i]);
    }
    lemma_field_value_first(r, k, p);
    assert forall|k2: Seq<char>| k2 != k implies #[trigger] field_value(r, k2) == field_value(fs, k2) by {
        lemma_field_value_found(fs, k2);
        if field_value(fs, k2) is Some {
            let j = choose|j: int|
                0 <= j < fs.len() && #[trigger] fs[j].0 == k2 && field_value(fs, k2) == Some(fs[j].1)
                    && forall|i: int| 0 <= i < j ==> #[trigger] fs[i].0 != k2;
            if upd || j < p {
                assert(j != p || !upd);
                assert(r[j] == fs[j]);
                assert forall|i: int| 0 <= i < j implies #[trigger] r[i].0 != k2 by {
                    if upd {
                        if i != p {
                            assert(r[i] == fs[i]);
                        }
                    } else {
                        assert(r[i] == fs[i]);
                    }
                }
                lemma_field_value_first(r, k2, j);
            } else {
                assert(r[j + 1] == fs[j]);
                assert forall|i: int| 0 <= i < j + 1 implies #[trigger] r[i].0 != k2 by {
                    if i < p {
                        assert(r[i] == fs[i]);
                    } else if i > p {
                        assert(r[i] == fs[i - 1]);
                    }
                }
                lemma_field_value_first(r, k2, j + 1);
            }
        } else {
            assert forall|i: int| 0 <= i < r.len() implies #[trigger] r[i].0 != k2 by {
                if upd {
                    if i != p {
                        assert(r[i] == fs[i]);
                    }
                } else if i < p {
                    assert(r[i] == fs[i]);
                } else if i > p {
                    assert(r[i] == fs[i - 1]);
                }
            }
            lemma_field_value_absent(r, k2);
        }
    }
}

/// The schema of a property marked deprecated has `"deprecated": true`;
/// that of any other property has no `deprecated` member.
pub proof fn lemma_property_deprecated(p: PropertyModel, own: Seq<char>, canon: Map<Seq<char>, Seq<char>>)
    ensures
        field_value(property_schema(p, own, canon), "deprecated"@) == if p.deprecated {
            Some(Json::Bool(true))
        } else {
            None
        },
{
    reveal_strlit("deprecated");
    reveal_strlit("description");
    reveal_strlit("enum");
    reveal_strlit("items");
    reveal_strlit("type");
    reveal_strlit("maxItems");
    reveal_strlit("minItems");
    reveal_strlit("$ref");
    let d = desc_schema(p.type_desc, own, canon);
    lemma_desc_lacks(p.type_desc, own, canon);
    let a = match p.enum_values {
        Some(vs) => enum_schema(p.type_desc, own, canon, vs),
        None => d,
    };
    match p.enum_values {
        Some(vs) => {
            let ev = Json::Array(str_items(vs));
            if is_array_type(p.type_desc) {
                lemma_with_field_values(
                    d,
                    "items"@,
                    Json::Object(with_field(item_schema(p.type_desc, own, canon), "enum"@, ev)),
                );
            } else {
                lemma_with_field_values(d, "enum"@, ev);
            }
        },
        None => {},
    }
    assert(field_value(a, "deprecated"@) is None);
    let b = if p.description.len() > 0 {
        with_field(a, "description"@, Json::Str(cleaned(p.description)))
    } else {
        a
    };
    lemma_with_field_values(a, "description"@, Json::Str(cleaned(p.description)));
    assert(field_value(b, "deprecated"@) is None);
    lemma_with_field_values(b, "deprecated"@, Json::Bool(true));
}

/// The schema of a property carries the property's cleaned description
/// when it has one and no description otherwise; the values of an
/// enumeration constrain the property itself, unless it is an array, whose
/// elements they constrain.
pub proof fn lemma_property_members(p: PropertyModel, own: Seq<char>, canon: Map<Seq<char>, Seq<char>>)
    ensures
        field_value(property_schema(p, own, canon), "description"@) == if p.description.len() > 0 {
            Some(Json::Str(cleaned(p.description)))
        } else {
            None
        },
        p.enum_values is Some && !is_array_type(p.type_desc) ==> field_value(
            property_schema(p, own, canon),
            "enum"@,
        ) == Some(Json::Array(str_items(p.enum_values->0))),
        p.enum_values is Some && is_array_type(p.type_desc) ==> field_value(
            property_schema(p, own, canon),
            "items"@,
        ) == Some(
            Json::Object(
                with_field(
                    item_schema(p.type_desc, own, canon),
                    "enum"@,
                    Json::Array(str_items(p.enum_values->0)),
                ),
            ),
        ),
        p.enum_values is None ==> field_value(property_schema(p, own, canon), "enum"@) is None,
{
    reveal_strlit("deprecated");
    reveal_strlit("description");
    reveal_strlit("enum");
    reveal_strlit("items");
    reveal_strlit("type");
    reveal_strlit("maxItems");
    reveal_strlit("minItems");
    reveal_strlit("$ref");
    let d = desc_schema(p.type_desc, own, canon);
    lemma_desc_lacks(p.type_desc, own, canon);
    let a = match p.enum_values {
        Some(vs) => enum_schema(p.type_desc, own, canon, vs),
        None => d,
    };
    match p.enum_values {
        Some(vs) => {
            let ev = Json::Array(str_items(vs));
            if is_array_type(p.type_desc) {
                lemma_with_field_values(
                    d,
                    "items"@,
                    Json::Object(with_field(item_schema(p.type_desc, own, canon), "enum"@, ev)),
                );
            } else {
                lemma_with_field_values(d, "enum"@, ev);
            }
        },
        None => {},
    }
    assert(field_value(a, "description"@) is None);
    let b = if p.description.len() > 0 {
        with_field(a, "description"@, Json::Str(cleaned(p.description)))
    } else {
        a
    };
    lemma_with_field_values(a, "description"@, Json::Str(cleaned(p.description)));
    lemma_with_field_values(b, "deprecated"@, Json::Bool(true));
}

/// The optional members of a type's schema: its cleaned description when
/// it has one, the names of its required properties when there are any,
/// `"deprecated": true` when it is deprecated, and the versions it appears
/// in when there are any; none of them otherwise.
pub proof fn lemma_type_schema_optional(
    e: TypeEntryModel,
    versions: Seq<Seq<char>>,
    canon: Map<Seq<char>, Seq<char>>,
)
    ensures
        field_value(type_schema_of(e, versions, canon)->Object_0, "description"@) == if e.description.len()
            > 0 {
            Some(Json::Str(cleaned(e.description)))
        } else {
            None
        },
        field_value(type_schema_of(e, versions, canon)->Object_0, "required"@) == if properties_part(
            e.properties,
            e.profile,
            canon,
        ).1.len() > 0 {
            Some(Json::Array(str_items(properties_part(e.properties, e.profile, canon).1)))
        } else {
            None
        },
        field_value(type_schema_of(e, versions, canon)->Object_0, "additionalProperties"@)
            == properties_part(e.properties, e.profile, canon).2,
        field_value(type_schema_of(e, versions, canon)->Object_0, "deprecated"@) == if e.deprecated {
            Some(Json::Bool(true))
        } else {
            None
        },
        field_value(type_schema_of(e, versions, canon)->Object_0, "x-i3s-versions"@) == if versions.len()
            > 0 {
            Some(Json::Array(str_items(versions)))
        } else {
            None
        },
{
    reveal_strlit("$schema");
    reveal_strlit("title");
    reveal_strlit("description");
    reveal_strlit("type");
    reveal_strlit("properties");
    reveal_strlit("required");
    reveal_strlit("additionalProperties");
    reveal_strlit("deprecated");
    reveal_strlit("x-i3s-versions");
    let (props, req, extra) = properties_part(e.properties, e.profile, canon);
    let r0 = Seq::<(Seq<char>, Json)>::empty();
    lemma_field_value_absent(r0, "description"@);
    lemma_field_value_absent(r0, "required"@);
    lemma_field_value_absent(r0, "additionalProperties"@);
    lemma_field_value_absent(r0, "deprecated"@);
    lemma_field_value_absent(r0, "x-i3s-versions"@);
    let a = with_field(r0, "$schema"@, Json::Str(draft_07()));
    lemma_with_field_values(r0, "$schema"@, Json::Str(draft_07()));
    let r1 = with_field(a, "title"@, Json::Str(e.name));
    lemma_with_field_values(a, "title"@, Json::Str(e.name));
    let r2 = if e.description.len() > 0 {
        with_field(r1, "description"@, Json::Str(cleaned(e.description)))
    } else {
        r1
    };
    lemma_with_field_values(r1, "description"@, Json::Str(cleaned(e.description)));
    let b = with_field(r2, "type"@, Json::Str("object"@));
    lemma_with_field_values(r2, "type"@, Json::Str("object"@));
    let r3 = with_field(b, "properties"@, Json::Object(props));
    lemma_with_field_values(b, "properties"@, Json::Object(props));
    let r4 = if req.len() > 0 {
        with_field(r3, "required"@, Json::Array(str_items(req)))
    } else {
        r3
    };
    lemma_with_field_values(r3, "required"@, Json::Array(str_items(req)));
    let r5 = match extra {
        Some(x) => with_field(r4, "additionalProperties"@, x),
        None => r4,
    };
    if let Some(x) = extra {
        lemma_with_field_values(r4, "additionalProperties"@, x);
    }
    let r6 = if e.deprecated {
        with_field(r5, "deprecated"@, Json::Bool(true))
    } else {
        r5
    };
    lemma_with_field_values(r5, "deprecated"@, Json::Bool(true));
    lemma_with_field_values(r6, "x-i3s-versions"@, Json::Array(str_items(versions)));
}

/// The member names of a property type's schema.
proof fn lemma_desc_keys(t: TypeModel, own: Seq<char>, canon: Map<Seq<char>, Seq<char>>)
    ensures
        forall|i: int|
            0 <= i < desc_schema(t, own, canon).len() ==> {
                let k = (#[trigger] desc_schema(t, own, canon)[i]).0;
                k == "type"@ || k == "items"@ || k == "maxItems"@ || k == "minItems"@ || k == "$ref"@
            },
{
}

/// No member of a property type's schema is named `deprecated`,
/// `description` or `enum`.
proof fn lemma_desc_lacks(t: TypeModel, own: Seq<char>, canon: Map<Seq<char>, Seq<char>>)
    ensures
        field_value(desc_schema(t, own, canon), "deprecated"@) is None,
        field_value(desc_schema(t, own, canon), "description"@) is None,
        field_value(desc_schema(t, own, canon), "enum"@) is None,
{
    reveal_strlit("deprecated");
    reveal_strlit("description");
    reveal_strlit("enum");
    reveal_strlit("items");
    reveal_strlit("type");
    reveal_strlit("maxItems");
    reveal_strlit("minItems");
    reveal_strlit("$ref");
    let d = desc_schema(t, own, canon);
    lemma_desc_keys(t, own, canon);
    assert("type"@.len() == 4 && "enum"@.len() == 4 && "items"@.len() == 5);
    assert("deprecated"@.len() == 10 && "description"@.len() == 11);
    assert("type"@[0] != "enum"@[0]);
    assert("type"@ != "deprecated"@ && "type"@ != "description"@ && "type"@ != "enum"@);
    assert("items"@ != "deprecated"@ && "items"@ != "description"@ && "items"@ != "enum"@);
    assert("maxItems"@ != "deprecated"@ && "maxItems"@ != "description"@ && "maxItems"@ != "enum"@);
    assert("minItems"@ != "deprecated"@ && "minItems"@ != "description"@ && "minItems"@ != "enum"@);
    assert("$ref"@ != "deprecated"@ && "$ref"@ != "description"@ && "$ref"@ != "enum"@);
    assert forall|i: int| 0 <= i < d.len() implies #[trigger] d[i].0 != "deprecated"@ && d[i].0
        != "description"@ && d[i].0 != "enum"@ by {
        let k = d[i].0;
        assert(k == "type"@ || k == "items"@ || k == "maxItems"@ || k == "minItems"@ || k == "$ref"@);
    }
    lemma_field_value_absent(d, "deprecated"@);
    lemma_field_value_absent(d, "description"@);
    lemma_field_value_absent(d, "enum"@);
}

} // verus!

//! Reads the i3s-spec markdown type definitions into an intermediate
//! representation, from which draft-07 JSON Schemas are emitted.
//!
//! The reader is policy-free: it extracts what the markdown says (heading,
//! properties, types, examples) and assigns no Rust names.

use vstd::prelude::*;
use crate::markdown::{
    deprecated_text, description_of, enum_values_of, example_spans, example_spans_from,
    deprecated_chars, li_values_exec, description_chars, type_name_chars, property_rows,
    row_cells, row_cells_exec, strip_tags, strip_tags_exec, table_rows_exec, type_name_of,
};
use crate::text::{
    ascii_lower, ascii_lower_chars, char_views, chars_eq, chars_of, find_char, is_ascii_digit,
    match_at, match_at_exec, ci_match_at, ci_match_at_exec,
    chars_ends_with, copy_chars, ends_with, next_index_of, slice_chars, split, split_chars,
    string_of, texts, trim, trim_chars, trim_each, trim_each_exec, starts_with, chars_starts_with,
    debug_text, lowercase, to_lowercase, push_str, push_debug, push_message, py_strip,
    py_strip_chars, all_ascii, ascii_lower_char, ci_char, lower_letters, is_white_space,
    lemma_next_index_bounds, lemma_ws_back_bounds, lemma_ws_run_end_bounds, ws_back, ws_run_end,
};

verus! {

/// The type of a property, as the properties table states it.
pub enum TypeDesc {
    Reference { name: String, base_name: String, profile: String },
    Array { element: Box<TypeDesc> },
    FixedArray { element_type: String, size: u32 },
    /// One of `string`, `integer`, `number`, `boolean`.
    Primitive { name: String },
    /// Comma-separated primitive union, e.g. "string, number".
    Union { types: Vec<String> },
    /// Empty or unrecognized type cell: unconstrained (any JSON value).
    Unknown,
}

/// The content of a [`TypeDesc`].
pub enum TypeModel {
    Reference { name: Seq<char>, base_name: Seq<char>, profile: Seq<char> },
    Array { element: Box<TypeModel> },
    FixedArray { element_type: Seq<char>, size: u32 },
    Primitive { name: Seq<char> },
    Union { types: Seq<Seq<char>> },
    Unknown,
}

impl TypeDesc {
    pub open spec fn model(self) -> TypeModel
        decreases self,
    {
        match self {
            TypeDesc::Reference { name, base_name, profile } => TypeModel::Reference {
                name: name@,
                base_name: base_name@,
                profile: profile@,
            },
            TypeDesc::Array { element } => TypeModel::Array { element: Box::new((*element).model()) },
            TypeDesc::FixedArray { element_type, size } => TypeModel::FixedArray {
                element_type: element_type@,
                size,
            },
            TypeDesc::Primitive { name } => TypeModel::Primitive { name: name@ },
            TypeDesc::Union { types } => TypeModel::Union { types: texts(types@) },
            TypeDesc::Unknown => TypeModel::Unknown,
        }
    }
}

impl View for TypeDesc {
    type V = TypeModel;

    open spec fn view(&self) -> TypeModel {
        self.model()
    }
}

pub struct Property {
    pub name: String,
    pub type_desc: TypeDesc,
    pub required: bool,
    pub description: String,
    pub enum_values: Option<Vec<String>>,
    pub deprecated: bool,
}

pub struct PropertyModel {
    pub name: Seq<char>,
    pub type_desc: TypeModel,
    pub required: bool,
    pub description: Seq<char>,
    pub enum_values: Option<Seq<Seq<char>>>,
    pub deprecated: bool,
}

impl View for Property {
    type V = PropertyModel;

    open spec fn view(&self) -> PropertyModel {
        PropertyModel {
            name: self.name@,
            type_desc: self.type_desc@,
            required: self.required,
            description: self.description@,
            enum_values: match self.enum_values {
                Some(v) => Some(texts(v@)),
                None => None,
            },
            deprecated: self.deprecated,
        }
    }
}

pub struct Example {
    pub name: String,
    pub json: String,
}

pub struct ExampleModel {
    pub name: Seq<char>,
    pub json: Seq<char>,
}

impl View for Example {
    type V = ExampleModel;

    open spec fn view(&self) -> ExampleModel {
        ExampleModel { name: self.name@, json: self.json@ }
    }
}

pub struct TypeEntry {
    /// The type heading from the markdown, verbatim (e.g. `3DSceneLayer`).
    pub name: String,
    /// The lower-cased file name stem, without the `.<profile>.md` suffix.
    pub base_name: String,
    pub profile: String,
    pub module: String,
    pub description: String,
    pub properties: Vec<Property>,
    pub examples: Vec<Example>,
    pub source_file: String,
    pub deprecated: bool,
}

pub struct TypeEntryModel {
    pub name: Seq<char>,
    pub base_name: Seq<char>,
    pub profile: Seq<char>,
    pub module: Seq<char>,
    pub description: Seq<char>,
    pub properties: Seq<PropertyModel>,
    pub examples: Seq<ExampleModel>,
    pub source_file: Seq<char>,
    pub deprecated: bool,
}

impl View for TypeEntry {
    type V = TypeEntryModel;

    open spec fn view(&self) -> TypeEntryModel {
        TypeEntryModel {
            name: self.name@,
            base_name: self.base_name@,
            profile: self.profile@,
            module: self.module@,
            description: self.description@,
            properties: property_views(self.properties@),
            examples: example_views(self.examples@),
            source_file: self.source_file@,
            deprecated: self.deprecated,
        }
    }
}

/// The contents of a sequence of properties.
pub open spec fn property_views(v: Seq<Property>) -> Seq<PropertyModel> {
    v.map_values(|p: Property| p@)
}

/// The contents of a sequence of examples.
pub open spec fn example_views(v: Seq<Example>) -> Seq<ExampleModel> {
    v.map_values(|e: Example| e@)
}

pub struct ModuleData {
    pub types: Vec<TypeEntry>,
}

/// The parsed spec: the version label and the types of each module,
/// sorted by module name.
pub struct Ir {
    pub version: String,
    pub modules: Vec<(String, ModuleData)>,
}

/// Whether `s` ends with `p`, case-insensitively (`p` in lower case).
pub open spec fn ci_ends_with(s: Seq<char>, p: Seq<char>) -> bool {
    p.len() <= s.len() && ci_match_at(s, s.len() - p.len(), p)
}

fn ci_ends_with_exec(s: &Vec<char>, p: &str) -> (r: bool)
    ensures
        r == ci_ends_with(s@, p@),
{
    let n = chars_of(p).len();
    if n > s.len() {
        false
    } else {
        ci_match_at_exec(s, s.len() - n, p)
    }
}

/// Spec files to leave out: the per-profile read-me files and the time
/// format description.
pub open spec fn skipped(filename: Seq<char>) -> bool {
    ci_ends_with(filename, "_readme.md"@) || ends_with(filename, "ECMA_ISO8601.md"@)
}

/// Whether the file is left out of the spec (`(?i)_ReadMe\.md$` or
/// `ECMA_ISO8601\.md$`).
pub fn should_skip(filename: &str) -> (r: bool)
    ensures
        r == skipped(filename@),
{
    let f = chars_of(filename);
    ci_ends_with_exec(&f, "_readme.md") || chars_ends_with(&f, "ECMA_ISO8601.md")
}

/// The length of the profile named by the suffix `.<profile>.md` of a file
/// name (`(?i)\.(cmn|bld|psl|pcsl)\.md$`), or 0 when it has none.
pub open spec fn profile_len(f: Seq<char>) -> int {
    if ci_ends_with(f, ".cmn.md"@) || ci_ends_with(f, ".bld.md"@) || ci_ends_with(f, ".psl.md"@) {
        3
    } else if ci_ends_with(f, ".pcsl.md"@) {
        4
    } else {
        0
    }
}

fn profile_len_exec(f: &Vec<char>) -> (r: usize)
    ensures
        r == profile_len(f@),
{
    if ci_ends_with_exec(f, ".cmn.md") || ci_ends_with_exec(f, ".bld.md") || ci_ends_with_exec(
        f,
        ".psl.md",
    ) {
        3
    } else if ci_ends_with_exec(f, ".pcsl.md") {
        4
    } else {
        0
    }
}

/// The profile of a spec file name, lower-cased in ASCII.
pub open spec fn profile_of(f: Seq<char>) -> Option<Seq<char>> {
    let n = profile_len(f);
    if n == 0 {
        None
    } else {
        Some(ascii_lower(f.subrange(f.len() - 3 - n, f.len() - 3)))
    }
}

/// The profile that a spec file name ends in (`cmn`, `bld`, `psl` or
/// `pcsl`, matched case-insensitively), lower-cased.
pub fn parse_profile(filename: &str) -> (r: Option<String>)
    ensures
        match profile_of(filename@) {
            Some(p) => r matches Some(s) && s@ == p,
            None => r is None,
        },
{
    let f = chars_of(filename);
    let n = profile_len_exec(&f);
    if n == 0 {
        None
    } else {
        proof {
            reveal_strlit(".cmn.md");
            reveal_strlit(".bld.md");
            reveal_strlit(".psl.md");
            reveal_strlit(".pcsl.md");
        }
        let p = slice_chars(&f, f.len() - 3 - n, f.len() - 3);
        Some(string_of(&ascii_lower_chars(&p)))
    }
}

/// The path components that name something: the non-empty pieces other
/// than `.`.
pub open spec fn named_parts(segs: Seq<Seq<char>>) -> Seq<Seq<char>>
    decreases segs.len(),
{
    if segs.len() == 0 {
        segs
    } else if segs.last().len() > 0 && segs.last() != seq!['.'] {
        named_parts(segs.drop_last()).push(segs.last())
    } else {
        named_parts(segs.drop_last())
    }
}

/// `Path::file_name` of a `/`-separated path: its last component, unless
/// that is `..` or there is none.
pub open spec fn file_name(path: Seq<char>) -> Option<Seq<char>> {
    let parts = named_parts(split(path, '/'));
    if parts.len() == 0 || parts.last() == seq!['.', '.'] {
        None
    } else {
        Some(parts.last())
    }
}

fn file_name_exec(path: &Vec<char>) -> (r: Option<Vec<char>>)
    ensures
        match file_name(path@) {
            Some(n) => r matches Some(v) && v@ == n,
            None => r is None,
        },
{
    let pieces = split_chars(path, '/');
    let ghost all = char_views(pieces@);
    let mut last: Option<usize> = None;
    let mut i: usize = 0;
    while i < pieces.len()
        invariant
            i <= pieces@.len() == all.len(),
            all == char_views(pieces@),
            match last {
                Some(k) => k < i && named_parts(all.take(i as int)).len() > 0 && named_parts(
                    all.take(i as int),
                ).last() == all[k as int],
                None => named_parts(all.take(i as int)).len() == 0,
            },
        decreases pieces@.len() - i,
    {
        assert(all.take(i + 1).drop_last() =~= all.take(i as int));
        let p = &pieces[i];
        let is_dot = p.len() == 1 && p[0] == '.';
        assert(is_dot == (all[i as int] == seq!['.'])) by {
            if all[i as int] == seq!['.'] {
                assert(p@.len() == 1 && p@[0] == '.');
            }
            if is_dot {
                assert(p@ =~= seq!['.']);
            }
        }
        if p.len() > 0 && !is_dot {
            last = Some(i);
        }
        i = i + 1;
    }
    assert(all.take(i as int) =~= all);
    match last {
        Some(k) => {
            let p = &pieces[k];
            if p.len() == 2 && p[0] == '.' && p[1] == '.' {
                assert(p@ =~= seq!['.', '.']);
                None
            } else {
                assert(p@ != seq!['.', '.']) by {
                    if p@ == seq!['.', '.'] {
                        assert(p@.len() == 2 && p@[0] == '.' && p@[1] == '.');
                    }
                }
                Some(copy_chars(p))
            }
        },
        None => None,
    }
}

/// The base name of a spec file: its name without the `.<profile>.md`
/// suffix, trimmed and lower-cased.
pub open spec fn base_name_of(path: Seq<char>) -> Seq<char> {
    let name = match file_name(path) {
        Some(n) => n,
        None => Seq::empty(),
    };
    let n = profile_len(name);
    lowercase(
        trim(
            if n > 0 {
                name.subrange(0, name.len() - n - 4)
            } else {
                name
            },
        ),
    )
}

/// The base name of the spec file at `path`: its file name without the
/// `.<profile>.md` suffix, trimmed and lower-cased (`str::to_lowercase`).
pub fn parse_base_name(path: &str) -> (r: String)
    ensures
        r@ == base_name_of(path@),
{
    let name = match file_name_exec(&chars_of(path)) {
        Some(n) => n,
        None => Vec::new(),
    };
    let n = profile_len_exec(&name);
    proof {
        reveal_strlit(".cmn.md");
        reveal_strlit(".bld.md");
        reveal_strlit(".psl.md");
        reveal_strlit(".pcsl.md");
    }
    let stem = if n > 0 {
        slice_chars(&name, 0, name.len() - n - 4)
    } else {
        name
    };
    to_lowercase(string_of(&trim_chars(&stem)).as_str())
}


/// The primitive type names.
pub open spec fn is_primitive(w: Seq<char>) -> bool {
    w == "string"@ || w == "integer"@ || w == "number"@ || w == "boolean"@
}

fn is_primitive_exec(w: &Vec<char>) -> (r: bool)
    ensures
        r == is_primitive(w@),
{
    chars_eq(w, &chars_of("string")) || chars_eq(w, &chars_of("integer")) || chars_eq(
        w,
        &chars_of("number"),
    ) || chars_eq(w, &chars_of("boolean"))
}

/// The positions of the `]` and the `)` of a markdown link `[name](file)`
/// that starts `t` (`^\[([^\]]+)\]\(([^)]+)\)`).
pub open spec fn link_ends(t: Seq<char>) -> Option<(int, int)> {
    if t.len() >= 1 && t[0] == '[' {
        let j = next_index_of(t, ']', 1);
        if 2 <= j && j + 1 < t.len() && t[j + 1] == '(' {
            let k = next_index_of(t, ')', j + 2);
            if j + 3 <= k < t.len() {
                Some((j, k))
            } else {
                None
            }
        } else {
            None
        }
    } else {
        None
    }
}

fn link_ends_exec(t: &Vec<char>) -> (r: Option<(usize, usize)>)
    ensures
        match link_ends(t@) {
            Some((j, k)) => r == Some((j as usize, k as usize)),
            None => r is None,
        },
        r matches Some((j, k)) ==> 2 <= j && j + 3 <= k < t@.len(),
{
    if t.len() >= 1 && t[0] == '[' {
        let j = find_char(t, ']', 1);
        if 2 <= j && j < t.len() - 1 && t[j + 1] == '(' {
            let k = find_char(t, ')', j + 2);
            if j + 2 < k && k < t.len() {
                return Some((j, k));
            }
        }
    }
    None
}

/// Whether `t[from..]` is `[`, then characters other than a line feed,
/// then a final `]` (`\[(.*?)\]$`).
pub open spec fn bracket_tail(t: Seq<char>, from: int) -> bool {
    &&& 0 <= from
    &&& from + 2 <= t.len()
    &&& t[from] == '['
    &&& t.last() == ']'
    &&& next_index_of(t, '\n', from + 1) >= t.len() - 1
}

fn bracket_tail_exec(t: &Vec<char>, from: usize) -> (r: bool)
    ensures
        r == bracket_tail(t@, from as int),
{
    if from < t.len() && t.len() - from >= 2 && t[from] == '[' && t[t.len() - 1] == ']' {
        find_char(t, '\n', from + 1) >= t.len() - 1
    } else {
        false
    }
}

/// The reference named by the link `[t[1..j]](t[j+2..k])`.
pub open spec fn reference_model(t: Seq<char>, j: int, k: int) -> TypeModel {
    let file = t.subrange(j + 2, k);
    TypeModel::Reference {
        name: t.subrange(1, j),
        base_name: base_name_of(file),
        profile: match profile_of(file) {
            Some(p) => p,
            None => "cmn"@,
        },
    }
}

fn reference_exec(t: &Vec<char>, j: usize, k: usize) -> (r: TypeDesc)
    requires
        2 <= j,
        j + 3 <= k <= t@.len(),
    ensures
        r@ == reference_model(t@, j as int, k as int),
{
    let name = string_of(&slice_chars(t, 1, j));
    let file = string_of(&slice_chars(t, j + 2, k));
    let profile = match parse_profile(file.as_str()) {
        Some(p) => p,
        None => string_of(&chars_of("cmn")),
    };
    let base_name = parse_base_name(file.as_str());
    TypeDesc::Reference { name, base_name, profile }
}

/// The primitive name that starts `t` when a `[` follows it.
pub open spec fn card_word(t: Seq<char>) -> Option<Seq<char>> {
    if match_at(t, 0, "string["@) {
        Some("string"@)
    } else if match_at(t, 0, "integer["@) {
        Some("integer"@)
    } else if match_at(t, 0, "number["@) {
        Some("number"@)
    } else if match_at(t, 0, "boolean["@) {
        Some("boolean"@)
    } else {
        None
    }
}

/// The number written by the decimal digits `s`.
pub open spec fn digits_value(s: Seq<char>) -> nat
    decreases s.len(),
{
    if s.len() == 0 {
        0
    } else {
        digits_value(s.drop_last()) * 10 + ((s.last() as u32) - 48) as nat
    }
}

/// `s.parse::<u32>().unwrap_or(0)` for a string of ASCII digits.
pub open spec fn card_size(s: Seq<char>) -> u32 {
    if digits_value(s) <= u32::MAX {
        digits_value(s) as u32
    } else {
        0
    }
}

fn card_size_exec(s: &Vec<char>) -> (r: u32)
    requires
        forall|i: int| 0 <= i < s@.len() ==> is_ascii_digit(#[trigger] s@[i]),
    ensures
        r == card_size(s@),
{
    let mut acc: u64 = 0;
    let mut big = false;
    let mut i: usize = 0;
    while i < s.len()
        invariant
            i <= s@.len(),
            forall|k: int| 0 <= k < s@.len() ==> is_ascii_digit(#[trigger] s@[k]),
            !big ==> acc == digits_value(s@.take(i as int)) && acc <= u32::MAX,
            big ==> digits_value(s@.take(i as int)) > u32::MAX,
        decreases s@.len() - i,
    {
        assert(s@.take(i + 1).drop_last() =~= s@.take(i as int));
        let d = (s[i] as u32 - 48) as u64;
        if !big {
            acc = acc * 10 + d;
            if acc > 0xffff_ffff {
                big = true;
            }
        }
        i = i + 1;
    }
    assert(s@.take(i as int) =~= s@);
    if big {
        0
    } else {
        acc as u32
    }
}

/// The pieces of a comma-separated union, trimmed.
pub open spec fn union_parts(t: Seq<char>) -> Seq<Seq<char>> {
    trim_each(split(t, ','))
}

/// What a type cell of the properties table denotes.
pub open spec fn type_column(s: Seq<char>) -> TypeModel {
    let t = trim(s);
    let link = link_ends(t);
    let (j, k) = match link {
        Some(p) => p,
        None => (0, 0),
    };
    if link is Some && bracket_tail(t, k + 1) {
        TypeModel::Array { element: Box::new(reference_model(t, j, k)) }
    } else if link is Some && k == t.len() - 1 {
        reference_model(t, j, k)
    } else if card_word(t) is Some && bracket_tail(t, card_word(t)->0.len() as int) {
        let w = card_word(t)->0;
        let card = trim(t.subrange(w.len() as int + 1, t.len() - 1 as int));
        if card.len() > 0 && forall|i: int| 0 <= i < card.len() ==> is_ascii_digit(#[trigger] card[i]) {
            TypeModel::FixedArray { element_type: w, size: card_size(card) }
        } else {
            TypeModel::Array { element: Box::new(TypeModel::Primitive { name: w }) }
        }
    } else if is_primitive(t) {
        TypeModel::Primitive { name: t }
    } else if union_parts(t).len() > 1 && forall|i: int|
        0 <= i < union_parts(t).len() ==> is_primitive(#[trigger] union_parts(t)[i]) {
        TypeModel::Union { types: union_parts(t) }
    } else if t == seq!['[', ']'] {
        TypeModel::Array { element: Box::new(TypeModel::Unknown) }
    } else {
        TypeModel::Unknown
    }
}

pub(crate) fn all_ascii_digits(s: &Vec<char>) -> (r: bool)
    ensures
        r == forall|i: int| 0 <= i < s@.len() ==> is_ascii_digit(#[trigger] s@[i]),
{
    let mut i: usize = 0;
    while i < s.len()
        invariant
            i <= s@.len(),
            forall|k: int| 0 <= k < i ==> is_ascii_digit(#[trigger] s@[k]),
        decreases s@.len() - i,
    {
        let n = s[i] as u32;
        if n < 48 || n > 57 {
            assert(!is_ascii_digit(s@[i as int]));
            return false;
        }
        i = i + 1;
    }
    true
}

/// Reads the type cell of a properties-table row: a reference
/// `[name](file.md)`, optionally with a cardinality `[..]`; a primitive,
/// optionally with a cardinality (`number[3]` is a fixed-size array); a
/// comma-separated union of primitives; a bare `[]`; or anything else,
/// which is left unconstrained.
pub fn parse_type_column(type_str: &str) -> (r: TypeDesc)
    ensures
        r@ == type_column(type_str@),
{
    let t = trim_chars(&chars_of(type_str));
    let link = link_ends_exec(&t);
    match link {
        Some((j, k)) => {
            let n = t.len();
            assert(k < n);
            if bracket_tail_exec(&t, k + 1) {
                let element = reference_exec(&t, j, k);
                return TypeDesc::Array { element: Box::new(element) };
            }
            if k == t.len() - 1 {
                return reference_exec(&t, j, k);
            }
        },
        None => {},
    }
    proof {
        reveal_strlit("string[");
        reveal_strlit("integer[");
        reveal_strlit("number[");
        reveal_strlit("boolean[");
        reveal_strlit("string");
        reveal_strlit("integer");
        reveal_strlit("number");
        reveal_strlit("boolean");
    }
    let word: Option<&str> = if match_at_exec(&t, 0, "string[") {
        Some("string")
    } else if match_at_exec(&t, 0, "integer[") {
        Some("integer")
    } else if match_at_exec(&t, 0, "number[") {
        Some("number")
    } else if match_at_exec(&t, 0, "boolean[") {
        Some("boolean")
    } else {
        None
    };
    assert(match card_word(t@) {
        Some(w) => word matches Some(x) && x@ == w,
        None => word is None,
    });
    match word {
        Some(w) => {
            let wl = chars_of(w).len();
            if bracket_tail_exec(&t, wl) {
                let card = trim_chars(&slice_chars(&t, wl + 1, t.len() - 1));
                if card.len() > 0 && all_ascii_digits(&card) {
                    return TypeDesc::FixedArray {
                        element_type: string_of(&chars_of(w)),
                        size: card_size_exec(&card),
                    };
                }
                let e = TypeDesc::Primitive { name: string_of(&chars_of(w)) };
                assert(e@ == TypeModel::Primitive { name: w@ });
                return TypeDesc::Array { element: Box::new(e) };
            }
        },
        None => {},
    }
    if is_primitive_exec(&t) {
        return TypeDesc::Primitive { name: string_of(&t) };
    }
    let parts = trim_each_exec(&split_chars(&t, ','));
    let ghost ps = char_views(parts@);
    if parts.len() > 1 {
        let mut all = true;
        let mut i: usize = 0;
        while i < parts.len()
            invariant
                i <= parts@.len(),
                ps == char_views(parts@),
                all == forall|k: int| 0 <= k < i ==> is_primitive(#[trigger] ps[k]),
            decreases parts@.len() - i,
        {
            assert(ps[i as int] == parts@[i as int]@);
            if !is_primitive_exec(&parts[i]) {
                all = false;
            }
            i = i + 1;
        }
        if all {
            let mut types: Vec<String> = Vec::new();
            let mut i: usize = 0;
            while i < parts.len()
                invariant
                    i <= parts@.len(),
                    ps == char_views(parts@),
                    texts(types@) == ps.take(i as int),
                decreases parts@.len() - i,
            {
                let ghost before = types@;
                assert(ps[i as int] == parts@[i as int]@);
                types.push(string_of(&parts[i]));
                assert(texts(types@) =~= texts(before).push(ps[i as int]));
                assert(ps.take(i + 1) =~= ps.take(i as int).push(ps[i as int]));
                i = i + 1;
            }
            assert(ps.take(i as int) =~= ps);
            return TypeDesc::Union { types };
        }
    }
    if t.len() == 2 && t[0] == '[' && t[1] == ']' {
        assert(t@ =~= seq!['[', ']']);
        let e = TypeDesc::Unknown;
        assert(e@ == TypeModel::Unknown);
        return TypeDesc::Array { element: Box::new(e) };
    }
    assert(t@ != seq!['[', ']']) by {
        if t@ == seq!['[', ']'] {
            assert(t@.len() == 2 && t@[0] == '[' && t@[1] == ']');
        }
    }
    TypeDesc::Unknown
}


/// End of the run of `*` that starts at `i`.
pub open spec fn star_end(s: Seq<char>, i: int) -> int
    decreases s.len() - i,
{
    if 0 <= i < s.len() && s[i] == '*' {
        star_end(s, i + 1)
    } else {
        i
    }
}

/// Start of the run of `*` that ends at `j`.
pub open spec fn star_back(s: Seq<char>, j: int) -> int
    decreases j,
{
    if 0 < j <= s.len() && s[j - 1] == '*' {
        star_back(s, j - 1)
    } else {
        j
    }
}

/// `s.trim_matches('*')`.
pub open spec fn trim_stars(s: Seq<char>) -> Seq<char> {
    let a = star_end(s, 0);
    let b = star_back(s, s.len() as int);
    if a >= b {
        Seq::empty()
    } else {
        s.subrange(a, b)
    }
}

fn trim_stars_exec(s: &Vec<char>) -> (r: Vec<char>)
    ensures
        r@ == trim_stars(s@),
{
    let n = s.len();
    let mut a: usize = 0;
    while a < n && s[a] == '*'
        invariant
            a <= n == s@.len(),
            star_end(s@, 0) == star_end(s@, a as int),
        decreases n - a,
    {
        a = a + 1;
    }
    let mut b = n;
    while b > 0 && s[b - 1] == '*'
        invariant
            b <= n == s@.len(),
            star_back(s@, n as int) == star_back(s@, b as int),
        decreases b,
    {
        b = b - 1;
    }
    if a >= b {
        Vec::new()
    } else {
        slice_chars(s, a, b)
    }
}

/// A property description without HTML tags, stripped of white space at
/// both ends as Python's `str.strip` does.
pub open spec fn clean_html(s: Seq<char>) -> Seq<char> {
    py_strip(strip_tags(s))
}

/// `s` without HTML tags (`<[^>]+>`), stripped as Python's `str.strip`
/// strips (`re.sub(r"<[^>]+>", "", s).strip()`).
pub fn strip_html_tags(s: &str) -> (r: String)
    ensures
        r@ == clean_html(s@),
{
    string_of(&py_strip_chars(&strip_tags_exec(&chars_of(s))))
}

/// The property that a row of the properties table describes: its cells
/// are name (bold when required), type and description. Rows with fewer
/// than three cells or an empty name describe none.
pub open spec fn row_property(row: Seq<char>) -> Option<PropertyModel> {
    let cells = row_cells(row);
    if cells.len() < 3 {
        None
    } else {
        let name_cell = trim(cells[0]);
        let desc = trim(cells[2]);
        let name = trim(trim_stars(name_cell));
        if name.len() == 0 {
            None
        } else {
            Some(
                PropertyModel {
                    name,
                    type_desc: type_column(trim(cells[1])),
                    required: starts_with(name_cell, "**"@) && ends_with(name_cell, "**"@),
                    description: clean_html(desc),
                    enum_values: enum_values_of(desc),
                    deprecated: deprecated_text(desc),
                },
            )
        }
    }
}

/// The warning for a row whose type cell could not be read.
pub open spec fn row_warnings(row: Seq<char>, source_file: Seq<char>) -> Seq<Seq<char>> {
    match row_property(row) {
        Some(p) => if p.type_desc is Unknown {
            seq![
                "unparsed type expression "@ + debug_text(trim(row_cells(row)[1]))
                    + " for property "@ + debug_text(p.name) + " in "@ + source_file
                    + ": treated as unconstrained"@,
            ]
        } else {
            Seq::empty()
        },
        None => Seq::empty(),
    }
}

/// The properties of the first `n` rows.
pub open spec fn rows_properties(rows: Seq<Seq<char>>, n: int) -> Seq<PropertyModel>
    decreases n,
{
    if n <= 0 || n > rows.len() {
        Seq::empty()
    } else {
        rows_properties(rows, n - 1) + match row_property(rows[n - 1]) {
            Some(p) => seq![p],
            None => Seq::empty(),
        }
    }
}

/// The warnings of the first `n` rows.
pub open spec fn rows_warnings(rows: Seq<Seq<char>>, n: int, source_file: Seq<char>) -> Seq<
    Seq<char>,
>
    decreases n,
{
    if n <= 0 || n > rows.len() {
        Seq::empty()
    } else {
        rows_warnings(rows, n - 1, source_file) + row_warnings(rows[n - 1], source_file)
    }
}

/// The properties listed in the properties table of a markdown file.
pub open spec fn properties_of(content: Seq<char>) -> Seq<PropertyModel> {
    rows_properties(property_rows(content), property_rows(content).len() as int)
}

/// The warnings for the properties table of a markdown file.
pub open spec fn property_warnings(content: Seq<char>, source_file: Seq<char>) -> Seq<Seq<char>> {
    rows_warnings(property_rows(content), property_rows(content).len() as int, source_file)
}

fn strings_of(v: &Vec<Vec<char>>) -> (r: Vec<String>)
    ensures
        texts(r@) == char_views(v@),
{
    let mut r: Vec<String> = Vec::new();
    let mut i: usize = 0;
    while i < v.len()
        invariant
            i <= v@.len(),
            texts(r@) == char_views(v@).take(i as int),
        decreases v@.len() - i,
    {
        let ghost before = r@;
        r.push(string_of(&v[i]));
        assert(texts(r@) =~= texts(before).push(char_views(v@)[i as int]));
        assert(char_views(v@).take(i + 1) =~= char_views(v@).take(i as int).push(
            char_views(v@)[i as int],
        ));
        i = i + 1;
    }
    assert(char_views(v@).take(i as int) =~= char_views(v@));
    r
}

fn row_property_exec(row: &Vec<char>, source_file: &str, warnings: &mut Vec<String>) -> (r: Option<
    Property,
>)
    ensures
        match row_property(row@) {
            Some(p) => r matches Some(x) && x@ == p,
            None => r is None,
        },
        texts(final(warnings)@) == texts(old(warnings)@) + row_warnings(row@, source_file@),
{
    let cells = row_cells_exec(row);
    if cells.len() < 3 {
        assert(texts(warnings@) =~= texts(old(warnings)@) + row_warnings(row@, source_file@));
        return None;
    }
    let name_cell = trim_chars(&cells[0]);
    let type_cell = trim_chars(&cells[1]);
    let desc = trim_chars(&cells[2]);
    let name = trim_chars(&trim_stars_exec(&name_cell));
    if name.len() == 0 {
        assert(texts(warnings@) =~= texts(old(warnings)@) + row_warnings(row@, source_file@));
        return None;
    }
    let required = chars_starts_with(&name_cell, "**") && chars_ends_with(&name_cell, "**");
    let type_desc = parse_type_column(string_of(&type_cell).as_str());
    let is_unknown = match &type_desc {
        TypeDesc::Unknown => true,
        _ => false,
    };
    if is_unknown {
        let mut m = chars_of("unparsed type expression ");
        push_debug(&mut m, &type_cell);
        push_str(&mut m, " for property ");
        push_debug(&mut m, &name);
        push_str(&mut m, " in ");
        push_str(&mut m, source_file);
        push_str(&mut m, ": treated as unconstrained");
        push_message(warnings, &m);
    }
    let values = li_values_exec(&desc);
    let enum_values = if values.len() == 0 {
        None
    } else {
        Some(strings_of(&values))
    };
    let p = Property {
        name: string_of(&name),
        type_desc,
        required,
        description: string_of(&py_strip_chars(&strip_tags_exec(&desc))),
        enum_values,
        deprecated: deprecated_chars(&desc),
    };
    assert(texts(warnings@) =~= texts(old(warnings)@) + row_warnings(row@, source_file@));
    Some(p)
}

/// Reads the properties table that follows the `### Properties` heading:
/// one property per row, in order. A warning is appended for each row whose
/// type cell cannot be read; such a property is unconstrained.
pub fn properties_chars(content: &Vec<char>, source_file: &str, warnings: &mut Vec<String>) -> (r:
    Vec<Property>)
    ensures
        property_views(r@) == properties_of(content@),
        texts(final(warnings)@) == texts(old(warnings)@) + property_warnings(
            content@,
            source_file@,
        ),
{
    let rows = table_rows_exec(content);
    let ghost rs = char_views(rows@);
    let mut props: Vec<Property> = Vec::new();
    let mut k: usize = 0;
    while k < rows.len()
        invariant
            k <= rows@.len(),
            rs == char_views(rows@),
            rs == property_rows(content@),
            property_views(props@) == rows_properties(rs, k as int),
            texts(warnings@) == texts(old(warnings)@) + rows_warnings(rs, k as int, source_file@),
        decreases rows@.len() - k,
    {
        let ghost before = props@;
        let ghost wbefore = texts(warnings@);
        assert(rs[k as int] == rows@[k as int]@);
        match row_property_exec(&rows[k], source_file, warnings) {
            Some(p) => {
                props.push(p);
                assert(property_views(props@) =~= property_views(before).push(p@));
            },
            None => {},
        }
        assert(property_views(props@) =~= rows_properties(rs, k + 1));
        assert(texts(warnings@) =~= texts(old(warnings)@) + rows_warnings(rs, k + 1, source_file@));
        k = k + 1;
    }
    props
}


/// `s[i..]` with each `\r\n` replaced by `\n`, left to right.
pub open spec fn crlf_from(s: Seq<char>, i: int) -> Seq<char>
    decreases s.len() - i,
{
    if i < 0 || i >= s.len() {
        Seq::empty()
    } else if s[i] == '\r' && i + 1 < s.len() && s[i + 1] == '\n' {
        seq!['\n'] + crlf_from(s, i + 2)
    } else {
        seq![s[i]] + crlf_from(s, i + 1)
    }
}

/// `s` with every remaining `\r` replaced by `\n`.
pub open spec fn cr_to_lf(s: Seq<char>) -> Seq<char> {
    s.map_values(|c: char| if c == '\r' { '\n' } else { c })
}

/// `s.replace("\r\n", "\n").replace('\r', "\n")`: universal newlines.
pub open spec fn universal_newlines(s: Seq<char>) -> Seq<char> {
    cr_to_lf(crlf_from(s, 0))
}

fn universal_newlines_exec(s: &Vec<char>) -> (r: Vec<char>)
    ensures
        r@ == universal_newlines(s@),
{
    let n = s.len();
    let mut a: Vec<char> = Vec::new();
    let mut i: usize = 0;
    while i < n
        invariant
            i <= n + 1,
            n == s@.len(),
            crlf_from(s@, 0) == a@ + crlf_from(s@, i as int),
        decreases n + 1 - i,
    {
        let ghost before = a@;
        if s[i] == '\r' && i + 1 < n && s[i + 1] == '\n' {
            a.push('\n');
            assert(before + crlf_from(s@, i as int) =~= a@ + crlf_from(s@, i + 2));
            i = i + 2;
        } else {
            a.push(s[i]);
            assert(before + crlf_from(s@, i as int) =~= a@ + crlf_from(s@, i + 1));
            i = i + 1;
        }
    }
    assert(crlf_from(s@, i as int) =~= Seq::<char>::empty());
    let mut r: Vec<char> = Vec::new();
    let mut k: usize = 0;
    while k < a.len()
        invariant
            k <= a@.len(),
            a@ == crlf_from(s@, 0),
            r@ =~= cr_to_lf(a@.take(k as int)),
        decreases a@.len() - k,
    {
        if a[k] == '\r' {
            r.push('\n');
        } else {
            r.push(a[k]);
        }
        k = k + 1;
    }
    assert(a@.take(k as int) =~= a@);
    r
}

/// The examples of a markdown file: each name and JSON text trimmed.
pub open spec fn examples_of(c: Seq<char>) -> Seq<ExampleModel> {
    let spans = example_spans_from(c, 0);
    Seq::new(
        spans.len(),
        |k: int|
            ExampleModel {
                name: trim(c.subrange(spans[k].0, spans[k].1)),
                json: trim(c.subrange(spans[k].2, spans[k].3)),
            },
    )
}

/// The `#### Example: <name>` blocks of a markdown file with their
/// ```` ```json ```` code blocks.
pub fn examples_chars(c: &Vec<char>) -> (r: Vec<Example>)
    ensures
        example_views(r@) == examples_of(c@),
{
    let spans = example_spans(c);
    let ghost all = example_spans_from(c@, 0);
    let mut r: Vec<Example> = Vec::new();
    let mut k: usize = 0;
    while k < spans.len()
        invariant
            k <= spans@.len() == all.len(),
            all == example_spans_from(c@, 0),
            forall|j: int|
                0 <= j < spans@.len() ==> {
                    let (q, r1, m, e) = #[trigger] spans@[j];
                    all[j] == (q as int, r1 as int, m as int, e as int)
                },
            examples_of(c@).len() == all.len(),
            example_views(r@) == examples_of(c@).take(k as int),
        decreases spans@.len() - k,
    {
        let (q, r1, m, e) = spans[k];
        assert(all[k as int] == (q as int, r1 as int, m as int, e as int));
        proof {
            crate::markdown::lemma_example_spans(c@, 0, k as int);
        }
        let name = string_of(&trim_chars(&slice_chars(c, q, r1)));
        let json = string_of(&trim_chars(&slice_chars(c, m, e)));
        let ghost before = r@;
        let ghost ex = examples_of(c@)[k as int];
        assert(ex.name == trim(c@.subrange(q as int, r1 as int)));
        assert(ex.json == trim(c@.subrange(m as int, e as int)));
        r.push(Example { name, json });
        assert(example_views(r@) =~= example_views(before).push(ex));
        assert(examples_of(c@).take(k + 1) =~= examples_of(c@).take(k as int).push(ex));
        k = k + 1;
    }
    assert(examples_of(c@).take(k as int) =~= examples_of(c@));
    r
}

/// The type entry of a spec markdown file, or `None` when the file is
/// skipped, names no profile, or has no type heading.
pub open spec fn md_entry(filename: Seq<char>, source_file: Seq<char>, content: Seq<char>) -> Option<
    TypeEntryModel,
> {
    let c = universal_newlines(content);
    if skipped(filename) || profile_of(filename) is None || type_name_of(c) is None {
        None
    } else {
        let p = profile_of(filename)->0;
        Some(
            TypeEntryModel {
                name: type_name_of(c)->0,
                base_name: base_name_of(filename),
                profile: p,
                module: p,
                description: description_of(c),
                properties: properties_of(c),
                examples: examples_of(c),
                source_file,
                deprecated: deprecated_text(description_of(c)),
            },
        )
    }
}

/// The warnings that reading a spec markdown file appends.
pub open spec fn md_warnings(filename: Seq<char>, source_file: Seq<char>, content: Seq<char>) -> Seq<
    Seq<char>,
> {
    if md_entry(filename, source_file, content) is Some {
        property_warnings(universal_newlines(content), source_file)
    } else {
        Seq::empty()
    }
}

/// The profile of a spec file that is read: `None` for a skipped file or
/// one whose name holds no profile, which is left unread.
pub fn md_file_profile(filename: &str) -> (r: Option<String>)
    ensures
        match r {
            Some(p) => !skipped(filename@) && profile_of(filename@) == Some(p@),
            None => skipped(filename@) || profile_of(filename@) is None,
        },
{
    if should_skip(filename) {
        return None;
    }
    parse_profile(filename)
}

/// Reads one spec markdown file: `filename` is its name, `source_file` its
/// path relative to the spec root, and `content` its text.
pub fn parse_md_content(
    filename: &str,
    source_file: &str,
    content: &str,
    warnings: &mut Vec<String>,
) -> (r: Option<TypeEntry>)
    ensures
        match md_entry(filename@, source_file@, content@) {
            Some(e) => r matches Some(x) && x@ == e,
            None => r is None,
        },
        texts(final(warnings)@) == texts(old(warnings)@) + md_warnings(
            filename@,
            source_file@,
            content@,
        ),
        r matches Some(x) ==> x@.module == x@.profile && (all_ascii(filename@) ==> known_profile(
            x@.profile,
        )),
{
    proof {
        if all_ascii(filename@) && profile_of(filename@) is Some {
            lemma_ascii_profile(filename@);
        }
    }
    let profile = match md_file_profile(filename) {
        Some(p) => p,
        None => {
            assert(texts(warnings@) =~= texts(old(warnings)@) + md_warnings(
                filename@,
                source_file@,
                content@,
            ));
            return None;
        },
    };
    let base_name = parse_base_name(filename);
    let c = universal_newlines_exec(&chars_of(content));
    let heading = match type_name_chars(&c) {
        Some(n) => n,
        None => {
            assert(texts(warnings@) =~= texts(old(warnings)@) + md_warnings(
                filename@,
                source_file@,
                content@,
            ));
            return None;
        },
    };
    let properties = properties_chars(&c, source_file, warnings);
    let description = description_chars(&c);
    let examples = examples_chars(&c);
    let deprecated = deprecated_chars(&description);
    let module = string_of(&chars_of(profile.as_str()));
    Some(
        TypeEntry {
            deprecated,
            name: string_of(&heading),
            base_name,
            profile,
            module,
            description: string_of(&description),
            properties,
            examples,
            source_file: string_of(&chars_of(source_file)),
        },
    )
}

/// The enumeration values of a description: the `` <li>`value` `` items,
/// in order, or `None` when there are none.
pub fn extract_enum_values(description: &str) -> (r: Option<Vec<String>>)
    ensures
        match enum_values_of(description@) {
            Some(vs) => r matches Some(v) && texts(v@) == vs,
            None => r is None,
        },
{
    let values = li_values_exec(&chars_of(description));
    if values.len() == 0 {
        None
    } else {
        Some(strings_of(&values))
    }
}

/// Whether a description marks its subject as deprecated: `**Deprecated`,
/// `deprecated in|with|for <major>.<minor>` (any case, at a word start), or
/// `deprecated` (any case, at a word start) with at most a dot and white
/// space after it at the end.
pub fn is_deprecated(description: &str) -> (r: bool)
    ensures
        r == deprecated_text(description@),
{
    deprecated_chars(&chars_of(description))
}

/// The type name of the heading on the first line (`# Name`, without a
/// trailing `[...]` part), or `None` when the first line is no such heading.
pub fn parse_type_name(content: &str) -> (r: Option<String>)
    ensures
        match type_name_of(content@) {
            Some(name) => r matches Some(v) && v@ == name,
            None => r is None,
        },
{
    match type_name_chars(&chars_of(content)) {
        Some(n) => Some(string_of(&n)),
        None => None,
    }
}

/// The description under the heading: the trimmed lines after the first,
/// up to the first `##`/`###` heading, from the first non-empty one on,
/// joined by spaces and trimmed.
pub fn parse_description(content: &str) -> (r: String)
    ensures
        r@ == description_of(content@),
{
    string_of(&description_chars(&chars_of(content)))
}

/// The `#### Example: <name>` blocks of a markdown text with their
/// ```` ```json ```` code blocks, names and JSON texts trimmed.
pub fn parse_examples(content: &str) -> (r: Vec<Example>)
    ensures
        example_views(r@) == examples_of(content@),
{
    examples_chars(&chars_of(content))
}

/// Reads the properties table that follows the `### Properties` heading of
/// a markdown text, appending a warning for each row whose type cell cannot
/// be read.
pub fn parse_properties_table(content: &str, source_file: &str, warnings: &mut Vec<String>) -> (r:
    Vec<Property>)
    ensures
        property_views(r@) == properties_of(content@),
        texts(final(warnings)@) == texts(old(warnings)@) + property_warnings(content@, source_file@),
{
    properties_chars(&chars_of(content), source_file, warnings)
}

/// The four profiles of the spec.
pub open spec fn known_profile(p: Seq<char>) -> bool {
    p == "cmn"@ || p == "bld"@ || p == "psl"@ || p == "pcsl"@
}

proof fn lemma_ci_lower(c: char, q: char)
    requires
        (c as u32) < 128,
        ci_char(c, q),
        q == 'c' || q == 'm' || q == 'n' || q == 'b' || q == 'l' || q == 'd' || q == 'p' || q
            == 's',
    ensures
        ascii_lower_char(c) == q,
{
    if (c as u32) == (q as u32) {
        assert(c == q);
    } else {
        assert((c as u32) + 32 == (q as u32));
        if q == 'c' {
            assert(lower_letters()[2] == 'c');
        } else if q == 'm' {
            assert(lower_letters()[12] == 'm');
        } else if q == 'n' {
            assert(lower_letters()[13] == 'n');
        } else if q == 'b' {
            assert(lower_letters()[1] == 'b');
        } else if q == 'l' {
            assert(lower_letters()[11] == 'l');
        } else if q == 'd' {
            assert(lower_letters()[3] == 'd');
        } else if q == 'p' {
            assert(lower_letters()[15] == 'p');
        } else {
            assert(lower_letters()[18] == 's');
        }
    }
}

/// The profile of a spec file whose name is ASCII is one of the four
/// profiles, `cmn`, `bld`, `psl` or `pcsl`. (A name with a non-ASCII letter
/// that folds to one of them, such as `ſ` for `s`, keeps that letter.)
pub proof fn lemma_ascii_profile(f: Seq<char>)
    requires
        all_ascii(f),
        profile_of(f) is Some,
    ensures
        known_profile(profile_of(f)->0),
{
    reveal_strlit(".cmn.md");
    reveal_strlit(".bld.md");
    reveal_strlit(".psl.md");
    reveal_strlit(".pcsl.md");
    reveal_strlit("cmn");
    reveal_strlit("bld");
    reveal_strlit("psl");
    reveal_strlit("pcsl");
    let n = profile_len(f);
    let st = f.len() - 3 - n;
    let sub = f.subrange(st, f.len() - 3);
    let p = profile_of(f)->0;
    assert(p == ascii_lower(sub));
    let suffix = if ci_ends_with(f, ".cmn.md"@) {
        ".cmn.md"@
    } else if ci_ends_with(f, ".bld.md"@) {
        ".bld.md"@
    } else if ci_ends_with(f, ".psl.md"@) {
        ".psl.md"@
    } else {
        ".pcsl.md"@
    };
    assert(ci_ends_with(f, suffix));
    assert(suffix.len() == n + 4);
    let base = f.len() - suffix.len();
    assert forall|k: int| 0 <= k < n implies ascii_lower_char(#[trigger] sub[k]) == suffix[k + 1] by {
        assert(sub[k] == f[base + (k + 1)]);
        assert(ci_char(f[base + (k + 1)], suffix[k + 1]));
        lemma_ci_lower(sub[k], suffix[k + 1]);
    }
    if suffix == ".cmn.md"@ {
        assert(p =~= "cmn"@);
    } else if suffix == ".bld.md"@ {
        assert(p =~= "bld"@);
    } else if suffix == ".psl.md"@ {
        assert(p =~= "psl"@);
    } else {
        assert(p =~= "pcsl"@);
    }
}

/// A type cell that holds one of the words `string`, `integer`, `number`
/// or `boolean` (with any white space around it) is that primitive type.
pub proof fn lemma_primitive_cells(s: Seq<char>)
    requires
        trim(s) == "string"@ || trim(s) == "integer"@ || trim(s) == "number"@ || trim(s)
            == "boolean"@,
    ensures
        type_column(s) == (TypeModel::Primitive { name: trim(s) }),
{
    reveal_strlit("string");
    reveal_strlit("integer");
    reveal_strlit("number");
    reveal_strlit("boolean");
    reveal_strlit("string[");
    reveal_strlit("integer[");
    reveal_strlit("number[");
    reveal_strlit("boolean[");
    let t = trim(s);
    assert(t[0] != '[');
    assert(link_ends(t) is None);
    assert(!match_at(t, 0, "string["@)) by {
        if t == "string"@ || t == "number"@ {
        } else {
            assert(t[0] != "string["@[0]);
        }
    }
    assert(!match_at(t, 0, "integer["@)) by {
        if t == "integer"@ || t == "boolean"@ {
        } else {
            assert(t[0] != "integer["@[0]);
        }
    }
    assert(!match_at(t, 0, "number["@)) by {
        if t == "string"@ || t == "number"@ {
        } else {
            assert(t[0] != "number["@[0]);
        }
    }
    assert(!match_at(t, 0, "boolean["@)) by {
        if t == "integer"@ || t == "boolean"@ {
        } else {
            assert(t[0] != "boolean["@[0]);
        }
    }
    assert(card_word(t) is None);
}

/// A type cell `word[n]`, for a primitive word and a number `n` written in
/// ASCII digits, is a fixed-size array of that primitive with `n` elements
/// (`0` when `n` does not fit a `u32`).
pub proof fn lemma_fixed_array_cells(w: Seq<char>, d: Seq<char>)
    requires
        w == "string"@ || w == "integer"@ || w == "number"@ || w == "boolean"@,
        d.len() > 0,
        forall|i: int| 0 <= i < d.len() ==> is_ascii_digit(#[trigger] d[i]),
    ensures
        type_column(w + seq!['['] + d + seq![']']) == (TypeModel::FixedArray {
            element_type: w,
            size: if digits_value(d) <= u32::MAX {
                digits_value(d) as u32
            } else {
                0
            },
        }),
{
    reveal_strlit("string");
    reveal_strlit("integer");
    reveal_strlit("number");
    reveal_strlit("boolean");
    reveal_strlit("string[");
    reveal_strlit("integer[");
    reveal_strlit("number[");
    reveal_strlit("boolean[");
    let t = w + seq!['['] + d + seq![']'];
    let n = t.len() as int;
    let wl = w.len() as int;
    assert(t[0] == w[0]);
    assert(t[n - 1] == ']');
    assert(t[wl] == '[');
    assert forall|i: int| 0 <= i < d.len() implies t[wl + 1 + i] == #[trigger] d[i] by {}
    // The cell has no white space at either end.
    lemma_ws_run_end_bounds(t, 0);
    assert(!is_white_space(t[0]));
    assert(ws_run_end(t, 0) == 0);
    lemma_ws_back_bounds(t, n);
    assert(!is_white_space(t[n - 1]));
    assert(ws_back(t, n) == n);
    assert(trim(t) =~= t);
    assert(link_ends(t) is None);
    let wb = w + seq!['['];
    assert(match_at(t, 0, wb)) by {
        assert(t.subrange(0, wb.len() as int) =~= wb);
    }
    let cw = card_word(t);
    if w == "string"@ {
        assert(wb =~= "string["@);
    } else if w == "integer"@ {
        assert(!match_at(t, 0, "string["@)) by { assert(t[0] != "string["@[0]); }
        assert(wb =~= "integer["@);
    } else if w == "number"@ {
        assert(!match_at(t, 0, "string["@)) by { assert(t[0] != "string["@[0]); }
        assert(!match_at(t, 0, "integer["@)) by { assert(t[0] != "integer["@[0]); }
        assert(wb =~= "number["@);
    } else {
        assert(!match_at(t, 0, "string["@)) by { assert(t[0] != "string["@[0]); }
        assert(!match_at(t, 0, "integer["@)) by { assert(t[0] != "integer["@[0]); }
        assert(!match_at(t, 0, "number["@)) by { assert(t[0] != "number["@[0]); }
        assert(wb =~= "boolean["@);
    }
    assert(cw == Some(w));
    lemma_next_index_bounds(t, '\n', wl + 1);
    assert(next_index_of(t, '\n', wl + 1) >= n - 1) by {
        let x = next_index_of(t, '\n', wl + 1);
        if x < n - 1 {
            assert(t[x] == d[x - wl - 1]);
        }
    }
    assert(bracket_tail(t, wl));
    let inner = t.subrange(wl + 1, n - 1);
    assert(inner =~= d);
    lemma_ws_run_end_bounds(d, 0);
    lemma_ws_back_bounds(d, d.len() as int);
    assert(!is_white_space(d[0]));
    assert(!is_white_space(d[d.len() - 1]));
    assert(trim(d) =~= d);
}

} // verus!

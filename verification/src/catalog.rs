//! Which files of a spec checkout are read, in which order, and how the
//! types read from them are gathered into the intermediate representation.

use vstd::prelude::*;
use crate::parse::{all_ascii_digits, digits_value, known_profile, Ir, ModuleData, TypeEntry, TypeEntryModel};
use crate::schema::copy_string;
use crate::smap::{
    chars_less, find_slot, has_key, key_pos, lemma_insert_key, lemma_key_pos, lemma_less_asymmetric,
    lemma_less_total, lemma_less_transitive, lemma_replace_value, seq_less, sorted_keys,
};
use crate::text::{
    ascii_lower, ascii_lower_chars, char_views, chars_eq, chars_of, decimal, decimal_digit,
    is_ascii_digit, digit_class, join_chars, join_with, lemma_next_index_bounds, lowercase,
    next_index_of, prev_index_of, push_str, rfind_char, slice_chars, string_of, texts,
    to_lowercase, write_decimal,
};

verus! {

/// The name of a version directory: `^\d+\.\d+$`, with `\d` the Unicode
/// decimal digits of the regex crate.
pub open spec fn version_dir_name(s: Seq<char>) -> bool {
    exists|d: int|
        0 < d < s.len() - 1 && #[trigger] s[d] == '.' && (forall|i: int|
            0 <= i < s.len() && i != d ==> digit_class(#[trigger] s[i]))
}

/// `s.parse::<u32>()` for a string of decimal digits: the value, when every
/// digit is ASCII and the value fits.
pub open spec fn u32_of_digits(s: Seq<char>) -> Option<u32> {
    if s.len() > 0 && (forall|i: int| 0 <= i < s.len() ==> is_ascii_digit(#[trigger] s[i]))
        && digits_value(s) <= u32::MAX {
        Some(digits_value(s) as u32)
    } else {
        None
    }
}

/// The message for a version directory whose numbers do not parse.
pub open spec fn msg_bad_version(name: Seq<char>) -> Seq<char> {
    "bad version dir name: "@ + name
}

/// What a directory name says of the version it holds: `Ok(None)` for a
/// directory that is not a version directory, the `(major, minor)` pair, or
/// the error for a version name whose numbers do not parse as `u32` (a
/// digit outside ASCII, or a value too large).
pub open spec fn dir_version(s: Seq<char>) -> Result<Option<(u32, u32)>, Seq<char>> {
    if !version_dir_name(s) {
        Ok(None)
    } else {
        let d = next_index_of(s, '.', 0);
        match (u32_of_digits(s.take(d)), u32_of_digits(s.skip(d + 1))) {
            (Some(a), Some(b)) => Ok(Some((a, b))),
            _ => Err(msg_bad_version(s)),
        }
    }
}

/// The position of the dot of a version directory name, or `None` when
/// `s` is not one.
fn version_dot(s: &Vec<char>) -> (r: Option<usize>)
    ensures
        r is Some <==> version_dir_name(s@),
        r matches Some(d) ==> d == next_index_of(s@, '.', 0) && 0 < d < s@.len() - 1,
{
    let mut dot: Option<usize> = None;
    let mut i: usize = 0;
    while i < s.len()
        invariant
            i <= s@.len(),
            match dot {
                Some(d) => d < i && s@[d as int] == '.' && !digit_class(s@[d as int]) && (forall|k: int|
                    0 <= k < i && k != d ==> digit_class(#[trigger] s@[k])) && (forall|k: int|
                    0 <= k < d ==> #[trigger] s@[k] != '.'),
                None => (forall|k: int| 0 <= k < i ==> digit_class(#[trigger] s@[k])) && (forall|
                    k: int,
                | 0 <= k < i ==> #[trigger] s@[k] != '.'),
            },
        decreases s@.len() - i,
    {
        let c = s[i];
        if !decimal_digit(c) {
            if c == '.' && dot.is_none() {
                dot = Some(i);
            } else {
                proof {
                    if version_dir_name(s@) {
                        let w = choose|d: int|
                            0 < d < s@.len() - 1 && #[trigger] s@[d] == '.' && (forall|k: int|
                                0 <= k < s@.len() && k != d ==> digit_class(#[trigger] s@[k]));
                        assert(s@[w] == '.');
                        if w != i {
                            assert(digit_class(s@[i as int]));
                        } else {
                            let d = dot->0;
                            assert(digit_class(s@[d as int]));
                        }
                    }
                }
                return None;
            }
        }
        i = i + 1;
    }
    match dot {
        Some(d) => {
            let r = 0 < d && d + 1 < s.len();
            proof {
                lemma_next_index_bounds(s@, '.', 0);
                if r {
                    assert(s@[d as int] == '.');
                    assert(version_dir_name(s@));
                } else if version_dir_name(s@) {
                    let w = choose|e: int|
                        0 < e < s@.len() - 1 && #[trigger] s@[e] == '.' && (forall|k: int|
                            0 <= k < s@.len() && k != e ==> digit_class(#[trigger] s@[k]));
                    assert(s@[w] == '.');
                    if w != d {
                        assert(digit_class(s@[d as int]));
                    }
                }
            }
            if r {
                Some(d)
            } else {
                None
            }
        },
        None => {
            proof {
                if version_dir_name(s@) {
                    let w = choose|e: int|
                        0 < e < s@.len() - 1 && #[trigger] s@[e] == '.' && (forall|k: int|
                            0 <= k < s@.len() && k != e ==> digit_class(#[trigger] s@[k]));
                    assert(s@[w] == '.');
                    assert(digit_class(s@[w]));
                }
            }
            None
        },
    }
}

fn parse_u32_digits(s: &Vec<char>) -> (r: Option<u32>)
    ensures
        r == u32_of_digits(s@),
{
    if s.len() == 0 || !all_ascii_digits(s) {
        return None;
    }
    let mut acc: u64 = 0;
    let mut i: usize = 0;
    while i < s.len()
        invariant
            i <= s@.len(),
            forall|k: int| 0 <= k < s@.len() ==> is_ascii_digit(#[trigger] s@[k]),
            acc == digits_value(s@.take(i as int)),
            acc <= u32::MAX,
        decreases s@.len() - i,
    {
        assert(s@.take(i + 1).drop_last() =~= s@.take(i as int));
        assert(is_ascii_digit(s@[i as int]));
        let d = (s[i] as u32 - 48) as u64;
        let next = acc * 10 + d;
        if next > 0xffff_ffff {
            proof {
                lemma_digits_value_prefix(s@, i + 1);
            }
            return None;
        }
        acc = next;
        i = i + 1;
    }
    assert(s@.take(i as int) =~= s@);
    Some(acc as u32)
}

/// A longer string of digits is worth at least as much as its prefix.
proof fn lemma_digits_value_prefix(s: Seq<char>, n: int)
    requires
        0 <= n <= s.len(),
        forall|k: int| 0 <= k < s.len() ==> is_ascii_digit(#[trigger] s[k]),
    ensures
        digits_value(s.take(n)) <= digits_value(s),
    decreases s.len() - n,
{
    if n < s.len() {
        lemma_digits_value_prefix(s, n + 1);
        assert(s.take(n + 1).drop_last() =~= s.take(n));
        assert(is_ascii_digit(s[n]));
    } else {
        assert(s.take(n) =~= s);
    }
}

/// Reads a directory name of the spec: `Ok(None)` when it is not a version
/// directory (`^\d+\.\d+$`), `Ok(Some((major, minor)))` for one, and the
/// error `bad version dir name: {name}` when its numbers do not parse as
/// `u32`.
pub fn version_dir(name: &str) -> (r: Result<Option<(u32, u32)>, String>)
    ensures
        match r {
            Ok(v) => dir_version(name@) == Ok::<Option<(u32, u32)>, Seq<char>>(v),
            Err(m) => dir_version(name@) == Err::<Option<(u32, u32)>, Seq<char>>(m@),
        },
{
    let s = chars_of(name);
    let d = match version_dot(&s) {
        Some(d) => d,
        None => {
            return Ok(None);
        },
    };
    let a = parse_u32_digits(&slice_chars(&s, 0, d));
    assert(d < s.len());
    let b = parse_u32_digits(&slice_chars(&s, d + 1, s.len()));
    proof {
        assert(s@.subrange(0, d as int) =~= s@.take(d as int));
        assert(s@.subrange(d + 1, s@.len() as int) =~= s@.skip(d + 1));
    }
    match (a, b) {
        (Some(x), Some(y)) => Ok(Some((x, y))),
        _ => {
            let mut m: Vec<char> = Vec::new();
            crate::text::push_str(&mut m, "bad version dir name: ");
            crate::text::push_chars(&mut m, &s);
            Err(string_of(&m))
        },
    }
}

/// The version label `"{major}.{minor}"`.
pub open spec fn version_text(major: u32, minor: u32) -> Seq<char> {
    decimal(major as nat) + seq!['.'] + decimal(minor as nat)
}

/// Writes the version label of a version directory.
pub fn version_label(major: u32, minor: u32) -> (r: String)
    ensures
        r@ == version_text(major, minor),
{
    let mut v: Vec<char> = Vec::new();
    write_decimal(major as u64, &mut v);
    v.push('.');
    write_decimal(minor as u64, &mut v);
    string_of(&v)
}

/// Whether version `a` is strictly older than version `b`.
pub open spec fn older(a: (u32, u32), b: (u32, u32)) -> bool {
    a.0 < b.0 || (a.0 == b.0 && a.1 < b.1)
}

/// The version of a directory entry `(major, minor, name)`.
pub open spec fn dir_key(e: (u32, u32, String)) -> (u32, u32) {
    (e.0, e.1)
}

/// The first position at or after `j` whose version is older than `x`'s
/// (`s.len()` when there is none).
pub open spec fn first_older(s: Seq<(u32, u32, String)>, x: (u32, u32, String), j: int) -> int
    decreases s.len() - j,
{
    if j < 0 || j >= s.len() {
        s.len() as int
    } else if older(dir_key(s[j]), dir_key(x)) {
        j
    } else {
        first_older(s, x, j + 1)
    }
}

/// The version directories in the order they are read: newest first, and
/// directories of the same version in the order they were listed (the
/// stable sort by descending `(major, minor)`).
pub open spec fn newest_first(s: Seq<(u32, u32, String)>) -> Seq<(u32, u32, String)>
    decreases s.len(),
{
    if s.len() == 0 {
        s
    } else {
        let t = newest_first(s.drop_last());
        t.insert(first_older(t, s.last(), 0), s.last())
    }
}

proof fn lemma_first_older(s: Seq<(u32, u32, String)>, x: (u32, u32, String), j: int)
    requires
        0 <= j <= s.len(),
    ensures
        j <= first_older(s, x, j) <= s.len(),
        forall|k: int| j <= k < first_older(s, x, j) ==> !older(dir_key(#[trigger] s[k]), dir_key(x)),
        first_older(s, x, j) < s.len() ==> older(dir_key(s[first_older(s, x, j)]), dir_key(x)),
    decreases s.len() - j,
{
    if j < s.len() && !older(dir_key(s[j]), dir_key(x)) {
        lemma_first_older(s, x, j + 1);
    }
}

/// Version directories sorted newest first are in non-increasing version
/// order, and hold the same entries as before.
pub proof fn lemma_newest_first(s: Seq<(u32, u32, String)>)
    ensures
        forall|i: int, j: int|
            0 <= i < j < newest_first(s).len() ==> !older(
                dir_key(#[trigger] newest_first(s)[i]),
                dir_key(#[trigger] newest_first(s)[j]),
            ),
        newest_first(s).to_multiset() == s.to_multiset(),
    decreases s.len(),
{
    broadcast use vstd::seq_lib::group_to_multiset_ensures;

    if s.len() > 0 {
        let t = newest_first(s.drop_last());
        let x = s.last();
        lemma_newest_first(s.drop_last());
        lemma_first_older(t, x, 0);
        let p = first_older(t, x, 0);
        let r = t.insert(p, x);
        assert(r == newest_first(s));
        assert forall|i: int, j: int| 0 <= i < j < r.len() implies !older(
            dir_key(#[trigger] r[i]),
            dir_key(#[trigger] r[j]),
        ) by {
            if j < p {
                assert(r[i] == t[i] && r[j] == t[j]);
            } else if j == p {
                assert(r[i] == t[i]);
            } else if i < p {
                assert(r[i] == t[i] && r[j] == t[j - 1]);
                if j - 1 > i {
                    assert(!older(dir_key(t[i]), dir_key(t[j - 1])));
                }
            } else if i == p {
                assert(r[j] == t[j - 1]);
                if j - 1 > p {
                    assert(!older(dir_key(t[p]), dir_key(t[j - 1])));
                }
            } else {
                assert(r[i] == t[i - 1] && r[j] == t[j - 1]);
            }
        }
        assert(s =~= s.drop_last().push(x));
    }
}

/// Orders the version directories newest first, keeping the listed order
/// among directories of the same version.
pub fn sort_newest_first(dirs: Vec<(u32, u32, String)>) -> (r: Vec<(u32, u32, String)>)
    ensures
        r@ == newest_first(dirs@),
{
    let mut out: Vec<(u32, u32, String)> = Vec::new();
    let mut rest = dirs;
    let ghost all = rest@;
    let mut taken: usize = 0;
    let n = rest.len();
    assert(all.skip(0) =~= all);
    while rest.len() > 0
        invariant
            taken + rest@.len() == n == all.len(),
            rest@ == all.skip(taken as int),
            out@ == newest_first(all.take(taken as int)),
        decreases rest@.len(),
    {
        let x = rest.remove(0);
        proof {
            assert(x == all[taken as int]);
            assert(rest@ =~= all.skip(taken + 1));
        }
        let mut j: usize = 0;
        while j < out.len() && !(out[j].0 < x.0 || (out[j].0 == x.0 && out[j].1 < x.1))
            invariant
                j <= out@.len(),
                first_older(out@, x, 0) == first_older(out@, x, j as int),
            decreases out@.len() - j,
        {
            j = j + 1;
        }
        proof {
            assert(all.take(taken + 1).drop_last() =~= all.take(taken as int));
            assert(all.take(taken + 1).last() == x);
        }
        out.insert(j, x);
        taken = taken + 1;
    }
    assert(all.take(n as int) =~= all);
    out
}

/// The extension of a file name, as `Path::extension` gives it: the text
/// after the last `.`, unless that dot starts the name (or the name is
/// `..`).
pub open spec fn extension(name: Seq<char>) -> Option<Seq<char>> {
    let d = prev_index_of(name, '.', name.len() as int);
    if name == ".."@ || d <= 0 {
        None
    } else {
        Some(name.skip(d + 1))
    }
}

/// The extension of the file name `s`.
pub fn file_extension(s: &Vec<char>) -> (r: Option<Vec<char>>)
    ensures
        match extension(s@) {
            Some(e) => r matches Some(x) && x@ == e,
            None => r is None,
        },
{
    if chars_eq(s, &chars_of("..")) {
        return None;
    }
    match rfind_char(s, '.') {
        Some(d) => {
            if d == 0 {
                return None;
            }
            assert(d < s.len());
            let ext = slice_chars(s, d + 1, s.len());
            assert(s@.subrange(d + 1, s@.len() as int) =~= s@.skip(d + 1));
            Some(ext)
        },
        None => None,
    }
}

/// Whether a directory entry named `name` is read as a markdown file: its
/// extension is `md` in any ASCII case.
pub open spec fn markdown_file(name: Seq<char>) -> bool {
    match extension(name) {
        Some(e) => ascii_lower(e) == "md"@,
        None => false,
    }
}

/// Whether a directory entry named `name` is read as a markdown file.
pub fn is_markdown_file(name: &str) -> (r: bool)
    ensures
        r == markdown_file(name@),
{
    match file_extension(&chars_of(name)) {
        Some(e) => chars_eq(&ascii_lower_chars(&e), &chars_of("md")),
        None => false,
    }
}

/// Whether a directory entry named `name` is a JSON file: its extension is
/// exactly `json`.
pub open spec fn json_file(name: Seq<char>) -> bool {
    extension(name) == Some("json"@)
}

/// Whether a directory entry named `name` is a JSON file.
pub fn is_json_file(name: &str) -> (r: bool)
    ensures
        r == json_file(name@),
{
    match file_extension(&chars_of(name)) {
        Some(e) => chars_eq(&e, &chars_of("json")),
        None => false,
    }
}

/// The names in ascending order (as `String`s compare).
pub open spec fn ascending(s: Seq<String>) -> bool {
    forall|i: int, j: int| 0 <= i < j < s.len() ==> !seq_less(#[trigger] s[j]@, #[trigger] s[i]@)
}

/// Sorts file names in ascending order.
pub fn sort_names(names: Vec<String>) -> (r: Vec<String>)
    ensures
        ascending(r@),
        r@.to_multiset() == names@.to_multiset(),
{
    broadcast use vstd::seq_lib::group_to_multiset_ensures;

        let mut out: Vec<String> = Vec::new();
    let mut rest = names;
    let ghost all = rest@;
    let mut taken: usize = 0;
    let n = rest.len();
    assert(all.skip(0) =~= all);
    assert(all.take(0).to_multiset() =~= out@.to_multiset());
    while rest.len() > 0
        invariant
            taken + rest@.len() == n == all.len(),
            rest@ == all.skip(taken as int),
            ascending(out@),
            out@.to_multiset() == all.take(taken as int).to_multiset(),
        decreases rest@.len(),
    {
        let x = rest.remove(0);
        proof {
            assert(x == all[taken as int]);
            assert(rest@ =~= all.skip(taken + 1));
        }
        let xc = chars_of(x.as_str());
        let mut j: usize = 0;
        while j < out.len() && !chars_less(&xc, &chars_of(out[j].as_str()))
            invariant
                j <= out@.len(),
                xc@ == x@,
                forall|k: int| 0 <= k < j ==> !seq_less(x@, #[trigger] out@[k]@),
            decreases out@.len() - j,
        {
            j = j + 1;
        }
        let ghost before = out@;
        proof {
            if j < before.len() {
                assert(seq_less(x@, before[j as int]@));
                assert forall|k: int| j <= k < before.len() implies seq_less(x@, #[trigger] before[k]@) by {
                    if k > j {
                        assert(!seq_less(before[k]@, before[j as int]@));
                        lemma_less_total(before[k]@, before[j as int]@);
                        if before[k]@ != before[j as int]@ {
                            lemma_less_transitive(x@, before[j as int]@, before[k]@);
                        }
                    }
                }
            }
        }
        out.insert(j, x);
        proof {
            assert(out@ == before.insert(j as int, x));
            assert forall|a: int, b: int| 0 <= a < b < out@.len() implies !seq_less(
                #[trigger] out@[b]@,
                #[trigger] out@[a]@,
            ) by {
                if b < j {
                    assert(out@[a] == before[a] && out@[b] == before[b]);
                } else if b == j {
                    assert(out@[a] == before[a]);
                } else if a < j {
                    assert(out@[a] == before[a] && out@[b] == before[b - 1]);
                    if b - 1 > a {
                        assert(!seq_less(before[b - 1]@, before[a]@));
                    }
                } else if a == j {
                    assert(out@[b] == before[b - 1]);
                    lemma_less_asymmetric(x@, before[b - 1]@);
                } else {
                    assert(out@[a] == before[a - 1] && out@[b] == before[b - 1]);
                }
            }
            assert(all.take(taken + 1) =~= all.take(taken as int).push(x));
            vstd::seq_lib::to_multiset_insert(before, j as int, x);
            vstd::seq_lib::to_multiset_build(all.take(taken as int), x);
        }
        taken = taken + 1;
    }
    assert(all.take(n as int) =~= all);
    out
}

/// The contents of a sequence of type entries.
pub open spec fn entry_views(v: Seq<TypeEntry>) -> Seq<TypeEntryModel> {
    v.map_values(|e: TypeEntry| e@)
}

/// The types of all modules, module after module.
pub open spec fn ir_entries(mods: Seq<(String, ModuleData)>) -> Seq<TypeEntryModel>
    decreases mods.len(),
{
    if mods.len() == 0 {
        Seq::empty()
    } else {
        ir_entries(mods.drop_last()) + entry_views(mods.last().1.types@)
    }
}

/// The types of each module, by module name.
pub open spec fn module_map(s: Seq<(String, ModuleData)>) -> Map<Seq<char>, Seq<TypeEntryModel>> {
    Map::new(|k: Seq<char>| has_key(s, k), |k: Seq<char>| entry_views(s[key_pos(s, k)].1.types@))
}

/// The versions in which each type appears, by `"{base}:{profile}"` key.
pub open spec fn version_map(s: Seq<(String, Vec<String>)>) -> Map<Seq<char>, Seq<Seq<char>>> {
    Map::new(|k: Seq<char>| has_key(s, k), |k: Seq<char>| texts(s[key_pos(s, k)].1@))
}

/// The versions recorded for each type key, in the order they were read.
pub open spec fn recorded_map(s: Seq<(String, Vec<(u32, u32)>)>) -> Map<Seq<char>, Seq<(u32, u32)>> {
    Map::new(|k: Seq<char>| has_key(s, k), |k: Seq<char>| s[key_pos(s, k)].1@)
}

/// The first position at or after `j` whose version is newer than `x`
/// (`s.len()` when there is none).
pub open spec fn first_newer(s: Seq<(u32, u32)>, x: (u32, u32), j: int) -> int
    decreases s.len() - j,
{
    if j < 0 || j >= s.len() {
        s.len() as int
    } else if older(x, s[j]) {
        j
    } else {
        first_newer(s, x, j + 1)
    }
}

/// Versions in ascending `(major, minor)` order (insertion sort).
pub open spec fn oldest_first(s: Seq<(u32, u32)>) -> Seq<(u32, u32)>
    decreases s.len(),
{
    if s.len() == 0 {
        s
    } else {
        let t = oldest_first(s.drop_last());
        t.insert(first_newer(t, s.last(), 0), s.last())
    }
}

/// The version labels of a type: its versions in ascending order, each
/// written `"{major}.{minor}"`.
pub open spec fn version_labels(vs: Seq<(u32, u32)>) -> Seq<Seq<char>> {
    oldest_first(vs).map_values(|v: (u32, u32)| version_text(v.0, v.1))
}

/// The version labels of each recorded type key.
pub open spec fn labelled(seen: Map<Seq<char>, Seq<(u32, u32)>>) -> Map<Seq<char>, Seq<Seq<char>>> {
    Map::new(|k: Seq<char>| seen.contains_key(k), |k: Seq<char>| version_labels(seen[k]))
}

proof fn lemma_first_newer(s: Seq<(u32, u32)>, x: (u32, u32), j: int)
    requires
        0 <= j <= s.len(),
    ensures
        j <= first_newer(s, x, j) <= s.len(),
        forall|k: int| j <= k < first_newer(s, x, j) ==> !older(x, #[trigger] s[k]),
        first_newer(s, x, j) < s.len() ==> older(x, s[first_newer(s, x, j)]),
    decreases s.len() - j,
{
    if j < s.len() && !older(x, s[j]) {
        lemma_first_newer(s, x, j + 1);
    }
}

/// The versions of a type are listed in ascending `(major, minor)` order,
/// and are the versions recorded for it.
pub proof fn lemma_oldest_first(s: Seq<(u32, u32)>)
    ensures
        forall|i: int, j: int|
            0 <= i < j < oldest_first(s).len() ==> !older(
                #[trigger] oldest_first(s)[j],
                #[trigger] oldest_first(s)[i],
            ),
        oldest_first(s).to_multiset() == s.to_multiset(),
    decreases s.len(),
{
    broadcast use vstd::seq_lib::group_to_multiset_ensures;

    if s.len() > 0 {
        let t = oldest_first(s.drop_last());
        let x = s.last();
        lemma_oldest_first(s.drop_last());
        lemma_first_newer(t, x, 0);
        let p = first_newer(t, x, 0);
        let r = t.insert(p, x);
        assert(r == oldest_first(s));
        assert forall|i: int, j: int| 0 <= i < j < r.len() implies !older(
            #[trigger] r[j],
            #[trigger] r[i],
        ) by {
            if j < p {
                assert(r[i] == t[i] && r[j] == t[j]);
            } else if j == p {
                assert(r[i] == t[i]);
            } else if i < p {
                assert(r[i] == t[i] && r[j] == t[j - 1]);
                if j - 1 > i {
                    assert(!older(t[j - 1], t[i]));
                }
            } else if i == p {
                assert(r[j] == t[j - 1]);
                if j - 1 > p {
                    assert(!older(t[j - 1], t[p]));
                }
            } else {
                assert(r[i] == t[i - 1] && r[j] == t[j - 1]);
            }
        }
        assert(s =~= s.drop_last().push(x));
    }
}

/// Sorts versions in ascending `(major, minor)` order.
fn sort_oldest_first(vs: &Vec<(u32, u32)>) -> (r: Vec<(u32, u32)>)
    ensures
        r@ == oldest_first(vs@),
{
    let mut out: Vec<(u32, u32)> = Vec::new();
    let mut i: usize = 0;
    while i < vs.len()
        invariant
            i <= vs@.len(),
            out@ == oldest_first(vs@.take(i as int)),
        decreases vs@.len() - i,
    {
        let x = vs[i];
        let mut j: usize = 0;
        while j < out.len() && !(x.0 < out[j].0 || (x.0 == out[j].0 && x.1 < out[j].1))
            invariant
                j <= out@.len(),
                first_newer(out@, x, 0) == first_newer(out@, x, j as int),
            decreases out@.len() - j,
        {
            j = j + 1;
        }
        proof {
            assert(vs@.take(i + 1).drop_last() =~= vs@.take(i as int));
            assert(vs@.take(i + 1).last() == x);
        }
        out.insert(j, x);
        i = i + 1;
    }
    assert(vs@.take(i as int) =~= vs@);
    out
}

/// The key that identifies a type across versions: its lower-cased base
/// name and its profile, `"{base}:{profile}"`.
pub open spec fn dedup_key(e: TypeEntryModel) -> Seq<char> {
    lowercase(e.base_name) + seq![':'] + e.profile
}

/// What is kept under a map key after a value is appended to its list.
pub open spec fn appended<V>(m: Map<Seq<char>, Seq<V>>, k: Seq<char>, v: V) -> Seq<V> {
    if m.contains_key(k) {
        m[k].push(v)
    } else {
        seq![v]
    }
}

/// The kept types and the recorded keys agree: every module lists at least
/// one type, every kept type is listed under the module it names and has
/// its key recorded, every recorded key
/// belongs to a kept type, and no two kept types share a key.
pub open spec fn consistent<V>(
    types: Map<Seq<char>, Seq<TypeEntryModel>>,
    seen: Map<Seq<char>, V>,
) -> bool {
    &&& forall|m: Seq<char>| #[trigger] types.contains_key(m) ==> types[m].len() > 0
    &&& forall|m: Seq<char>, i: int|
        types.contains_key(m) && 0 <= i < types[m].len() ==> (#[trigger] types[m][i]).module == m
            && seen.contains_key(dedup_key(types[m][i]))
    &&& forall|k: Seq<char>|
        #[trigger] seen.contains_key(k) ==> exists|m: Seq<char>, i: int|
            types.contains_key(m) && 0 <= i < types[m].len() && #[trigger] dedup_key(types[m][i])
                == k
    &&& forall|m1: Seq<char>, i1: int, m2: Seq<char>, i2: int|
        types.contains_key(m1) && types.contains_key(m2) && 0 <= i1 < types[m1].len() && 0 <= i2
            < types[m2].len() && #[trigger] dedup_key(types[m1][i1]) == #[trigger] dedup_key(
            types[m2][i2],
        ) ==> m1 == m2 && i1 == i2
}

/// Recording one more type read from the spec keeps the kept types and the
/// recorded keys consistent: the type is kept exactly when its key is new,
/// so each key keeps the first type read under it and no other.
pub proof fn lemma_add_consistent<V>(
    types: Map<Seq<char>, Seq<TypeEntryModel>>,
    seen: Map<Seq<char>, Seq<V>>,
    version: V,
    e: TypeEntryModel,
)
    requires
        consistent(types, seen),
    ensures
        consistent(
            if seen.contains_key(dedup_key(e)) {
                types
            } else {
                types.insert(e.module, appended(types, e.module, e))
            },
            seen.insert(dedup_key(e), appended(seen, dedup_key(e), version)),
        ),
{
    let k0 = dedup_key(e);
    let seen2 = seen.insert(k0, appended(seen, k0, version));
    if seen.contains_key(k0) {
        assert(seen2.dom() =~= seen.dom());
        assert forall|k: Seq<char>| #[trigger] seen2.contains_key(k) implies exists|m: Seq<char>, i: int|
            types.contains_key(m) && 0 <= i < types[m].len() && #[trigger] dedup_key(types[m][i])
                == k by {
            assert(seen.contains_key(k));
        }
    } else {
        let mm = e.module;
        let old_list = if types.contains_key(mm) {
            types[mm]
        } else {
            Seq::<TypeEntryModel>::empty()
        };
        let n = old_list.len() as int;
        let types2 = types.insert(mm, appended(types, mm, e));
        assert(types2[mm] =~= old_list.push(e));
        assert forall|m: Seq<char>| #[trigger] types2.contains_key(m) implies types2[m].len() > 0 by {
            if m != mm {
                assert(types2[m] == types[m]);
            }
        }
        assert forall|m: Seq<char>, i: int|
            types2.contains_key(m) && 0 <= i < types2[m].len() implies (#[trigger] types2[m][i]).module
            == m && seen2.contains_key(dedup_key(types2[m][i])) by {
            if m == mm && i == n {
                assert(types2[m][i] == e);
            } else {
                assert(types2[m][i] == types[m][i]);
            }
        }
        assert forall|k: Seq<char>| #[trigger] seen2.contains_key(k) implies exists|m: Seq<char>, i: int|
            types2.contains_key(m) && 0 <= i < types2[m].len() && #[trigger] dedup_key(types2[m][i])
                == k by {
            if k == k0 {
                assert(dedup_key(types2[mm][n]) == k);
            } else {
                assert(seen.contains_key(k));
                let (m, i) = choose|m: Seq<char>, i: int|
                    types.contains_key(m) && 0 <= i < types[m].len() && #[trigger] dedup_key(
                        types[m][i],
                    ) == k;
                assert(types2[m][i] == types[m][i]);
                assert(dedup_key(types2[m][i]) == k);
            }
        }
        assert forall|m1: Seq<char>, i1: int, m2: Seq<char>, i2: int|
            types2.contains_key(m1) && types2.contains_key(m2) && 0 <= i1 < types2[m1].len() && 0
                <= i2 < types2[m2].len() && #[trigger] dedup_key(types2[m1][i1])
                == #[trigger] dedup_key(types2[m2][i2]) implies m1 == m2 && i1 == i2 by {
            let new1 = m1 == mm && i1 == n;
            let new2 = m2 == mm && i2 == n;
            if !new1 {
                assert(types2[m1][i1] == types[m1][i1]);
                assert(seen.contains_key(dedup_key(types[m1][i1])));
            }
            if !new2 {
                assert(types2[m2][i2] == types[m2][i2]);
                assert(seen.contains_key(dedup_key(types[m2][i2])));
            }
            if new1 && !new2 {
                assert(types2[m1][i1] == e);
            } else if !new1 && new2 {
                assert(types2[m2][i2] == e);
            }
        }
    }
}

/// Every kept type has the profile of the module it is listed under.
pub open spec fn entries_profiled(types: Map<Seq<char>, Seq<TypeEntryModel>>) -> bool {
    forall|m: Seq<char>, i: int|
        types.contains_key(m) && 0 <= i < types[m].len() ==> (#[trigger] types[m][i]).profile == m
}

/// Every module is named after one of the four profiles.
pub open spec fn modules_known(types: Map<Seq<char>, Seq<TypeEntryModel>>) -> bool {
    forall|m: Seq<char>| #[trigger] types.contains_key(m) ==> known_profile(m)
}

/// Keeping a type whose module is its profile keeps every type's profile
/// equal to its module; keeping a type whose module is one of the four
/// profiles keeps every module among them.
pub proof fn lemma_add_profiles(types: Map<Seq<char>, Seq<TypeEntryModel>>, e: TypeEntryModel)
    ensures
        entries_profiled(types) && e.profile == e.module ==> entries_profiled(
            types.insert(e.module, appended(types, e.module, e)),
        ),
        modules_known(types) && known_profile(e.module) ==> modules_known(
            types.insert(e.module, appended(types, e.module, e)),
        ),
{
    let mm = e.module;
    let old_list = if types.contains_key(mm) {
        types[mm]
    } else {
        Seq::<TypeEntryModel>::empty()
    };
    let types2 = types.insert(mm, appended(types, mm, e));
    assert(types2[mm] =~= old_list.push(e));
    if entries_profiled(types) && e.profile == e.module {
        assert forall|m: Seq<char>, i: int|
            types2.contains_key(m) && 0 <= i < types2[m].len() implies (
            #[trigger] types2[m][i]).profile == m by {
            if m == mm && i == old_list.len() {
                assert(types2[m][i] == e);
            } else {
                assert(types2[m][i] == types[m][i]);
            }
        }
    }
}

/// Gathers the types read from the spec files, newest version first: the
/// first type read under each key is kept, and every version in which the
/// key appears is recorded.
pub struct IrBuilder {
    modules: Vec<(String, ModuleData)>,
    versions: Vec<(String, Vec<(u32, u32)>)>,
}

impl IrBuilder {
    /// The kept types of each module.
    pub closed spec fn types(self) -> Map<Seq<char>, Seq<TypeEntryModel>> {
        module_map(self.modules@)
    }

    /// The versions `(major, minor)` recorded for each type key, in the
    /// order they were read.
    pub closed spec fn seen(self) -> Map<Seq<char>, Seq<(u32, u32)>> {
        recorded_map(self.versions@)
    }

    pub closed spec fn wf(self) -> bool {
        &&& sorted_keys(self.modules@)
        &&& sorted_keys(self.versions@)
        &&& consistent(self.types(), self.seen())
    }

    pub fn new() -> (b: Self)
        ensures
            b.wf(),
            b.types() == Map::<Seq<char>, Seq<TypeEntryModel>>::empty(),
            b.seen() == Map::<Seq<char>, Seq<(u32, u32)>>::empty(),
            entries_profiled(b.types()),
            modules_known(b.types()),
    {
        let b = IrBuilder { modules: Vec::new(), versions: Vec::new() };
        assert(b.types() =~= Map::<Seq<char>, Seq<TypeEntryModel>>::empty());
        assert(b.seen() =~= Map::<Seq<char>, Seq<(u32, u32)>>::empty());
        b
    }

    /// Records a type read from the spec files of version `major.minor`. The
    /// version is appended to those of the type's key; the type itself is
    /// kept, at the end of its module, only when its key was not seen before.
    pub fn add(&mut self, major: u32, minor: u32, entry: TypeEntry)
        requires
            old(self).wf(),
        ensures
            final(self).wf(),
            final(self).seen() == old(self).seen().insert(
                dedup_key(entry@),
                appended(old(self).seen(), dedup_key(entry@), (major, minor)),
            ),
            old(self).seen().contains_key(dedup_key(entry@)) ==> final(self).types() == old(
                self,
            ).types(),
            !old(self).seen().contains_key(dedup_key(entry@)) ==> final(self).types() == old(
                self,
            ).types().insert(entry@.module, appended(old(self).types(), entry@.module, entry@)),
            entries_profiled(old(self).types()) && entry@.profile == entry@.module
                ==> entries_profiled(final(self).types()),
            modules_known(old(self).types()) && known_profile(entry@.module) ==> modules_known(
                final(self).types(),
            ),
    {
        proof {
            lemma_add_profiles(old(self).types(), entry@);
        }
        let ghost e = entry@;
        proof {
            lemma_add_consistent(old(self).types(), old(self).seen(), (major, minor), e);
        }
        let mut key = chars_of(to_lowercase(entry.base_name.as_str()).as_str());
        key.push(':');
        push_str(&mut key, entry.profile.as_str());
        assert(key@ == dedup_key(e));
        let (p, found) = find_slot(&self.versions, &key);
        if found {
            let ghost s = self.versions@;
            proof {
                lemma_key_pos(s, p as int);
            }
            let (k, mut list) = self.versions.remove(p);
            let ghost before = list@;
            list.push((major, minor));
            self.versions.insert(p, (k, list));
            proof {
                assert(self.versions@ =~= s.update(p as int, (s[p as int].0, list)));
                lemma_replace_value(s, p as int, list);
                assert(self.seen() =~= old(self).seen().insert(
                    dedup_key(e),
                    appended(old(self).seen(), dedup_key(e), (major, minor)),
                ));
            }
        } else {
            let ghost s = self.versions@;
            let mut list: Vec<(u32, u32)> = Vec::new();
            list.push((major, minor));
            let pair = (string_of(&key), list);
            proof {
                lemma_insert_key(s, p as int, pair);
            }
            self.versions.insert(p, pair);
            proof {
                assert(pair.1@ =~= seq![(major, minor)]);
                assert(self.seen() =~= old(self).seen().insert(
                    dedup_key(e),
                    appended(old(self).seen(), dedup_key(e), (major, minor)),
                ));
            }
            let m = chars_of(entry.module.as_str());
            let (q, mfound) = find_slot(&self.modules, &m);
            let ghost ms = self.modules@;
            if mfound {
                proof {
                    lemma_key_pos(ms, q as int);
                }
                let (k, mut md) = self.modules.remove(q);
                let ghost before = md.types@;
                md.types.push(entry);
                self.modules.insert(q, (k, md));
                proof {
                    assert(self.modules@ =~= ms.update(q as int, (ms[q as int].0, md)));
                    lemma_replace_value(ms, q as int, md);
                    assert(entry_views(md.types@) =~= entry_views(before).push(e));
                    assert(self.types() =~= old(self).types().insert(
                        e.module,
                        appended(old(self).types(), e.module, e),
                    ));
                }
            } else {
                let mut md = ModuleData { types: Vec::new() };
                md.types.push(entry);
                let mpair = (string_of(&m), md);
                proof {
                    lemma_insert_key(ms, q as int, mpair);
                }
                self.modules.insert(q, mpair);
                proof {
                    assert(entry_views(mpair.1.types@) =~= seq![e]);
                    assert(self.types() =~= old(self).types().insert(
                        e.module,
                        appended(old(self).types(), e.module, e),
                    ));
                }
            }
        }
    }

    /// The gathered representation: the version label is the names of the
    /// version directories read, joined by `+`; the modules and their types
    /// are those kept, sorted by module name. Also returns the versions of
    /// each type key, sorted by key, each list in ascending `(major, minor)`
    /// order and written `"{major}.{minor}"`.
    pub fn finish(self, dir_names: &Vec<String>) -> (r: (Ir, Vec<(String, Vec<String>)>))
        requires
            self.wf(),
        ensures
            r.0.version@ == join_with(texts(dir_names@), "+"@),
            sorted_keys(r.0.modules@),
            module_map(r.0.modules@) == self.types(),
            sorted_keys(r.1@),
            version_map(r.1@) == labelled(self.seen()),
            consistent(module_map(r.0.modules@), version_map(r.1@)),
            forall|m: Seq<char>|
                #[trigger] module_map(r.0.modules@).contains_key(m) ==> module_map(
                    r.0.modules@,
                )[m].len() > 0,
            entries_profiled(self.types()) ==> entries_profiled(module_map(r.0.modules@)),
            modules_known(self.types()) ==> modules_known(module_map(r.0.modules@)),
    {
        let mut parts: Vec<Vec<char>> = Vec::new();
        let mut i: usize = 0;
        while i < dir_names.len()
            invariant
                i <= dir_names@.len(),
                char_views(parts@) == texts(dir_names@).take(i as int),
            decreases dir_names@.len() - i,
        {
            let c = chars_of(dir_names[i].as_str());
            let ghost before = parts@;
            parts.push(c);
            assert(parts@ == before.push(c));
            assert(c@ == dir_names@[i as int]@);
            assert(char_views(parts@) =~= char_views(before).push(c@));
            assert(texts(dir_names@).take(i + 1) =~= texts(dir_names@).take(i as int).push(dir_names@[i as int]@));
            i = i + 1;
        }
        assert(texts(dir_names@).take(i as int) =~= texts(dir_names@));
        let version = string_of(&join_chars(&parts, '+'));
        assert(seq!['+'] =~= "+"@) by {
            reveal_strlit("+");
        }
        let ghost vs = self.versions@;
        let mut out: Vec<(String, Vec<String>)> = Vec::new();
        let mut i: usize = 0;
        while i < self.versions.len()
            invariant
                i <= vs.len(),
                vs == self.versions@,
                out@.len() == i,
                forall|j: int|
                    0 <= j < i ==> (#[trigger] out@[j]).0@ == vs[j].0@ && texts(out@[j].1@)
                        == version_labels(vs[j].1@),
            decreases vs.len() - i,
        {
            let sorted = sort_oldest_first(&self.versions[i].1);
            let mut labels: Vec<String> = Vec::new();
            let mut m: usize = 0;
            while m < sorted.len()
                invariant
                    m <= sorted@.len(),
                    texts(labels@) == sorted@.take(m as int).map_values(
                        |v: (u32, u32)| version_text(v.0, v.1),
                    ),
                decreases sorted@.len() - m,
            {
                let (a, b) = sorted[m];
                let l = version_label(a, b);
                let ghost before = labels@;
                labels.push(l);
                assert(texts(labels@) =~= texts(before).push(l@));
                assert(sorted@.take(m + 1) =~= sorted@.take(m as int).push((a, b)));
                assert(sorted@.take(m + 1).map_values(|v: (u32, u32)| version_text(v.0, v.1))
                    =~= sorted@.take(m as int).map_values(|v: (u32, u32)| version_text(v.0, v.1)).push(
                    version_text(a, b),
                ));
                m = m + 1;
            }
            assert(sorted@.take(m as int) =~= sorted@);
            out.push((copy_string(&self.versions[i].0), labels));
            i = i + 1;
        }
        proof {
            assert(sorted_keys(out@)) by {
                assert forall|a: int, b: int| 0 <= a < b < out@.len() implies seq_less(
                    #[trigger] out@[a].0@,
                    #[trigger] out@[b].0@,
                ) by {
                    assert(out@[a].0@ == vs[a].0@ && out@[b].0@ == vs[b].0@);
                }
            }
            assert forall|k: Seq<char>| #[trigger] has_key(out@, k) == has_key(vs, k) by {
                if has_key(vs, k) {
                    let j = key_pos(vs, k);
                    assert(out@[j].0@ == k);
                }
                if has_key(out@, k) {
                    let j = key_pos(out@, k);
                    assert(vs[j].0@ == out@[j].0@);
                }
            }
            assert forall|k: Seq<char>| has_key(vs, k) implies #[trigger] key_pos(out@, k) == key_pos(vs, k) by {
                let j = key_pos(vs, k);
                lemma_key_pos(vs, j);
                assert(out@[j].0@ == k);
                lemma_key_pos(out@, j);
            }
            assert(version_map(out@) =~= labelled(self.seen()));
        }
        (Ir { version, modules: self.modules }, out)
    }

}

} // verus!

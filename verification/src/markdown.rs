//! The pieces of the i3s markdown grammar: HTML tags, enumeration lists,
//! deprecation notes, the type heading, the description, the properties
//! table and the JSON examples.

use vstd::prelude::*;
use crate::text::{
    char_views, copy_chars, join_chars, join_with, lines, prev_index_of,
    rfind_char, prev_index_exec, split, split_chars, split_lines, starts_with, chars_starts_with, trim, trim_chars,
    trim_each, trim_each_exec, ws_back, ci_match_at, ci_match_at_exec, decimal_digit, find_char, digit_class, word_class, lemma_next_index_bounds, lemma_ws_run_end_bounds, match_at, match_at_exec,
    next_index_of, skip_ws, slice_chars, white_space, word_char, ws_run_end,
};

verus! {

/// Whether an HTML tag `<[^>]+>` starts at `i`: a `<`, at least one
/// character, then the first `>` after it.
pub open spec fn tag_at(s: Seq<char>, i: int) -> bool {
    0 <= i < s.len() && s[i] == '<' && next_index_of(s, '>', i + 1) < s.len() && next_index_of(
        s,
        '>',
        i + 1,
    ) >= i + 2
}

/// `s[i..]` with every HTML tag removed, scanning left to right.
pub open spec fn strip_tags_from(s: Seq<char>, i: int) -> Seq<char>
    decreases s.len() - i,
{
    if i < 0 || i >= s.len() {
        Seq::empty()
    } else if tag_at(s, i) {
        proof {
            lemma_next_index_bounds(s, '>', i + 1);
        }
        strip_tags_from(s, next_index_of(s, '>', i + 1) + 1)
    } else {
        seq![s[i]] + strip_tags_from(s, i + 1)
    }
}

/// `s` with every HTML tag removed (`<[^>]+>` replaced by nothing).
pub open spec fn strip_tags(s: Seq<char>) -> Seq<char> {
    strip_tags_from(s, 0)
}

pub fn strip_tags_exec(s: &Vec<char>) -> (r: Vec<char>)
    ensures
        r@ == strip_tags(s@),
{
    let mut out: Vec<char> = Vec::new();
    let mut i: usize = 0;
    while i < s.len()
        invariant
            i <= s@.len(),
            strip_tags(s@) == out@ + strip_tags_from(s@, i as int),
        decreases s@.len() - i,
    {
        if s[i] == '<' && i + 1 < s.len() {
            let j = find_char(s, '>', i + 1);
            if j < s.len() && j >= i + 2 {
                assert(tag_at(s@, i as int));
                i = j + 1;
                continue;
            }
        }
        assert(!tag_at(s@, i as int));
        let ghost before = out@;
        out.push(s[i]);
        assert(before + strip_tags_from(s@, i as int) =~= out@ + strip_tags_from(s@, i + 1));
        i = i + 1;
    }
    assert(strip_tags_from(s@, i as int) =~= Seq::<char>::empty());
    assert(out@ =~= strip_tags(s@));
    out
}


/// The closing backtick of an enumeration item `` <li>`value` `` that
/// starts at `i` (`` <li>`([^`]+)` ``).
pub open spec fn li_end(s: Seq<char>, i: int) -> Option<int> {
    if match_at(s, i, "<li>`"@) {
        let j = next_index_of(s, '`', i + 5);
        if j < s.len() && j >= i + 6 {
            Some(j)
        } else {
            None
        }
    } else {
        None
    }
}

/// The values of the enumeration items in `s[i..]`, left to right.
pub open spec fn li_values_from(s: Seq<char>, i: int) -> Seq<Seq<char>>
    decreases s.len() - i,
{
    if i < 0 || i >= s.len() {
        Seq::empty()
    } else {
        match li_end(s, i) {
            Some(j) => {
                proof {
                    lemma_next_index_bounds(s, '`', i + 5);
                }
                seq![s.subrange(i + 5, j)] + li_values_from(s, j + 1)
            },
            None => li_values_from(s, i + 1),
        }
    }
}

/// The enumeration values listed in a description, if there are any.
pub open spec fn enum_values_of(s: Seq<char>) -> Option<Seq<Seq<char>>> {
    let v = li_values_from(s, 0);
    if v.len() == 0 {
        None
    } else {
        Some(v)
    }
}

pub fn li_values_exec(s: &Vec<char>) -> (r: Vec<Vec<char>>)
    ensures
        crate::text::char_views(r@) == li_values_from(s@, 0),
{
    proof {
        reveal_strlit("<li>`");
    }
    let mut out: Vec<Vec<char>> = Vec::new();
    let mut i: usize = 0;
    while i < s.len()
        invariant
            i <= s@.len(),
            li_values_from(s@, 0) == crate::text::char_views(out@) + li_values_from(
                s@,
                i as int,
            ),
        decreases s@.len() - i,
    {
        proof {
            reveal_strlit("<li>`");
        }
        let n = s.len();
        if match_at_exec(s, i, "<li>`") {
            assert(i + 5 <= n);
            let j = find_char(s, '`', i + 5);
            if j < s.len() && j >= i + 6 {
                let ghost before = out@;
                out.push(slice_chars(s, i + 5, j));
                assert(crate::text::char_views(out@) =~= crate::text::char_views(before).push(
                    s@.subrange(i + 5, j as int),
                ));
                assert(crate::text::char_views(out@) + li_values_from(s@, j + 1)
                    =~= crate::text::char_views(before) + li_values_from(s@, i as int));
                i = j + 1;
                continue;
            }
        }
        i = i + 1;
    }
    assert(li_values_from(s@, i as int) =~= Seq::<Seq<char>>::empty());
    assert(crate::text::char_views(out@) =~= li_values_from(s@, 0));
    out
}

/// Whether `\b` holds at `i`: the characters on either side differ in
/// being word characters.
pub open spec fn word_boundary(s: Seq<char>, i: int) -> bool {
    (0 < i <= s.len() && word_class(s[i - 1])) != (0 <= i < s.len() && word_class(s[i]))
}

fn word_boundary_exec(s: &Vec<char>, i: usize) -> (r: bool)
    requires
        i <= s@.len(),
    ensures
        r == word_boundary(s@, i as int),
{
    let before = i > 0 && word_char(s[i - 1]);
    let after = i < s.len() && word_char(s[i]);
    before != after
}

/// End of the maximal run of decimal digits that starts at `i`.
pub open spec fn digit_run_end(s: Seq<char>, i: int) -> int
    decreases s.len() - i,
{
    if 0 <= i < s.len() && digit_class(s[i]) {
        digit_run_end(s, i + 1)
    } else {
        i
    }
}

fn digit_run_end_exec(s: &Vec<char>, i: usize) -> (r: usize)
    requires
        i <= s@.len(),
    ensures
        r == digit_run_end(s@, i as int),
        i <= r <= s@.len(),
{
    let mut j = i;
    while j < s.len() && decimal_digit(s[j])
        invariant
            i <= j <= s@.len(),
            digit_run_end(s@, i as int) == digit_run_end(s@, j as int),
        decreases s@.len() - j,
    {
        j = j + 1;
    }
    j
}

/// Whether a version number `\d+\.\d+` starts at `t`.
pub open spec fn version_at(s: Seq<char>, t: int) -> bool {
    let u = digit_run_end(s, t);
    u > t && u + 1 < s.len() && s[u] == '.' && digit_class(s[u + 1])
}

/// The end of the word `in`, `with` or `for` at `q` (case-insensitive), or
/// `-1`.
pub open spec fn until_word_end(s: Seq<char>, q: int) -> int {
    if ci_match_at(s, q, "in"@) {
        q + 2
    } else if ci_match_at(s, q, "with"@) {
        q + 4
    } else if ci_match_at(s, q, "for"@) {
        q + 3
    } else {
        -1
    }
}

/// Whether `(?i)\bdeprecated\s+(?:in|with|for)\s+\d+\.\d+` matches at `i`.
pub open spec fn deprecated_in_at(s: Seq<char>, i: int) -> bool {
    &&& word_boundary(s, i)
    &&& ci_match_at(s, i, "deprecated"@)
    &&& ws_run_end(s, i + 10) > i + 10
    &&& until_word_end(s, ws_run_end(s, i + 10)) >= 0
    &&& {
        let r = until_word_end(s, ws_run_end(s, i + 10));
        exists|t: int| r < t <= ws_run_end(s, r) && #[trigger] version_at(s, t)
    }
}

/// Whether `(?i)\bdeprecated\.?\s*$` matches at `i`.
pub open spec fn deprecated_end_at(s: Seq<char>, i: int) -> bool {
    &&& word_boundary(s, i)
    &&& ci_match_at(s, i, "deprecated"@)
    &&& (ws_run_end(s, i + 10) == s.len() || (i + 10 < s.len() && s[i + 10] == '.' && ws_run_end(
        s,
        i + 11,
    ) == s.len()))
}

/// Whether a description marks the item as deprecated: `**Deprecated`,
/// "deprecated in/with/for <version>", or a final "deprecated".
pub open spec fn deprecated_text(s: Seq<char>) -> bool {
    ||| exists|i: int| 0 <= i <= s.len() && #[trigger] match_at(s, i, "**Deprecated"@)
    ||| exists|i: int| 0 <= i <= s.len() && #[trigger] deprecated_in_at(s, i)
    ||| exists|i: int| 0 <= i <= s.len() && #[trigger] deprecated_end_at(s, i)
}

fn version_after_exec(s: &Vec<char>, r: usize) -> (b: bool)
    requires
        r <= s@.len(),
    ensures
        b == exists|t: int| r < t <= ws_run_end(s@, r as int) && #[trigger] version_at(s@, t),
{
    let n = s.len();
    let w = skip_ws(s, r);
    let mut k = r;
    while k < w
        invariant
            r <= k <= w,
            w == ws_run_end(s@, r as int),
            w <= s@.len(),
            n == s@.len(),
            forall|m: int| r < m <= k ==> !#[trigger] version_at(s@, m),
        decreases w - k,
    {
        let t = k + 1;
        let u = digit_run_end_exec(s, t);
        if u > t && u < n && n - u >= 2 && s[u] == '.' && decimal_digit(s[u + 1]) {
            assert(version_at(s@, t as int));
            return true;
        }
        k = t;
    }
    false
}

fn deprecated_in_at_exec(s: &Vec<char>, i: usize) -> (b: bool)
    requires
        i <= s@.len(),
    ensures
        b == deprecated_in_at(s@, i as int),
{
    proof {
        reveal_strlit("deprecated");
        reveal_strlit("in");
        reveal_strlit("with");
        reveal_strlit("for");
    }
    let n = s.len();
    if !word_boundary_exec(s, i) || !ci_match_at_exec(s, i, "deprecated") {
        return false;
    }
    assert(i + 10 <= n);
    let q = skip_ws(s, i + 10);
    if q <= i + 10 {
        return false;
    }
    let r: usize = if ci_match_at_exec(s, q, "in") {
        q + 2
    } else if ci_match_at_exec(s, q, "with") {
        q + 4
    } else if ci_match_at_exec(s, q, "for") {
        q + 3
    } else {
        return false;
    };
    version_after_exec(s, r)
}

fn deprecated_end_at_exec(s: &Vec<char>, i: usize) -> (b: bool)
    requires
        i <= s@.len(),
    ensures
        b == deprecated_end_at(s@, i as int),
{
    proof {
        reveal_strlit("deprecated");
    }
    let n = s.len();
    if !word_boundary_exec(s, i) || !ci_match_at_exec(s, i, "deprecated") {
        return false;
    }
    assert(i + 10 <= n);
    if skip_ws(s, i + 10) == n {
        return true;
    }
    i + 10 < n && s[i + 10] == '.' && skip_ws(s, i + 11) == n
}

/// Whether a description marks the item as deprecated.
pub fn deprecated_chars(s: &Vec<char>) -> (b: bool)
    ensures
        b == deprecated_text(s@),
{
    let n = s.len();
    let mut i: usize = 0;
    while i < n
        invariant
            n == s@.len(),
            i <= s@.len(),
            forall|k: int| 0 <= k < i ==> !#[trigger] match_at(s@, k, "**Deprecated"@),
            forall|k: int| 0 <= k < i ==> !#[trigger] deprecated_in_at(s@, k),
            forall|k: int| 0 <= k < i ==> !#[trigger] deprecated_end_at(s@, k),
        decreases s@.len() + 1 - i,
    {
        if match_at_exec(s, i, "**Deprecated") || deprecated_in_at_exec(s, i)
            || deprecated_end_at_exec(s, i) {
            return true;
        }
        i = i + 1;
    }
    if match_at_exec(s, n, "**Deprecated") || deprecated_in_at_exec(s, n) || deprecated_end_at_exec(
        s,
        n,
    ) {
        return true;
    }
    false
}


/// Whether `line[r..]` can close a type heading: white space only, or
/// white space, a `[`..`]` group, then white space
/// (`(?:\s+\[.*\])?\s*$`).
pub open spec fn heading_tail(line: Seq<char>, r: int) -> bool {
    let t = ws_run_end(line, r);
    let e = ws_back(line, line.len() as int) - 1;
    t == line.len() || (t > r && line[t] == '[' && e > t && line[e] == ']')
}

/// The end of the shortest heading name that starts before `r`.
pub open spec fn heading_end(line: Seq<char>, r: int) -> int
    decreases line.len() - r,
{
    if r >= line.len() {
        line.len() as int
    } else if heading_tail(line, r) {
        r
    } else {
        heading_end(line, r + 1)
    }
}

/// The type name of a heading line `# Name [optional]`
/// (`^#\s+(.+?)(?:\s+\[.*\])?\s*$`), trimmed.
pub open spec fn heading_name(line: Seq<char>) -> Option<Seq<char>> {
    if line.len() == 0 || line[0] != '#' {
        None
    } else {
        let w = ws_run_end(line, 1);
        if w == 1 {
            None
        } else if w < line.len() {
            Some(trim(line.subrange(w, heading_end(line, w + 1))))
        } else if w >= 3 {
            Some(trim(line.subrange(line.len() - 1, line.len() as int)))
        } else {
            None
        }
    }
}

/// The type name stated by the first line of a markdown file.
pub open spec fn type_name_of(content: Seq<char>) -> Option<Seq<char>> {
    let ls = lines(content);
    if ls.len() == 0 {
        None
    } else {
        heading_name(ls[0])
    }
}

fn heading_tail_exec(line: &Vec<char>, r: usize) -> (b: bool)
    requires
        r <= line@.len(),
    ensures
        b == heading_tail(line@, r as int),
{
    let n = line.len();
    let t = skip_ws(line, r);
    if t == n {
        return true;
    }
    let mut e = n;
    while e > 0 && white_space(line[e - 1])
        invariant
            e <= n == line@.len(),
            ws_back(line@, n as int) == ws_back(line@, e as int),
        decreases e,
    {
        e = e - 1;
    }
    if e == 0 {
        return false;
    }
    t > r && line[t] == '[' && e - 1 > t && line[e - 1] == ']'
}

fn first_line(content: &Vec<char>) -> (r: Option<Vec<char>>)
    ensures
        match r {
            Some(l) => lines(content@).len() > 0 && l@ == lines(content@)[0],
            None => lines(content@).len() == 0,
        },
{
    if content.len() == 0 {
        return None;
    }
    let j = find_char(content, '\n', 0);
    if j >= content.len() {
        Some(copy_chars(content))
    } else {
        let mut l = slice_chars(content, 0, j);
        if l.len() > 0 && l[l.len() - 1] == '\r' {
            l.pop();
        }
        assert(l@ =~= crate::text::strip_cr(content@.subrange(0, j as int)));
        Some(l)
    }
}

/// The type name in the first line of a markdown file, if it is a
/// heading `# Name`.
pub fn type_name_chars(content: &Vec<char>) -> (r: Option<Vec<char>>)
    ensures
        match type_name_of(content@) {
            Some(name) => r matches Some(v) && v@ == name,
            None => r is None,
        },
{
    let line = match first_line(content) {
        Some(l) => l,
        None => {
            return None;
        },
    };
    let n = line.len();
    if n == 0 || line[0] != '#' {
        return None;
    }
    let w = skip_ws(&line, 1);
    if w == 1 {
        return None;
    }
    if w < n {
        let mut r = w + 1;
        while r < n && !heading_tail_exec(&line, r)
            invariant
                w < r <= n == line@.len(),
                heading_end(line@, w + 1) == heading_end(line@, r as int),
            decreases n - r,
        {
            r = r + 1;
        }
        Some(trim_chars(&slice_chars(&line, w, r)))
    } else if w >= 3 {
        Some(trim_chars(&slice_chars(&line, n - 1, n)))
    } else {
        None
    }
}

/// The description lines from `ls[k..]`: trimmed, from the first non-blank
/// one up to the first `## ` or `### ` heading.
pub open spec fn desc_lines(ls: Seq<Seq<char>>, k: int, started: bool, acc: Seq<Seq<char>>) -> Seq<
    Seq<char>,
>
    decreases ls.len() - k,
{
    if k < 0 || k >= ls.len() {
        acc
    } else {
        let st = trim(ls[k]);
        if starts_with(st, "### "@) || starts_with(st, "## "@) {
            acc
        } else {
            let now = started || st.len() > 0;
            desc_lines(
                ls,
                k + 1,
                now,
                if now {
                    acc.push(st)
                } else {
                    acc
                },
            )
        }
    }
}

/// The description of a type: the text between the heading and the first
/// sub-heading, lines trimmed and joined by spaces.
pub open spec fn description_of(content: Seq<char>) -> Seq<char> {
    trim(join_with(desc_lines(lines(content), 1, false, Seq::empty()), seq![' ']))
}

pub fn description_chars(content: &Vec<char>) -> (r: Vec<char>)
    ensures
        r@ == description_of(content@),
{
    let ls = split_lines(content);
    let ghost all = char_views(ls@);
    let mut acc: Vec<Vec<char>> = Vec::new();
    let mut started = false;
    let mut k: usize = 1;
    assert(char_views(acc@) =~= Seq::<Seq<char>>::empty());
    while k < ls.len()
        invariant
            1 <= k,
            all == char_views(ls@),
            all == lines(content@),
            desc_lines(all, 1, false, Seq::empty()) == desc_lines(
                all,
                k as int,
                started,
                char_views(acc@),
            ),
        ensures
            desc_lines(all, 1, false, Seq::empty()) == char_views(acc@),
        decreases ls@.len() - k,
    {
        let st = trim_chars(&ls[k]);
        if chars_starts_with(&st, "### ") || chars_starts_with(&st, "## ") {
            break;
        }
        started = started || st.len() > 0;
        if started {
            let ghost before = acc@;
            acc.push(st);
            assert(char_views(acc@) =~= char_views(before).push(trim(all[k as int])));
        }
        k = k + 1;
    }
    let joined = join_chars(&acc, ' ');
    trim_chars(&joined)
}

/// The end of a `### Properties` heading at `i` (`### Properties\s*\n`):
/// just past the last line feed of the white space that follows it.
pub open spec fn props_heading_at(s: Seq<char>, i: int) -> Option<int> {
    if match_at(s, i, "### Properties"@) {
        let nl = prev_index_of(s, '\n', ws_run_end(s, i + 14));
        if nl >= i + 14 {
            Some(nl + 1)
        } else {
            None
        }
    } else {
        None
    }
}

/// The end of the first `### Properties` heading at or after `i`.
pub open spec fn props_heading_from(s: Seq<char>, i: int) -> Option<int>
    decreases s.len() + 1 - i,
{
    if i < 0 || i > s.len() {
        None
    } else {
        match props_heading_at(s, i) {
            Some(e) => Some(e),
            None => props_heading_from(s, i + 1),
        }
    }
}

pub fn find_props_heading(s: &Vec<char>) -> (r: Option<usize>)
    ensures
        r matches Some(x) ==> x <= s@.len() && props_heading_from(s@, 0) == Some(x as int),
        r is None ==> props_heading_from(s@, 0) is None,
{
    proof {
        reveal_strlit("### Properties");
    }
    let n = s.len();
    let mut i: usize = 0;
    while i <= n
        invariant
            n == s@.len(),
            i <= n + 1,
            props_heading_from(s@, 0) == props_heading_from(s@, i as int),
        decreases n + 1 - i,
    {
        proof {
            reveal_strlit("### Properties");
        }
        if match_at_exec(s, i, "### Properties") {
            assert(i + 14 <= n);
            let w = skip_ws(s, i + 14);
            let head = slice_chars(s, 0, w);
            match rfind_char(&head, '\n') {
                Some(nl) => {
                    assert(head@ =~= s@.subrange(0, w as int));
                    assert(prev_index_of(s@, '\n', w as int) == prev_index_of(head@, '\n', w as int))
                        by {
                        lemma_prev_index_prefix(s@, w as int, w as int);
                    }
                    if nl >= i + 14 {
                        assert(nl < w);
                        return Some(nl + 1);
                    }
                },
                None => {
                    assert(prev_index_of(s@, '\n', w as int) == prev_index_of(head@, '\n', w as int))
                        by {
                        lemma_prev_index_prefix(s@, w as int, w as int);
                    }
                },
            }
        }
        if i == n {
            assert(props_heading_from(s@, n + 1) is None);
            return None;
        }
        i = i + 1;
    }
    None
}

/// The last `c` before `j` is the same in `s` and in its prefix of length
/// `w >= j`.
pub proof fn lemma_prev_index_prefix(s: Seq<char>, w: int, j: int)
    requires
        0 <= j <= w <= s.len(),
    ensures
        prev_index_of(s, '\n', j) == prev_index_of(s.subrange(0, w), '\n', j),
    decreases j,
{
    if j > 0 {
        lemma_prev_index_prefix(s, w, j - 1);
    }
}

/// Whether `p` occurs in `s`.
pub open spec fn contains_seq(s: Seq<char>, p: Seq<char>) -> bool {
    exists|i: int| 0 <= i <= s.len() && #[trigger] match_at(s, i, p)
}

fn contains_exec(s: &Vec<char>, p: &str) -> (b: bool)
    ensures
        b == contains_seq(s@, p@),
{
    let n = s.len();
    let mut i: usize = 0;
    while i < n
        invariant
            n == s@.len(),
            i <= n,
            forall|k: int| 0 <= k < i ==> !#[trigger] match_at(s@, k, p@),
        decreases n - i,
    {
        if match_at_exec(s, i, p) {
            return true;
        }
        i = i + 1;
    }
    match_at_exec(s, n, p)
}

/// The rows of the properties table among the lines `ls[k..]`: the lines
/// after the separator line (a `|` line holding `---`) that start with
/// `|`, trimmed, up to the first blank or other line after it.
pub open spec fn table_rows(ls: Seq<Seq<char>>, k: int, found: bool, acc: Seq<Seq<char>>) -> Seq<
    Seq<char>,
>
    decreases ls.len() - k,
{
    if k < 0 || k >= ls.len() {
        acc
    } else {
        let st = trim(ls[k]);
        if st.len() == 0 {
            if found {
                acc
            } else {
                table_rows(ls, k + 1, found, acc)
            }
        } else if !found && st[0] == '|' && contains_seq(st, "---"@) {
            table_rows(ls, k + 1, true, acc)
        } else if !found && st[0] == '|' {
            table_rows(ls, k + 1, found, acc)
        } else if found && st[0] == '|' {
            table_rows(ls, k + 1, found, acc.push(st))
        } else if found {
            acc
        } else {
            table_rows(ls, k + 1, found, acc)
        }
    }
}

/// The rows of the properties table of a markdown file (none when it has
/// no `### Properties` heading).
pub open spec fn property_rows(content: Seq<char>) -> Seq<Seq<char>> {
    match props_heading_from(content, 0) {
        Some(e) => table_rows(lines(content.subrange(e, content.len() as int)), 0, false, Seq::empty()),
        None => Seq::empty(),
    }
}

pub fn table_rows_exec(content: &Vec<char>) -> (r: Vec<Vec<char>>)
    ensures
        char_views(r@) == property_rows(content@),
{
    let e = match find_props_heading(content) {
        Some(e) => e,
        None => {
            return Vec::new();
        },
    };
    let ls = split_lines(&slice_chars(content, e, content.len()));
    let ghost all = char_views(ls@);
    let mut acc: Vec<Vec<char>> = Vec::new();
    let mut found = false;
    let mut k: usize = 0;
    assert(char_views(acc@) =~= Seq::<Seq<char>>::empty());
    while k < ls.len()
        invariant
            all == char_views(ls@),
            all == lines(content@.subrange(e as int, content@.len() as int)),
            property_rows(content@) == table_rows(all, k as int, found, char_views(acc@)),
        ensures
            property_rows(content@) == char_views(acc@),
        decreases ls@.len() - k,
    {
        let st = trim_chars(&ls[k]);
        if st.len() == 0 {
            if found {
                break;
            }
        } else if !found && st[0] == '|' && contains_exec(&st, "---") {
            found = true;
        } else if !found && st[0] == '|' {
        } else if found && st[0] == '|' {
            let ghost before = acc@;
            acc.push(st);
            assert(char_views(acc@) =~= char_views(before).push(trim(all[k as int])));
        } else if found {
            break;
        }
        k = k + 1;
    }
    acc
}

/// `cells` without an empty first cell and an empty last cell.
pub open spec fn drop_empty_ends(c: Seq<Seq<char>>) -> Seq<Seq<char>> {
    let c1 = if c.len() > 0 && c[0].len() == 0 {
        c.drop_first()
    } else {
        c
    };
    if c1.len() > 0 && c1.last().len() == 0 {
        c1.drop_last()
    } else {
        c1
    }
}

/// The trimmed cells of a table row.
pub open spec fn row_cells(row: Seq<char>) -> Seq<Seq<char>> {
    drop_empty_ends(trim_each(split(row, '|')))
}

pub fn row_cells_exec(row: &Vec<char>) -> (r: Vec<Vec<char>>)
    ensures
        char_views(r@) == row_cells(row@),
{
    let mut cells = trim_each_exec(&split_chars(row, '|'));
    let ghost c = char_views(cells@);
    if cells.len() > 0 && cells[0].len() == 0 {
        cells.remove(0);
        assert(char_views(cells@) =~= c.drop_first());
    }
    let ghost c1 = char_views(cells@);
    if cells.len() > 0 && cells[cells.len() - 1].len() == 0 {
        cells.pop();
        assert(char_views(cells@) =~= c1.drop_last());
    }
    cells
}


/// Just past the last line feed of the white space at `x` (`\s*\n`).
pub open spec fn past_line_break(s: Seq<char>, x: int) -> Option<int> {
    let nl = prev_index_of(s, '\n', ws_run_end(s, x));
    if nl >= x {
        Some(nl + 1)
    } else {
        None
    }
}

/// The first index at or after `i` where `p` occurs.
pub open spec fn seq_index_from(s: Seq<char>, p: Seq<char>, i: int) -> Option<int>
    decreases s.len() + 1 - i,
{
    if i < 0 || i > s.len() {
        None
    } else if match_at(s, i, p) {
        Some(i)
    } else {
        seq_index_from(s, p, i + 1)
    }
}

/// A JSON code block opened at `j`: a "```json" fence, white space up to a
/// line feed, then the body (start, end) up to the next "```".
pub open spec fn code_block_at(s: Seq<char>, j: int) -> Option<(int, int)> {
    if match_at(s, j, "```json"@) {
        match past_line_break(s, j + 7) {
            Some(m) => match seq_index_from(s, "```"@, m) {
                Some(e) => Some((m, e)),
                None => None,
            },
            None => None,
        }
    } else {
        None
    }
}

/// The first JSON code block that opens at or after `t`.
pub open spec fn first_code_block(s: Seq<char>, t: int) -> Option<(int, int)>
    decreases s.len() + 1 - t,
{
    if t < 0 || t > s.len() {
        None
    } else {
        match code_block_at(s, t) {
            Some(b) => Some(b),
            None => first_code_block(s, t + 1),
        }
    }
}

/// What follows an example name that ends at `r`: white space up to a line
/// feed, then (after anything) the first JSON code block.
pub open spec fn name_tail(s: Seq<char>, r: int) -> Option<(int, int)> {
    match past_line_break(s, r) {
        Some(t) => first_code_block(s, t),
        None => None,
    }
}

/// The first end at or after `r` of an example name (the name is lazy).
pub open spec fn name_end_from(s: Seq<char>, r: int) -> Option<int>
    decreases s.len() + 1 - r,
{
    if r < 0 || r > s.len() {
        None
    } else if name_tail(s, r) is Some {
        Some(r)
    } else {
        name_end_from(s, r + 1)
    }
}

/// The span of an example name after `Example:` at `p`: it starts after as
/// much of the white space `s[p..q]` as lets the rest match, and is as
/// short as possible.
pub open spec fn name_span(s: Seq<char>, p: int, q: int) -> Option<(int, int)>
    decreases q - p + 1,
{
    if q < p {
        None
    } else {
        match name_end_from(s, q + 1) {
            Some(r) => Some((q, r)),
            None => name_span(s, p, q - 1),
        }
    }
}

/// An example block that starts at `i`
/// (`(?s)####\s+Example:\s*(.+?)\s*\n.*?```json\s*\n(.*?)````): the spans
/// of its name and of its JSON text.
pub open spec fn example_at(s: Seq<char>, i: int) -> Option<(int, int, int, int)> {
    if match_at(s, i, "####"@) {
        let b = ws_run_end(s, i + 4);
        if b > i + 4 && match_at(s, b, "Example:"@) {
            match name_span(s, b + 8, ws_run_end(s, b + 8)) {
                Some((q, r)) => match name_tail(s, r) {
                    Some((m, e)) => Some((q, r, m, e)),
                    None => None,
                },
                None => None,
            }
        } else {
            None
        }
    } else {
        None
    }
}

pub proof fn lemma_seq_index_from(s: Seq<char>, p: Seq<char>, i: int)
    ensures
        seq_index_from(s, p, i) matches Some(k) ==> i <= k <= s.len() && match_at(s, k, p),
    decreases s.len() + 1 - i,
{
    if 0 <= i <= s.len() && !match_at(s, i, p) {
        lemma_seq_index_from(s, p, i + 1);
    }
}

pub proof fn lemma_first_code_block(s: Seq<char>, t: int)
    ensures
        first_code_block(s, t) matches Some((m, e)) ==> t < m <= e <= s.len(),
    decreases s.len() + 1 - t,
{
    if 0 <= t <= s.len() {
        match code_block_at(s, t) {
            Some((m, e)) => {
                lemma_ws_run_end_bounds(s, t + 7);
                lemma_seq_index_from(s, "```"@, m);
            },
            None => {
                lemma_first_code_block(s, t + 1);
            },
        }
    }
}

pub proof fn lemma_name_end_from(s: Seq<char>, r: int)
    ensures
        name_end_from(s, r) matches Some(x) ==> r <= x <= s.len() && name_tail(s, x) is Some,
    decreases s.len() + 1 - r,
{
    if 0 <= r <= s.len() && name_tail(s, r) is None {
        lemma_name_end_from(s, r + 1);
    }
}

pub proof fn lemma_name_span(s: Seq<char>, p: int, q: int)
    ensures
        name_span(s, p, q) matches Some((a, r)) ==> p <= a < r <= s.len() && name_tail(s, r) is Some,
    decreases q - p + 1,
{
    if q >= p {
        lemma_name_end_from(s, q + 1);
        lemma_name_span(s, p, q - 1);
    }
}

/// An example block ends after it starts.
pub proof fn lemma_example_at(s: Seq<char>, i: int)
    ensures
        example_at(s, i) matches Some((q, r, m, e)) ==> i < q < r < m <= e <= s.len(),
{
    if match_at(s, i, "####"@) {
        let b = ws_run_end(s, i + 4);
        if b > i + 4 && match_at(s, b, "Example:"@) {
            lemma_name_span(s, b + 8, ws_run_end(s, b + 8));
            match name_span(s, b + 8, ws_run_end(s, b + 8)) {
                Some((q, r)) => {
                    if r <= s.len() {
                        lemma_ws_run_end_bounds(s, r);
                    }
                    match past_line_break(s, r) {
                        Some(t) => {
                            lemma_first_code_block(s, t);
                        },
                        None => {},
                    }
                },
                None => {},
            }
        }
    }
}

/// The (name, JSON text) spans of the example blocks in `s[i..]`, found
/// left to right without overlap.
pub open spec fn example_spans_from(s: Seq<char>, i: int) -> Seq<(int, int, int, int)>
    decreases s.len() + 3 - i,
{
    if i < 0 || i >= s.len() {
        Seq::empty()
    } else {
        match example_at(s, i) {
            Some((q, r, m, e)) => {
                proof {
                    lemma_example_at(s, i);
                }
                seq![(q, r, m, e)] + example_spans_from(s, e + 3)
            },
            None => example_spans_from(s, i + 1),
        }
    }
}


fn past_line_break_exec(s: &Vec<char>, x: usize) -> (r: Option<usize>)
    requires
        x <= s@.len(),
    ensures
        match r {
            Some(t) => past_line_break(s@, x as int) == Some(t as int) && t <= s@.len(),
            None => past_line_break(s@, x as int) is None,
        },
{
    let w = skip_ws(s, x);
    match prev_index_exec(s, '\n', w) {
        Some(nl) => {
            if nl >= x {
                Some(nl + 1)
            } else {
                None
            }
        },
        None => None,
    }
}

fn seq_index_exec(s: &Vec<char>, p: &str, i: usize) -> (r: Option<usize>)
    requires
        i <= s@.len(),
    ensures
        match r {
            Some(k) => seq_index_from(s@, p@, i as int) == Some(k as int),
            None => seq_index_from(s@, p@, i as int) is None,
        },
{
    let n = s.len();
    let mut k = i;
    while k <= n
        invariant
            i <= k <= n + 1,
            n == s@.len(),
            seq_index_from(s@, p@, i as int) == seq_index_from(s@, p@, k as int),
        decreases n + 1 - k,
    {
        if match_at_exec(s, k, p) {
            return Some(k);
        }
        if k == n {
            assert(seq_index_from(s@, p@, n + 1) is None);
            return None;
        }
        k = k + 1;
    }
    None
}

fn code_block_exec(s: &Vec<char>, j: usize) -> (r: Option<(usize, usize)>)
    requires
        j <= s@.len(),
    ensures
        match r {
            Some((m, e)) => code_block_at(s@, j as int) == Some((m as int, e as int)),
            None => code_block_at(s@, j as int) is None,
        },
{
    proof {
        reveal_strlit("```json");
    }
    if !match_at_exec(s, j, "```json") {
        return None;
    }
    let n = s.len();
    assert(j + 7 <= n);
    match past_line_break_exec(s, j + 7) {
        Some(m) => match seq_index_exec(s, "```", m) {
            Some(e) => Some((m, e)),
            None => None,
        },
        None => None,
    }
}

fn first_code_block_exec(s: &Vec<char>, t: usize) -> (r: Option<(usize, usize)>)
    requires
        t <= s@.len(),
    ensures
        match r {
            Some((m, e)) => first_code_block(s@, t as int) == Some((m as int, e as int)),
            None => first_code_block(s@, t as int) is None,
        },
{
    let n = s.len();
    let mut k = t;
    while k <= n
        invariant
            t <= k <= n + 1,
            n == s@.len(),
            first_code_block(s@, t as int) == first_code_block(s@, k as int),
        decreases n + 1 - k,
    {
        match code_block_exec(s, k) {
            Some(b) => {
                return Some(b);
            },
            None => {},
        }
        if k == n {
            assert(first_code_block(s@, n + 1) is None);
            return None;
        }
        k = k + 1;
    }
    None
}

fn name_tail_exec(s: &Vec<char>, r: usize) -> (res: Option<(usize, usize)>)
    requires
        r <= s@.len(),
    ensures
        match res {
            Some((m, e)) => name_tail(s@, r as int) == Some((m as int, e as int)),
            None => name_tail(s@, r as int) is None,
        },
{
    match past_line_break_exec(s, r) {
        Some(t) => first_code_block_exec(s, t),
        None => None,
    }
}

fn name_end_exec(s: &Vec<char>, r0: usize) -> (res: Option<usize>)
    requires
        r0 <= s@.len(),
    ensures
        match res {
            Some(x) => name_end_from(s@, r0 as int) == Some(x as int),
            None => name_end_from(s@, r0 as int) is None,
        },
{
    let n = s.len();
    let mut r = r0;
    while r <= n
        invariant
            r0 <= r <= n + 1,
            n == s@.len(),
            name_end_from(s@, r0 as int) == name_end_from(s@, r as int),
        decreases n + 1 - r,
    {
        if name_tail_exec(s, r).is_some() {
            return Some(r);
        }
        if r == n {
            assert(name_end_from(s@, n + 1) is None);
            return None;
        }
        r = r + 1;
    }
    None
}

fn name_span_exec(s: &Vec<char>, p: usize, q0: usize) -> (res: Option<(usize, usize)>)
    requires
        p <= q0 <= s@.len(),
    ensures
        match res {
            Some((a, b)) => name_span(s@, p as int, q0 as int) == Some((a as int, b as int)),
            None => name_span(s@, p as int, q0 as int) is None,
        },
{
    let n = s.len();
    let mut q = q0;
    loop
        invariant
            p <= q <= q0 <= n,
            n == s@.len(),
            name_span(s@, p as int, q0 as int) == name_span(s@, p as int, q as int),
        decreases q,
    {
        if q < n {
            match name_end_exec(s, q + 1) {
                Some(r) => {
                    return Some((q, r));
                },
                None => {},
            }
        } else {
            assert(name_end_from(s@, q + 1) is None);
        }
        if q == p {
            assert(name_span(s@, p as int, p - 1) is None);
            return None;
        }
        q = q - 1;
    }
}

fn example_at_exec(s: &Vec<char>, i: usize) -> (res: Option<(usize, usize, usize, usize)>)
    requires
        i <= s@.len(),
    ensures
        match res {
            Some((q, r, m, e)) => example_at(s@, i as int) == Some(
                (q as int, r as int, m as int, e as int),
            ),
            None => example_at(s@, i as int) is None,
        },
{
    proof {
        reveal_strlit("####");
        reveal_strlit("Example:");
    }
    let n = s.len();
    if !match_at_exec(s, i, "####") {
        return None;
    }
    let b = skip_ws(s, i + 4);
    if !(b > i + 4 && match_at_exec(s, b, "Example:")) {
        return None;
    }
    let w = skip_ws(s, b + 8);
    match name_span_exec(s, b + 8, w) {
        Some((q, r)) => {
            proof {
                lemma_name_span(s@, b + 8, w as int);
                lemma_name_end_from(s@, q + 1);
            }
            assert(r <= n);
            match name_tail_exec(s, r) {
                Some((m, e)) => Some((q, r, m, e)),
                None => None,
            }
        },
        None => None,
    }
}

/// The (name, JSON text) spans of the example blocks of `s`.
pub fn example_spans(s: &Vec<char>) -> (r: Vec<(usize, usize, usize, usize)>)
    ensures
        r@.len() == example_spans_from(s@, 0).len(),
        forall|k: int|
            0 <= k < r@.len() ==> {
                let (q, r1, m, e) = #[trigger] r@[k];
                example_spans_from(s@, 0)[k] == (q as int, r1 as int, m as int, e as int)
            },
{
    let n = s.len();
    let ghost all = example_spans_from(s@, 0);
    let mut out: Vec<(usize, usize, usize, usize)> = Vec::new();
    let mut i: usize = 0;
    while i < n
        invariant
            n == s@.len(),
            all == example_spans_from(s@, 0),
            out@.len() <= all.len(),
            forall|k: int|
                0 <= k < out@.len() ==> {
                    let (q, r1, m, e) = #[trigger] out@[k];
                    all[k] == (q as int, r1 as int, m as int, e as int)
                },
            all == all.take(out@.len() as int) + example_spans_from(s@, i as int),
        decreases n - i,
    {
        match example_at_exec(s, i) {
            Some((q, r, m, e)) => {
                proof {
                    lemma_example_at(s@, i as int);
                }
                let ghost k = out@.len() as int;
                assert(example_spans_from(s@, i as int) == seq![(q as int, r as int, m as int, e as int)]
                    + example_spans_from(s@, e + 3));
                out.push((q, r, m, e));
                assert(all.take(k + 1) =~= all.take(k).push(all[k]));
                if e >= n - 2 {
                    assert(example_spans_from(s@, e + 3) =~= Seq::<(int, int, int, int)>::empty());
                    assert(all.take(out@.len() as int) =~= all);
                    return out;
                }
                i = e + 3;
            },
            None => {
                i = i + 1;
            },
        }
    }
    assert(example_spans_from(s@, i as int) =~= Seq::<(int, int, int, int)>::empty());
    assert(all.take(out@.len() as int) =~= all);
    out
}


/// The spans found from `i` lie inside `s`, each name and JSON text in
/// order.
pub proof fn lemma_example_spans(s: Seq<char>, i: int, k: int)
    requires
        0 <= k < example_spans_from(s, i).len(),
    ensures
        ({
            let (q, r, m, e) = example_spans_from(s, i)[k];
            0 <= q <= r <= m <= e <= s.len()
        }),
    decreases s.len() + 3 - i,
{
    if 0 <= i < s.len() {
        match example_at(s, i) {
            Some((q, r, m, e)) => {
                lemma_example_at(s, i);
                if k > 0 {
                    lemma_example_spans(s, e + 3, k - 1);
                }
            },
            None => {
                lemma_example_spans(s, i + 1, k);
            },
        }
    }
}

/// Whether an example block starts somewhere in `s[i..]`.
pub open spec fn example_after(s: Seq<char>, i: int) -> bool {
    exists|p: int| i <= p < s.len() && #[trigger] example_at(s, p) is Some
}

/// `x` is the first example block that starts in `s[j..]`.
pub open spec fn first_example(s: Seq<char>, j: int, x: (int, int, int, int)) -> bool {
    exists|p: int|
        j <= p < s.len() && #[trigger] example_at(s, p) == Some(x) && forall|p2: int|
            j <= p2 < p ==> #[trigger] example_at(s, p2) is None
}

/// The example blocks are all found, in order and without overlap: none in
/// a text where no block starts; otherwise the first block that starts,
/// then each time the first block that starts after the end of the one
/// before; and after the last one found no further block starts.
pub proof fn lemma_examples_complete(s: Seq<char>, i: int)
    requires
        0 <= i,
    ensures
        example_spans_from(s, i).len() == 0 <==> !example_after(s, i),
        example_spans_from(s, i).len() > 0 ==> first_example(s, i, example_spans_from(s, i)[0]),
        forall|k: int|
            0 <= k < example_spans_from(s, i).len() - 1 ==> first_example(
                s,
                (#[trigger] example_spans_from(s, i)[k]).3 + 3,
                example_spans_from(s, i)[k + 1],
            ),
        example_spans_from(s, i).len() > 0 ==> !example_after(
            s,
            example_spans_from(s, i).last().3 + 3,
        ),
    decreases s.len() + 3 - i,
{
    let r = example_spans_from(s, i);
    if i >= s.len() {
        assert(!example_after(s, i));
    } else {
        match example_at(s, i) {
            Some((q, rr, m, e)) => {
                lemma_example_at(s, i);
                lemma_examples_complete(s, e + 3);
                let rest = example_spans_from(s, e + 3);
                assert(r == seq![(q, rr, m, e)] + rest);
                assert(example_at(s, i) is Some);
                assert(example_after(s, i));
                assert(first_example(s, i, r[0])) by {
                    assert(example_at(s, i) == Some(r[0]));
                }
                if rest.len() == 0 {
                    assert(r.last() == (q, rr, m, e));
                } else {
                    assert(r.last() == rest.last());
                }
                assert forall|k: int| 0 <= k < r.len() - 1 implies first_example(
                    s,
                    (#[trigger] r[k]).3 + 3,
                    r[k + 1],
                ) by {
                    if k == 0 {
                        assert(r[1] == rest[0]);
                    } else {
                        assert(r[k] == rest[k - 1] && r[k + 1] == rest[k]);
                    }
                }
            },
            None => {
                lemma_examples_complete(s, i + 1);
                assert(r == example_spans_from(s, i + 1));
                assert(example_after(s, i) == example_after(s, i + 1)) by {
                    if example_after(s, i) {
                        let p = choose|p: int| i <= p < s.len() && #[trigger] example_at(s, p) is Some;
                        assert(p != i);
                    }
                }
                if r.len() > 0 {
                    let p = choose|p: int|
                        i + 1 <= p < s.len() && #[trigger] example_at(s, p) == Some(r[0]) && forall|
                            p2: int,
                        | i + 1 <= p2 < p ==> #[trigger] example_at(s, p2) is None;
                    assert forall|p2: int| i <= p2 < p implies #[trigger] example_at(s, p2) is None by {
                        if p2 > i {
                            assert(i + 1 <= p2 < p);
                        }
                    }
                    assert(first_example(s, i, r[0]));
                }
            },
        }
    }
}

/// A description that holds `**Deprecated` anywhere marks its subject as
/// deprecated, whatever surrounds it.
pub proof fn lemma_bold_deprecated(a: Seq<char>, b: Seq<char>)
    ensures
        deprecated_text(a + "**Deprecated"@ + b),
{
    let s = a + "**Deprecated"@ + b;
    let p = "**Deprecated"@;
    assert(s.subrange(a.len() as int, (a.len() + p.len()) as int) =~= p);
    assert(match_at(s, a.len() as int, p));
}

} // verus!

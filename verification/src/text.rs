//! Character-level text operations shared by the markdown reader, the
//! schema writer and the validator.

use vstd::prelude::*;

verus! {

/// Unicode `White_Space`: the characters that `str::trim` removes and that
/// `\s` matches.
pub open spec fn is_white_space(c: char) -> bool {
    let n = c as u32;
    (9 <= n <= 13) || n == 32 || n == 0x85 || n == 0xa0 || n == 0x1680 || (0x2000 <= n
        <= 0x200a) || n == 0x2028 || n == 0x2029 || n == 0x202f || n == 0x205f || n == 0x3000
}

pub fn white_space(c: char) -> (r: bool)
    ensures
        r == is_white_space(c),
{
    let n = c as u32;
    (9 <= n && n <= 13) || n == 32 || n == 0x85 || n == 0xa0 || n == 0x1680 || (0x2000 <= n
        && n <= 0x200a) || n == 0x2028 || n == 0x2029 || n == 0x202f || n == 0x205f || n
        == 0x3000
}

/// End of the maximal run of white space that starts at `i`.
pub open spec fn ws_run_end(s: Seq<char>, i: int) -> int
    decreases s.len() - i,
{
    if 0 <= i < s.len() && is_white_space(s[i]) {
        ws_run_end(s, i + 1)
    } else {
        i
    }
}

pub fn skip_ws(s: &Vec<char>, i: usize) -> (r: usize)
    requires
        i <= s@.len(),
    ensures
        r as int == ws_run_end(s@, i as int),
        i <= r <= s@.len(),
{
    let mut j = i;
    while j < s.len() && white_space(s[j])
        invariant
            i <= j <= s@.len(),
            ws_run_end(s@, i as int) == ws_run_end(s@, j as int),
        decreases s@.len() - j,
    {
        j = j + 1;
    }
    j
}

pub fn chars_of(s: &str) -> (r: Vec<char>)
    ensures
        r@ == s@,
{
    let mut v: Vec<char> = Vec::new();
    for c in it: s.chars()
        invariant
            v@ == it.seq().take(it.index() as int),
    {
        v.push(c);
    }
    v
}


pub fn chars_eq(a: &Vec<char>, b: &Vec<char>) -> (r: bool)
    ensures
        r == (a@ == b@),
{
    if a.len() != b.len() {
        return false;
    }
    let mut i: usize = 0;
    while i < a.len()
        invariant
            i <= a@.len() == b@.len(),
            forall|j: int| 0 <= j < i ==> a@[j] == b@[j],
        decreases a@.len() - i,
    {
        if a[i] != b[i] {
            return false;
        }
        i = i + 1;
    }
    assert(a@ =~= b@);
    true
}

pub fn str_eq(a: &str, b: &str) -> (r: bool)
    ensures
        r == (a@ == b@),
{
    chars_eq(&chars_of(a), &chars_of(b))
}


/// `parts` concatenated in order.
pub open spec fn concat_all<A>(parts: Seq<Seq<A>>) -> Seq<A>
    decreases parts.len(),
{
    if parts.len() == 0 {
        Seq::empty()
    } else {
        concat_all(parts.drop_last()) + parts.last()
    }
}

/// The views of a sequence of strings.
pub open spec fn texts(v: Seq<String>) -> Seq<Seq<char>> {
    v.map_values(|s: String| s@)
}

/// The views of a sequence of character vectors.
pub open spec fn char_views(v: Seq<Vec<char>>) -> Seq<Seq<char>> {
    v.map_values(|s: Vec<char>| s@)
}

/// The decimal digit for `d < 10`.
pub open spec fn digit_char(d: nat) -> char {
    ('0' as u32 + d) as char
}

/// The decimal text of `n`, as `Display` writes an unsigned integer.
pub open spec fn decimal(n: nat) -> Seq<char>
    decreases n,
{
    if n < 10 {
        seq![digit_char(n)]
    } else {
        decimal(n / 10).push(digit_char(n % 10))
    }
}

fn digit(d: u64) -> (c: char)
    requires
        d < 10,
    ensures
        c == digit_char(d as nat),
{
    let digits = ['0', '1', '2', '3', '4', '5', '6', '7', '8', '9'];
    let c = digits[d as usize];
    assert(c == digit_char(d as nat)) by {
        assert(digits@ =~= seq!['0', '1', '2', '3', '4', '5', '6', '7', '8', '9']);
    }
    c
}

/// Appends the decimal text of `n`.
pub fn write_decimal(n: u64, out: &mut Vec<char>)
    ensures
        final(out)@ == old(out)@ + decimal(n as nat),
    decreases n,
{
    if n >= 10 {
        write_decimal(n / 10, out);
    }
    out.push(digit(n % 10));
    assert(out@ =~= old(out)@ + decimal(n as nat));
}

/// Appends the characters of `s`.
pub fn push_str(out: &mut Vec<char>, s: &str)
    ensures
        final(out)@ == old(out)@ + s@,
{
    let t = chars_of(s);
    push_chars(out, &t);
}

/// Appends the characters of `t`.
pub fn push_chars(out: &mut Vec<char>, t: &Vec<char>)
    ensures
        final(out)@ == old(out)@ + t@,
{
    let mut i: usize = 0;
    while i < t.len()
        invariant
            i <= t@.len(),
            out@ == old(out)@ + t@.take(i as int),
        decreases t@.len() - i,
    {
        out.push(t[i]);
        i = i + 1;
        assert(t@.take(i as int) =~= t@.take(i - 1) + seq![t@[i - 1]]);
    }
    assert(t@.take(i as int) =~= t@);
}

#[verifier::external_body]
fn push_char(s: &mut String, c: char)
    ensures
        final(s)@ == old(s)@.push(c),
{
    s.push(c);
}

/// The string holding the characters of `v`.
pub fn string_of(v: &Vec<char>) -> (r: String)
    ensures
        r@ == v@,
{
    let mut r = String::new();
    let mut i: usize = 0;
    while i < v.len()
        invariant
            i <= v@.len(),
            r@ == v@.take(i as int),
        decreases v@.len() - i,
    {
        push_char(&mut r, v[i]);
        i = i + 1;
        assert(v@.take(i as int) =~= v@.take(i - 1).push(v@[i - 1]));
    }
    assert(v@.take(i as int) =~= v@);
    r
}

/// Appends a message to a list of messages.
pub fn push_message(list: &mut Vec<String>, m: &Vec<char>)
    ensures
        texts(final(list)@) == texts(old(list)@).push(m@),
{
    list.push(string_of(m));
    assert(texts(list@) =~= texts(old(list)@).push(m@));
}

/// What `format!("{:?}", s)` writes for a string slice: a quoted Rust
/// string literal with escapes.
pub uninterp spec fn debug_text(s: Seq<char>) -> Seq<char>;

/// `<str as Debug>::fmt`, through `format!("{:?}", s)`. Its result is named
/// `debug_text(s@)`. Of it the contract states only that printable ASCII
/// text holding no quote or backslash is written between double quotes
/// unchanged; the escapes of other characters are not stated.
#[verifier::external_body]
pub(crate) fn debug_str(s: &str) -> (r: String)
    ensures
        r@ == debug_text(s@),
        plain_ascii(s@) ==> r@ == seq!['"'] + s@ + seq!['"'],
{
    format!("{:?}", s)
}

/// Appends `debug_text(t)`.
pub fn push_debug(out: &mut Vec<char>, t: &Vec<char>)
    ensures
        final(out)@ == old(out)@ + debug_text(t@),
{
    let s = string_of(t);
    let d = debug_str(s.as_str());
    push_str(out, d.as_str());
}

/// What `str::to_lowercase` returns (Unicode lower-case mapping).
pub uninterp spec fn lowercase(s: Seq<char>) -> Seq<char>;

/// Printable ASCII characters other than the quotes and the backslash.
pub open spec fn plain_ascii(s: Seq<char>) -> bool {
    forall|i: int|
        0 <= i < s.len() ==> 0x20 <= (#[trigger] s[i] as u32) <= 0x7e && s[i] != '"' && s[i]
            != '\\' && s[i] != '\''
}

/// Every character of `s` is ASCII.
pub open spec fn all_ascii(s: Seq<char>) -> bool {
    forall|i: int| 0 <= i < s.len() ==> (#[trigger] s[i] as u32) < 128
}

/// `str::to_lowercase`. Its result is named `lowercase(s@)`; the Unicode
/// mapping itself is not stated, only that on ASCII text it lower-cases the
/// letters `A`-`Z` and keeps every other character.
#[verifier::external_body]
pub(crate) fn to_lowercase(s: &str) -> (r: String)
    ensures
        r@ == lowercase(s@),
        all_ascii(s@) ==> r@ == ascii_lower(s@),
{
    s.to_lowercase()
}


/// Index of the first `c` at or after `i`, or `s.len()` when there is none.
pub open spec fn next_index_of(s: Seq<char>, c: char, i: int) -> int
    decreases s.len() - i,
{
    if i < 0 {
        next_index_of(s, c, 0)
    } else if i >= s.len() {
        s.len() as int
    } else if s[i] == c {
        i
    } else {
        next_index_of(s, c, i + 1)
    }
}

pub proof fn lemma_next_index_bounds(s: Seq<char>, c: char, i: int)
    requires
        0 <= i,
    ensures
        i <= next_index_of(s, c, i) || (i > s.len() && next_index_of(s, c, i) == s.len()),
        next_index_of(s, c, i) <= s.len() || i > s.len(),
        0 <= next_index_of(s, c, i),
        next_index_of(s, c, i) < s.len() ==> s[next_index_of(s, c, i)] == c,
        forall|k: int| i <= k < next_index_of(s, c, i) && k < s.len() ==> s[k] != c,
    decreases s.len() - i,
{
    if i < s.len() && s[i] != c {
        lemma_next_index_bounds(s, c, i + 1);
    }
}

/// The pieces of `s[i..]` between occurrences of `c`, as `str::split`.
pub open spec fn split_from(s: Seq<char>, c: char, i: int) -> Seq<Seq<char>>
    decreases s.len() - i,
{
    if i < 0 || i > s.len() {
        Seq::empty()
    } else {
        let j = next_index_of(s, c, i);
        if j >= s.len() {
            seq![s.subrange(i, s.len() as int)]
        } else {
            proof {
                lemma_next_index_bounds(s, c, i);
            }
            seq![s.subrange(i, j)] + split_from(s, c, j + 1)
        }
    }
}

/// `s.split(c)`: there is always at least one piece.
pub open spec fn split(s: Seq<char>, c: char) -> Seq<Seq<char>> {
    split_from(s, c, 0)
}

/// `s.split(c)`, each piece as a vector of characters.
pub fn split_chars(s: &Vec<char>, c: char) -> (r: Vec<Vec<char>>)
    ensures
        char_views(r@) == split(s@, c),
{
    let mut pieces: Vec<Vec<char>> = Vec::new();
    let mut cur: Vec<char> = Vec::new();
    let mut start: usize = 0;
    let mut i: usize = 0;
    while i < s.len()
        invariant
            start <= i <= s@.len(),
            cur@ == s@.subrange(start as int, i as int),
            next_index_of(s@, c, start as int) == next_index_of(s@, c, i as int),
            split(s@, c) == char_views(pieces@) + split_from(s@, c, start as int),
        decreases s@.len() - i,
    {
        if s[i] == c {
            proof {
                lemma_next_index_bounds(s@, c, start as int);
                assert(split_from(s@, c, start as int) == seq![s@.subrange(start as int, i as int)]
                    + split_from(s@, c, i + 1));
            }
            let ghost old_pieces = pieces@;
            pieces.push(cur);
            assert(char_views(pieces@) =~= char_views(old_pieces).push(
                s@.subrange(start as int, i as int),
            ));
            assert(char_views(pieces@) + split_from(s@, c, i + 1) =~= char_views(old_pieces) + (
            seq![s@.subrange(start as int, i as int)] + split_from(s@, c, i + 1)));
            cur = Vec::new();
            i = i + 1;
            start = i;
            assert(cur@ =~= s@.subrange(start as int, i as int));
        } else {
            cur.push(s[i]);
            i = i + 1;
            assert(cur@ =~= s@.subrange(start as int, i as int));
        }
    }
    proof {
        lemma_next_index_bounds(s@, c, start as int);
        assert(split_from(s@, c, start as int) == seq![s@.subrange(start as int, s@.len() as int)]);
    }
    let ghost old_pieces = pieces@;
    pieces.push(cur);
    assert(char_views(pieces@) =~= char_views(old_pieces).push(
        s@.subrange(start as int, s@.len() as int),
    ));
    pieces
}


/// `s.starts_with(p)`.
pub open spec fn starts_with(s: Seq<char>, p: Seq<char>) -> bool {
    p.len() <= s.len() && s.subrange(0, p.len() as int) == p
}

/// `s.ends_with(p)`.
pub open spec fn ends_with(s: Seq<char>, p: Seq<char>) -> bool {
    p.len() <= s.len() && s.subrange(s.len() - p.len(), s.len() as int) == p
}

pub fn chars_starts_with(s: &Vec<char>, p: &str) -> (r: bool)
    ensures
        r == starts_with(s@, p@),
{
    let pc = chars_of(p);
    if pc.len() > s.len() {
        return false;
    }
    let mut i: usize = 0;
    while i < pc.len()
        invariant
            i <= pc@.len() <= s@.len(),
            pc@ == p@,
            forall|j: int| 0 <= j < i ==> s@[j] == pc@[j],
        decreases pc@.len() - i,
    {
        if s[i] != pc[i] {
            assert(s@.subrange(0, pc@.len() as int)[i as int] != pc@[i as int]);
            return false;
        }
        i = i + 1;
    }
    assert(s@.subrange(0, pc@.len() as int) =~= pc@);
    true
}

pub fn chars_ends_with(s: &Vec<char>, p: &str) -> (r: bool)
    ensures
        r == ends_with(s@, p@),
{
    let pc = chars_of(p);
    if pc.len() > s.len() {
        return false;
    }
    let off = s.len() - pc.len();
    let mut i: usize = 0;
    while i < pc.len()
        invariant
            i <= pc@.len() <= s@.len(),
            pc@ == p@,
            off == s@.len() - pc@.len(),
            forall|j: int| 0 <= j < i ==> s@[off + j] == pc@[j],
        decreases pc@.len() - i,
    {
        assert(off + i < s.len());
        if s[off + i] != pc[i] {
            assert(s@.subrange(off as int, s@.len() as int)[i as int] != pc@[i as int]);
            return false;
        }
        i = i + 1;
    }
    assert(s@.subrange(off as int, s@.len() as int) =~= pc@);
    true
}

/// Index of the last `c` before `i`, or `-1` when there is none.
pub open spec fn prev_index_of(s: Seq<char>, c: char, i: int) -> int
    decreases i,
{
    if i <= 0 {
        -1
    } else if i <= s.len() && s[i - 1] == c {
        i - 1
    } else {
        prev_index_of(s, c, i - 1)
    }
}

/// The first index of `c` at or after `i` (`s.len()` when none).
pub fn find_char(s: &Vec<char>, c: char, i: usize) -> (r: usize)
    requires
        i <= s@.len(),
    ensures
        r as int == next_index_of(s@, c, i as int),
        i <= r <= s@.len(),
{
    let mut j = i;
    while j < s.len() && s[j] != c
        invariant
            i <= j <= s@.len(),
            next_index_of(s@, c, i as int) == next_index_of(s@, c, j as int),
        decreases s@.len() - j,
    {
        j = j + 1;
    }
    j
}

/// The last index of `c` (`None` when there is none).
pub fn rfind_char(s: &Vec<char>, c: char) -> (r: Option<usize>)
    ensures
        prev_index_of(s@, c, s@.len() as int) == (match r {
            Some(k) => k as int,
            None => -1,
        }),
        r matches Some(k) ==> k < s@.len(),
{
    let mut j = s.len();
    while j > 0 && s[j - 1] != c
        invariant
            j <= s@.len(),
            prev_index_of(s@, c, s@.len() as int) == prev_index_of(s@, c, j as int),
        decreases j,
    {
        j = j - 1;
    }
    if j == 0 {
        None
    } else {
        Some(j - 1)
    }
}

/// The characters `s[lo..hi]`.
pub fn slice_chars(s: &Vec<char>, lo: usize, hi: usize) -> (r: Vec<char>)
    requires
        lo <= hi <= s@.len(),
    ensures
        r@ == s@.subrange(lo as int, hi as int),
{
    let mut r: Vec<char> = Vec::new();
    let mut i = lo;
    while i < hi
        invariant
            lo <= i <= hi <= s@.len(),
            r@ == s@.subrange(lo as int, i as int),
        decreases hi - i,
    {
        r.push(s[i]);
        i = i + 1;
        assert(r@ =~= s@.subrange(lo as int, i as int));
    }
    r
}


/// A copy of `v`.
pub fn copy_chars(v: &Vec<char>) -> (r: Vec<char>)
    ensures
        r@ == v@,
{
    let r = slice_chars(v, 0, v.len());
    assert(r@ =~= v@);
    r
}


/// Start of the maximal run of white space that ends at `j`.
pub open spec fn ws_back(s: Seq<char>, j: int) -> int
    decreases j,
{
    if 0 < j <= s.len() && is_white_space(s[j - 1]) {
        ws_back(s, j - 1)
    } else {
        j
    }
}

/// `str::trim`: `s` without leading and trailing white space.
pub open spec fn trim(s: Seq<char>) -> Seq<char> {
    let a = ws_run_end(s, 0);
    let b = ws_back(s, s.len() as int);
    if a >= b {
        Seq::empty()
    } else {
        s.subrange(a, b)
    }
}

pub proof fn lemma_ws_run_end_bounds(s: Seq<char>, i: int)
    requires
        0 <= i <= s.len(),
    ensures
        i <= ws_run_end(s, i) <= s.len(),
        forall|k: int| i <= k < ws_run_end(s, i) ==> is_white_space(s[k]),
        ws_run_end(s, i) < s.len() ==> !is_white_space(s[ws_run_end(s, i)]),
    decreases s.len() - i,
{
    if i < s.len() && is_white_space(s[i]) {
        lemma_ws_run_end_bounds(s, i + 1);
    }
}

pub proof fn lemma_ws_back_bounds(s: Seq<char>, j: int)
    requires
        0 <= j <= s.len(),
    ensures
        0 <= ws_back(s, j) <= j,
        forall|k: int| ws_back(s, j) <= k < j ==> is_white_space(s[k]),
        ws_back(s, j) > 0 ==> !is_white_space(s[ws_back(s, j) - 1]),
    decreases j,
{
    if 0 < j && is_white_space(s[j - 1]) {
        lemma_ws_back_bounds(s, j - 1);
    }
}

/// `str::trim` on characters.
pub fn trim_chars(s: &Vec<char>) -> (r: Vec<char>)
    ensures
        r@ == trim(s@),
{
    let a = skip_ws(s, 0);
    let mut b = s.len();
    while b > 0 && white_space(s[b - 1])
        invariant
            b <= s@.len(),
            ws_back(s@, s@.len() as int) == ws_back(s@, b as int),
        decreases b,
    {
        b = b - 1;
    }
    if a >= b {
        Vec::new()
    } else {
        slice_chars(s, a, b)
    }
}

/// `s` without one trailing carriage return.
pub open spec fn strip_cr(s: Seq<char>) -> Seq<char> {
    if s.len() > 0 && s.last() == '\r' {
        s.drop_last()
    } else {
        s
    }
}

/// The lines of `s[i..]`, as `str::lines`: split at `\n`, a final line
/// ending is optional, and a `\r` before a `\n` is dropped.
pub open spec fn lines_from(s: Seq<char>, i: int) -> Seq<Seq<char>>
    decreases s.len() - i,
{
    if i < 0 || i >= s.len() {
        Seq::empty()
    } else {
        let j = next_index_of(s, '\n', i);
        if j >= s.len() {
            seq![s.subrange(i, s.len() as int)]
        } else {
            proof {
                lemma_next_index_bounds(s, '\n', i);
            }
            seq![strip_cr(s.subrange(i, j))] + lines_from(s, j + 1)
        }
    }
}

/// `s.lines()`.
pub open spec fn lines(s: Seq<char>) -> Seq<Seq<char>> {
    lines_from(s, 0)
}

/// `s.lines()`, each line as a vector of characters.
pub fn split_lines(s: &Vec<char>) -> (r: Vec<Vec<char>>)
    ensures
        char_views(r@) == lines(s@),
{
    let mut out: Vec<Vec<char>> = Vec::new();
    let mut i: usize = 0;
    while i < s.len()
        invariant
            i <= s@.len(),
            lines(s@) == char_views(out@) + lines_from(s@, i as int),
        decreases s@.len() - i,
    {
        let j = find_char(s, '\n', i);
        let ghost before = out@;
        proof {
            lemma_next_index_bounds(s@, '\n', i as int);
        }
        if j >= s.len() {
            out.push(slice_chars(s, i, s.len()));
            assert(char_views(out@) =~= char_views(before).push(s@.subrange(i as int, s@.len() as int)));
            assert(lines_from(s@, s@.len() as int) =~= Seq::<Seq<char>>::empty());
            assert(char_views(out@) + lines_from(s@, s@.len() as int) =~= char_views(before)
                + lines_from(s@, i as int));
            i = s.len();
        } else {
            let mut line = slice_chars(s, i, j);
            if line.len() > 0 && line[line.len() - 1] == '\r' {
                line.pop();
            }
            assert(line@ =~= strip_cr(s@.subrange(i as int, j as int)));
            out.push(line);
            assert(char_views(out@) =~= char_views(before).push(
                strip_cr(s@.subrange(i as int, j as int)),
            ));
            assert(char_views(out@) + lines_from(s@, j + 1) =~= char_views(before)
                + lines_from(s@, i as int));
            i = j + 1;
        }
    }
    assert(lines_from(s@, i as int) =~= Seq::<Seq<char>>::empty());
    assert(char_views(out@) =~= lines(s@));
    out
}

/// Whether `c` matches the pattern character `p` when the pattern is
/// case-insensitive: for ASCII letters, the simple Unicode case folding of
/// the regex crate (which also folds `ſ` with `s` and the Kelvin sign with
/// `k`); other characters match themselves.
pub open spec fn ci_char(c: char, p: char) -> bool {
    let n = c as u32;
    let q = p as u32;
    if 97 <= q <= 122 {
        n == q || n == q - 32 || (q == 115 && n == 0x17f) || (q == 107 && n == 0x212a)
    } else {
        n == q
    }
}

pub fn ci_char_exec(c: char, p: char) -> (r: bool)
    ensures
        r == ci_char(c, p),
{
    let n = c as u32;
    let q = p as u32;
    if 97 <= q && q <= 122 {
        n == q || n == q - 32 || (q == 115 && n == 0x17f) || (q == 107 && n == 0x212a)
    } else {
        n == q
    }
}

/// Whether `s[i..]` starts with `p`, case-insensitively (`p` in lower case).
pub open spec fn ci_match_at(s: Seq<char>, i: int, p: Seq<char>) -> bool {
    0 <= i && i + p.len() <= s.len() && forall|k: int|
        0 <= k < p.len() ==> ci_char(#[trigger] s[i + k], p[k])
}

pub fn ci_match_at_exec(s: &Vec<char>, i: usize, p: &str) -> (r: bool)
    ensures
        r == ci_match_at(s@, i as int, p@),
{
    let pc = chars_of(p);
    if i > s.len() || pc.len() > s.len() - i {
        return false;
    }
    let mut k: usize = 0;
    while k < pc.len()
        invariant
            k <= pc@.len(),
            pc@ == p@,
            i + pc@.len() <= s@.len(),
            forall|m: int| 0 <= m < k ==> ci_char(#[trigger] s@[i + m], pc@[m]),
        decreases pc@.len() - k,
    {
        assert(i + k < s.len());
        if !ci_char_exec(s[i + k], pc[k]) {
            return false;
        }
        k = k + 1;
    }
    true
}

/// Whether `s[i..]` starts with `p` exactly.
pub open spec fn match_at(s: Seq<char>, i: int, p: Seq<char>) -> bool {
    0 <= i && i + p.len() <= s.len() && s.subrange(i, i + p.len()) == p
}

pub fn match_at_exec(s: &Vec<char>, i: usize, p: &str) -> (r: bool)
    ensures
        r == match_at(s@, i as int, p@),
{
    let pc = chars_of(p);
    if i > s.len() || pc.len() > s.len() - i {
        return false;
    }
    let mut k: usize = 0;
    while k < pc.len()
        invariant
            k <= pc@.len(),
            pc@ == p@,
            i + pc@.len() <= s@.len(),
            forall|m: int| 0 <= m < k ==> s@[i + m] == pc@[m],
        decreases pc@.len() - k,
    {
        assert(i + k < s.len());
        if s[i + k] != pc[k] {
            assert(s@.subrange(i as int, i + pc@.len())[k as int] != pc@[k as int]);
            return false;
        }
        k = k + 1;
    }
    assert(s@.subrange(i as int, i + pc@.len()) =~= pc@);
    true
}

/// The lower-case ASCII letters.
pub open spec fn lower_letters() -> Seq<char> {
    seq![
        'a', 'b', 'c', 'd', 'e', 'f', 'g', 'h', 'i', 'j', 'k', 'l', 'm', 'n', 'o', 'p', 'q', 'r',
        's', 't', 'u', 'v', 'w', 'x', 'y', 'z',
    ]
}

/// `char::to_ascii_lowercase`.
pub open spec fn ascii_lower_char(c: char) -> char {
    if 65 <= c as u32 <= 90 {
        lower_letters()[(c as u32) - 65]
    } else {
        c
    }
}

/// `s.to_ascii_lowercase()`.
pub open spec fn ascii_lower(s: Seq<char>) -> Seq<char> {
    s.map_values(|c: char| ascii_lower_char(c))
}

pub fn ascii_lower_chars(s: &Vec<char>) -> (r: Vec<char>)
    ensures
        r@ == ascii_lower(s@),
{
    let lower = [
        'a', 'b', 'c', 'd', 'e', 'f', 'g', 'h', 'i', 'j', 'k', 'l', 'm', 'n', 'o', 'p', 'q',
        'r', 's', 't', 'u', 'v', 'w', 'x', 'y', 'z',
    ];
    assert(lower@ =~= lower_letters());
    let mut r: Vec<char> = Vec::new();
    let mut i: usize = 0;
    while i < s.len()
        invariant
            i <= s@.len(),
            lower@ == lower_letters(),
            r@ =~= ascii_lower(s@.take(i as int)),
        decreases s@.len() - i,
    {
        let c = s[i];
        let n = c as u32;
        if 65 <= n && n <= 90 {
            r.push(lower[(n - 65) as usize]);
        } else {
            r.push(c);
        }
        i = i + 1;
    }
    assert(s@.take(i as int) =~= s@);
    r
}

/// `char::is_ascii_digit`.
pub open spec fn is_ascii_digit(c: char) -> bool {
    48 <= c as u32 <= 57
}

/// The characters that `\w` matches in ASCII: `[0-9A-Za-z_]`.
pub open spec fn is_ascii_word(c: char) -> bool {
    let n = c as u32;
    (48 <= n <= 57) || (65 <= n <= 90) || (97 <= n <= 122) || n == 95
}

/// Whether the regex crate counts `c` as a word character (`\w`, and the
/// sides of `\b`).
pub uninterp spec fn is_word_char(c: char) -> bool;

/// The word characters of the regex crate (`\w`): `[0-9A-Za-z_]` on ASCII,
/// the Unicode word class elsewhere.
pub open spec fn word_class(c: char) -> bool {
    if (c as u32) < 128 {
        is_ascii_word(c)
    } else {
        is_word_char(c)
    }
}

/// `regex_syntax::is_word_character`, the Unicode word-character test of the
/// regex crate. Its result is named `is_word_char(c)`; of it the contract
/// states only that on ASCII it is `[0-9A-Za-z_]`, as the source shows.
#[verifier::external_body]
pub(crate) fn word_char(c: char) -> (r: bool)
    ensures
        r == is_word_char(c),
        (c as u32) < 128 ==> (r <==> is_ascii_word(c)),
{
    regex_syntax::is_word_character(c)
}

/// Whether `c` is a Unicode decimal digit (`\d` of the regex crate).
pub uninterp spec fn is_decimal_digit(c: char) -> bool;

/// The decimal digits of the regex crate (`\d`): `[0-9]` on ASCII, the
/// Unicode `Decimal_Number` class elsewhere.
pub open spec fn digit_class(c: char) -> bool {
    if (c as u32) < 128 {
        is_ascii_digit(c)
    } else {
        is_decimal_digit(c)
    }
}

/// `regex::Regex::is_match` with the pattern `^\d$` on the one character
/// `c`: the Unicode `Decimal_Number` test of the regex crate. Its result is
/// named `is_decimal_digit(c)`; the contract states only that on ASCII it
/// is `[0-9]`.
#[verifier::external_body]
pub(crate) fn decimal_digit(c: char) -> (r: bool)
    ensures
        r == is_decimal_digit(c),
        (c as u32) < 128 ==> (r <==> is_ascii_digit(c)),
{
    let mut buf = [0u8; 4];
    regex::Regex::new(r"^\d$").unwrap().is_match(c.encode_utf8(&mut buf))
}

/// `parts` joined by `sep`, as `[..].join(sep)`.
pub open spec fn join_with(parts: Seq<Seq<char>>, sep: Seq<char>) -> Seq<char>
    decreases parts.len(),
{
    if parts.len() == 0 {
        Seq::empty()
    } else if parts.len() == 1 {
        parts[0]
    } else {
        join_with(parts.drop_last(), sep) + sep + parts.last()
    }
}

/// `parts` joined by `sep`.
pub fn join_chars(parts: &Vec<Vec<char>>, sep: char) -> (r: Vec<char>)
    ensures
        r@ == join_with(char_views(parts@), seq![sep]),
{
    let ghost ps = char_views(parts@);
    let mut out: Vec<char> = Vec::new();
    let mut i: usize = 0;
    while i < parts.len()
        invariant
            i <= parts@.len() == ps.len(),
            ps == char_views(parts@),
            out@ == join_with(ps.take(i as int), seq![sep]),
        decreases parts@.len() - i,
    {
        if i > 0 {
            out.push(sep);
        }
        push_chars(&mut out, &parts[i]);
        assert(ps.take(i + 1).drop_last() =~= ps.take(i as int));
        assert(out@ =~= join_with(ps.take(i + 1), seq![sep]));
        i = i + 1;
    }
    assert(ps.take(i as int) =~= ps);
    out
}

/// Every element of `segs`, trimmed.
pub open spec fn trim_each(segs: Seq<Seq<char>>) -> Seq<Seq<char>>
    decreases segs.len(),
{
    if segs.len() == 0 {
        segs
    } else {
        trim_each(segs.drop_last()).push(trim(segs.last()))
    }
}

pub proof fn lemma_trim_each(segs: Seq<Seq<char>>)
    ensures
        trim_each(segs).len() == segs.len(),
        forall|i: int| 0 <= i < segs.len() ==> #[trigger] trim_each(segs)[i] == trim(segs[i]),
    decreases segs.len(),
{
    if segs.len() > 0 {
        lemma_trim_each(segs.drop_last());
    }
}

pub fn trim_each_exec(segs: &Vec<Vec<char>>) -> (r: Vec<Vec<char>>)
    ensures
        char_views(r@) == trim_each(char_views(segs@)),
{
    let ghost all = char_views(segs@);
    let mut r: Vec<Vec<char>> = Vec::new();
    let mut i: usize = 0;
    while i < segs.len()
        invariant
            i <= segs@.len() == all.len(),
            all == char_views(segs@),
            char_views(r@) == trim_each(all.take(i as int)),
        decreases segs@.len() - i,
    {
        assert(all.take(i + 1).drop_last() =~= all.take(i as int));
        let ghost before = r@;
        r.push(trim_chars(&segs[i]));
        assert(char_views(r@) =~= char_views(before).push(trim(all[i as int])));
        i = i + 1;
    }
    assert(all.take(i as int) =~= all);
    r
}


/// The last index of `c` before `j` (`None` when there is none).
pub fn prev_index_exec(s: &Vec<char>, c: char, j: usize) -> (r: Option<usize>)
    requires
        j <= s@.len(),
    ensures
        prev_index_of(s@, c, j as int) == (match r {
            Some(k) => k as int,
            None => -1,
        }),
        r matches Some(k) ==> k < j,
{
    let mut k = j;
    while k > 0 && s[k - 1] != c
        invariant
            k <= j <= s@.len(),
            prev_index_of(s@, c, j as int) == prev_index_of(s@, c, k as int),
        decreases k,
    {
        k = k - 1;
    }
    if k == 0 {
        None
    } else {
        Some(k - 1)
    }
}

/// The white space that Python's `str.strip` removes: Unicode white space
/// and the separators U+001C to U+001F.
pub open spec fn is_py_space(c: char) -> bool {
    is_white_space(c) || (0x1c <= c as u32 <= 0x1f)
}

fn py_space(c: char) -> (r: bool)
    ensures
        r == is_py_space(c),
{
    white_space(c) || (0x1c <= c as u32 && c as u32 <= 0x1f)
}

/// End of the run of Python white space that starts at `i`.
pub open spec fn py_space_end(s: Seq<char>, i: int) -> int
    decreases s.len() - i,
{
    if 0 <= i < s.len() && is_py_space(s[i]) {
        py_space_end(s, i + 1)
    } else {
        i
    }
}

/// Start of the run of Python white space that ends at `j`.
pub open spec fn py_space_back(s: Seq<char>, j: int) -> int
    decreases j,
{
    if 0 < j <= s.len() && is_py_space(s[j - 1]) {
        py_space_back(s, j - 1)
    } else {
        j
    }
}

/// Python's `s.strip()`: `s` without leading and trailing Python white
/// space.
pub open spec fn py_strip(s: Seq<char>) -> Seq<char> {
    let a = py_space_end(s, 0);
    let b = py_space_back(s, s.len() as int);
    if a >= b {
        Seq::empty()
    } else {
        s.subrange(a, b)
    }
}

/// Python's `str.strip` on characters.
pub fn py_strip_chars(s: &Vec<char>) -> (r: Vec<char>)
    ensures
        r@ == py_strip(s@),
{
    let mut a: usize = 0;
    while a < s.len() && py_space(s[a])
        invariant
            a <= s@.len(),
            py_space_end(s@, 0) == py_space_end(s@, a as int),
        decreases s@.len() - a,
    {
        a = a + 1;
    }
    let mut b = s.len();
    while b > 0 && py_space(s[b - 1])
        invariant
            b <= s@.len(),
            py_space_back(s@, s@.len() as int) == py_space_back(s@, b as int),
        decreases b,
    {
        b = b - 1;
    }
    if a >= b {
        Vec::new()
    } else {
        slice_chars(s, a, b)
    }
}

} // verus!

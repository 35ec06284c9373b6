//! The schema tree on disk: where the spec's documentation is found, where
//! each schema is written, and which files on disk differ from the
//! rendered ones.

use vstd::prelude::*;
use crate::smap::has_key;
use crate::text::{chars_of, push_str, str_eq, string_of, texts};

verus! {

/// `spec_dir` joined with `docs`, as `Path::join` joins a relative
/// component: with a `/` between them unless `spec_dir` is empty or ends
/// with one.
pub open spec fn docs_path_of(spec_dir: Seq<char>) -> Seq<char> {
    if spec_dir.len() == 0 || spec_dir.last() == '/' {
        spec_dir + "docs"@
    } else {
        spec_dir + "/docs"@
    }
}

/// The `docs` directory of a spec checkout.
pub fn docs_path(spec_dir: &str) -> (r: String)
    ensures
        r@ == docs_path_of(spec_dir@),
{
    let mut p = chars_of(spec_dir);
    if p.len() == 0 || p[p.len() - 1] == '/' {
        push_str(&mut p, "docs");
    } else {
        push_str(&mut p, "/docs");
    }
    string_of(&p)
}

/// The directory that holds the version folders: the `docs` directory of
/// `spec_dir` when there is one (`docs_is_dir`), else `spec_dir` itself, so
/// that both the checkout root and its docs directory are accepted.
pub fn resolve_docs_dir(spec_dir: &str, docs_is_dir: bool) -> (r: String)
    ensures
        r@ == if docs_is_dir {
            docs_path_of(spec_dir@)
        } else {
            spec_dir@
        },
{
    if docs_is_dir {
        docs_path(spec_dir)
    } else {
        string_of(&chars_of(spec_dir))
    }
}

/// The profile directories of the schema tree.
pub open spec fn profile_names() -> Seq<Seq<char>> {
    seq!["cmn"@, "bld"@, "psl"@, "pcsl"@]
}

/// The profile directories of the schema tree, in the order they are
/// visited.
pub fn profile_dirs() -> (r: Vec<String>)
    ensures
        texts(r@) == profile_names(),
{
    let mut r: Vec<String> = Vec::new();
    r.push(string_of(&chars_of("cmn")));
    r.push(string_of(&chars_of("bld")));
    r.push(string_of(&chars_of("psl")));
    r.push(string_of(&chars_of("pcsl")));
    assert(texts(r@) =~= profile_names());
    r
}

/// The file a rendered schema is written to, relative to the output
/// directory: its path `<profile>/<base>.schema.json` as it is.
pub fn out_path(rel: &str) -> (r: String)
    ensures
        r@ == rel@,
{
    string_of(&chars_of(rel))
}

/// The positions among the first `n` rendered files whose text differs
/// from what is on disk.
pub open spec fn changed_upto(files: Seq<(String, String)>, on_disk: Seq<String>, n: int) -> Seq<
    usize,
>
    decreases n,
{
    if n <= 0 {
        Seq::empty()
    } else {
        changed_upto(files, on_disk, n - 1) + if files[n - 1].1@ != on_disk[n - 1]@ {
            seq![(n - 1) as usize]
        } else {
            Seq::empty()
        }
    }
}

/// The positions of the rendered files `(path, text)` whose text differs
/// from `on_disk` (the text found at the same position; empty where no file
/// could be read), in order.
pub fn changed_files(files: &Vec<(String, String)>, on_disk: &Vec<String>) -> (r: Vec<usize>)
    requires
        on_disk@.len() == files@.len(),
    ensures
        r@ == changed_upto(files@, on_disk@, files@.len() as int),
{
    let mut r: Vec<usize> = Vec::new();
    let mut i: usize = 0;
    while i < files.len()
        invariant
            i <= files@.len(),
            on_disk@.len() == files@.len(),
            r@ == changed_upto(files@, on_disk@, i as int),
        decreases files@.len() - i,
    {
        if !str_eq(files[i].1.as_str(), on_disk[i].as_str()) {
            r.push(i);
        }
        i = i + 1;
        assert(r@ =~= changed_upto(files@, on_disk@, i as int));
    }
    r
}

/// The positions among the first `n` files found on disk that no rendered
/// file has.
pub open spec fn extra_upto(files: Seq<(String, String)>, found: Seq<String>, n: int) -> Seq<usize>
    decreases n,
{
    if n <= 0 {
        Seq::empty()
    } else {
        extra_upto(files, found, n - 1) + if !has_key(files, found[n - 1]@) {
            seq![(n - 1) as usize]
        } else {
            Seq::empty()
        }
    }
}

fn has_path(files: &Vec<(String, String)>, rel: &str) -> (r: bool)
    ensures
        r == has_key(files@, rel@),
{
    let mut i: usize = 0;
    while i < files.len()
        invariant
            i <= files@.len(),
            forall|j: int| 0 <= j < i ==> #[trigger] files@[j].0@ != rel@,
        decreases files@.len() - i,
    {
        if str_eq(files[i].0.as_str(), rel) {
            assert(files@[i as int].0@ == rel@);
            return true;
        }
        i = i + 1;
    }
    false
}

/// The positions of the schema files found on disk (by relative path
/// `profile/name`) that are not among the rendered files, in order.
pub fn extra_files(files: &Vec<(String, String)>, found: &Vec<String>) -> (r: Vec<usize>)
    ensures
        r@ == extra_upto(files@, found@, found@.len() as int),
{
    let mut r: Vec<usize> = Vec::new();
    let mut i: usize = 0;
    while i < found.len()
        invariant
            i <= found@.len(),
            r@ == extra_upto(files@, found@, i as int),
        decreases found@.len() - i,
    {
        if !has_path(files, found[i].as_str()) {
            r.push(i);
        }
        i = i + 1;
        assert(r@ =~= extra_upto(files@, found@, i as int));
    }
    r
}

/// A rendered file is reported as changed exactly when its text differs
/// from the text on disk at its position; the positions come in increasing
/// order.
pub proof fn lemma_changed_exactly(files: Seq<(String, String)>, on_disk: Seq<String>, n: int)
    requires
        0 <= n <= files.len() <= usize::MAX,
        on_disk.len() == files.len(),
    ensures
        forall|k: int|
            0 <= k < n ==> (changed_upto(files, on_disk, n).contains(k as usize) <==> files[k].1@
                != on_disk[k]@),
        forall|a: int, b: int|
            0 <= a < b < changed_upto(files, on_disk, n).len() ==> #[trigger] changed_upto(
                files,
                on_disk,
                n,
            )[a] < #[trigger] changed_upto(files, on_disk, n)[b],
        forall|a: int|
            0 <= a < changed_upto(files, on_disk, n).len() ==> #[trigger] changed_upto(
                files,
                on_disk,
                n,
            )[a] < n,
    decreases n,
{
    if n > 0 {
        lemma_changed_exactly(files, on_disk, n - 1);
        let prev = changed_upto(files, on_disk, n - 1);
        let tail = if files[n - 1].1@ != on_disk[n - 1]@ {
            seq![(n - 1) as usize]
        } else {
            Seq::<usize>::empty()
        };
        let r = changed_upto(files, on_disk, n);
        assert(r == prev + tail);
        assert forall|k: int| 0 <= k < n implies (r.contains(k as usize) <==> files[k].1@
            != on_disk[k]@) by {
            if k < n - 1 {
                if prev.contains(k as usize) {
                    let a = choose|a: int| 0 <= a < prev.len() && prev[a] == k as usize;
                    assert(r[a] == prev[a]);
                }
                if r.contains(k as usize) {
                    let a = choose|a: int| 0 <= a < r.len() && r[a] == k as usize;
                    if a < prev.len() {
                        assert(r[a] == prev[a]);
                    } else {
                        assert(r[a] == (n - 1) as usize);
                    }
                }
            } else {
                if files[k].1@ != on_disk[k]@ {
                    assert(r[prev.len() as int] == k as usize);
                }
                if r.contains(k as usize) {
                    let a = choose|a: int| 0 <= a < r.len() && r[a] == k as usize;
                    if a < prev.len() {
                        assert(r[a] == prev[a]);
                    }
                }
            }
        }
        assert forall|a: int, b: int| 0 <= a < b < r.len() implies #[trigger] r[a] < #[trigger] r[b] by {
            if b < prev.len() {
                assert(r[a] == prev[a] && r[b] == prev[b]);
            } else {
                assert(r[a] == prev[a]);
            }
        }
        assert forall|a: int| 0 <= a < r.len() implies #[trigger] r[a] < n by {
            if a < prev.len() {
                assert(r[a] == prev[a]);
            }
        }
    }
}

/// A file found on disk is reported as extra exactly when no rendered file
/// has its path; the positions come in increasing order.
pub proof fn lemma_extra_exactly(files: Seq<(String, String)>, found: Seq<String>, n: int)
    requires
        0 <= n <= found.len() <= usize::MAX,
    ensures
        forall|k: int|
            0 <= k < n ==> (extra_upto(files, found, n).contains(k as usize) <==> !has_key(
                files,
                found[k]@,
            )),
        forall|a: int, b: int|
            0 <= a < b < extra_upto(files, found, n).len() ==> #[trigger] extra_upto(
                files,
                found,
                n,
            )[a] < #[trigger] extra_upto(files, found, n)[b],
        forall|a: int|
            0 <= a < extra_upto(files, found, n).len() ==> #[trigger] extra_upto(
                files,
                found,
                n,
            )[a] < n,
    decreases n,
{
    if n > 0 {
        lemma_extra_exactly(files, found, n - 1);
        let prev = extra_upto(files, found, n - 1);
        let tail = if !has_key(files, found[n - 1]@) {
            seq![(n - 1) as usize]
        } else {
            Seq::<usize>::empty()
        };
        let r = extra_upto(files, found, n);
        assert(r == prev + tail);
        assert forall|k: int| 0 <= k < n implies (r.contains(k as usize) <==> !has_key(files, found[k]@)) by {
            if k < n - 1 {
                if prev.contains(k as usize) {
                    let a = choose|a: int| 0 <= a < prev.len() && prev[a] == k as usize;
                    assert(r[a] == prev[a]);
                }
                if r.contains(k as usize) {
                    let a = choose|a: int| 0 <= a < r.len() && r[a] == k as usize;
                    if a < prev.len() {
                        assert(r[a] == prev[a]);
                    } else {
                        assert(r[a] == (n - 1) as usize);
                    }
                }
            } else {
                if !has_key(files, found[k]@) {
                    assert(r[prev.len() as int] == k as usize);
                }
                if r.contains(k as usize) {
                    let a = choose|a: int| 0 <= a < r.len() && r[a] == k as usize;
                    if a < prev.len() {
                        assert(r[a] == prev[a]);
                    }
                }
            }
        }
        assert forall|a: int, b: int| 0 <= a < b < r.len() implies #[trigger] r[a] < #[trigger] r[b] by {
            if b < prev.len() {
                assert(r[a] == prev[a] && r[b] == prev[b]);
            } else {
                assert(r[a] == prev[a]);
            }
        }
        assert forall|a: int| 0 <= a < r.len() implies #[trigger] r[a] < n by {
            if a < prev.len() {
                assert(r[a] == prev[a]);
            }
        }
    }
}

} // verus!

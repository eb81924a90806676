//! The image catalog filter: which directory entries count as images.
//!
//! A file name qualifies when what follows its last dot — the dot itself not
//! being the leading character — is one of a fixed, case-sensitive allow-list
//! of extensions. Reading the directory happens outside the library; this
//! module only judges the names it was handed, best-effort enumeration of the
//! directory being the caller's concern.

use vstd::prelude::*;

use crate::strutil::str_eq;
use crate::wallpapers::string_views;

verus! {

/// The index of the last dot in `name`, or `-1` when it has none.
pub open spec fn last_dot(name: Seq<char>) -> int
    decreases name.len(),
{
    if name.len() == 0 {
        -1
    } else if name.last() == '.' {
        name.len() - 1
    } else {
        last_dot(name.drop_last())
    }
}

/// The extension of a bare file name: what follows the last dot, provided
/// that dot is not the leading character, so a name like a hidden file's has
/// none.
pub open spec fn extension_of(name: Seq<char>) -> Option<Seq<char>> {
    if last_dot(name) >= 1 {
        Some(name.skip(last_dot(name) + 1))
    } else {
        None
    }
}

/// The fixed, case-sensitive allow-list of image extensions.
pub open spec fn is_allowed_extension(e: Seq<char>) -> bool {
    ||| e == "jpg"@
    ||| e == "jpeg"@
    ||| e == "png"@
    ||| e == "gif"@
    ||| e == "pnm"@
    ||| e == "tga"@
    ||| e == "tiff"@
    ||| e == "webp"@
    ||| e == "bmp"@
    ||| e == "farbfeld"@
}

/// Whether a file name counts as an image: its extension exists and is in the
/// allow-list.
pub open spec fn spec_is_image_name(name: Seq<char>) -> bool {
    match extension_of(name) {
        Some(e) => is_allowed_extension(e),
        None => false,
    }
}

/// A name with a dot at `j` and none after it has its last dot at `j`.
proof fn lemma_last_dot_at(name: Seq<char>, j: int)
    requires
        0 <= j < name.len(),
        name[j] == '.',
        forall|m: int| j < m < name.len() ==> name[m] != '.',
    ensures
        last_dot(name) == j,
    decreases name.len(),
{
    if j < name.len() - 1 {
        lemma_last_dot_at(name.drop_last(), j);
    }
}

/// A name without any dot has no last dot.
proof fn lemma_last_dot_none(name: Seq<char>)
    requires
        forall|m: int| 0 <= m < name.len() ==> name[m] != '.',
    ensures
        last_dot(name) == -1,
    decreases name.len(),
{
    if name.len() > 0 {
        lemma_last_dot_none(name.drop_last());
    }
}

/// Whether an extension, handed as a string, is in the allow-list.
pub fn is_img_file(extension: &str) -> (r: bool)
    ensures
        r == is_allowed_extension(extension@),
{
    str_eq(extension, "jpg") || str_eq(extension, "jpeg") || str_eq(extension, "png") || str_eq(
        extension,
        "gif",
    ) || str_eq(extension, "pnm") || str_eq(extension, "tga") || str_eq(extension, "tiff")
        || str_eq(extension, "webp") || str_eq(extension, "bmp") || str_eq(extension, "farbfeld")
}

/// Whether a file name counts as an image.
pub fn has_image_extension(name: &str) -> (r: bool)
    ensures
        r == spec_is_image_name(name@),
{
    let len = name.unicode_len();
    let mut k: usize = len;
    while k > 0
        invariant
            0 <= k <= len,
            len == name@.len(),
            forall|m: int| k <= m < len ==> name@[m] != '.',
        decreases k,
    {
        if name.get_char(k - 1) == '.' {
            proof {
                lemma_last_dot_at(name@, k - 1);
            }
            if k - 1 >= 1 {
                let ext = name.substring_char(k, len);
                proof {
                    assert(ext@ =~= name@.skip(k as int));
                }
                return is_img_file(ext);
            } else {
                return false;
            }
        }
        k = k - 1;
    }
    proof {
        lemma_last_dot_none(name@);
    }
    false
}

/// Filtering a listing never introduces a duplicate name.
proof fn lemma_filter_keeps_no_duplicates(s: Seq<Seq<char>>, pred: spec_fn(Seq<char>) -> bool)
    requires
        s.no_duplicates(),
    ensures
        s.filter(pred).no_duplicates(),
    decreases s.len(),
{
    reveal(Seq::filter);
    if s.len() > 0 {
        let rest = s.drop_last();
        let rf = rest.filter(pred);
        assert(rest.no_duplicates()) by {
            assert forall|i: int, j: int|
                0 <= i < rest.len() && 0 <= j < rest.len() && i != j implies rest[i] != rest[j] by {
                assert(rest[i] == s[i] && rest[j] == s[j]);
            }
        }
        lemma_filter_keeps_no_duplicates(rest, pred);
        if pred(s.last()) {
            assert(s.filter(pred) == rf.push(s.last()));
            assert(!rf.contains(s.last())) by {
                if rf.contains(s.last()) {
                    rest.lemma_filter_contains_rev(pred, s.last());
                    let i = choose|i: int| 0 <= i < rest.len() && rest[i] == s.last();
                    assert(s[i] == s[s.len() - 1]);
                }
            }
            assert forall|a: int, b: int|
                0 <= a < rf.push(s.last()).len() && 0 <= b < rf.push(s.last()).len() && a
                    != b implies rf.push(s.last())[a] != rf.push(s.last())[b] by {
                if a < rf.len() && b < rf.len() {
                    assert(rf.push(s.last())[a] == rf[a] && rf.push(s.last())[b] == rf[b]);
                } else if b == rf.len() {
                    assert(rf.push(s.last())[b] == s.last());
                    if rf.push(s.last())[a] == s.last() {
                        assert(rf[a] == s.last());
                        assert(rf.contains(s.last()));
                    }
                } else {
                    assert(rf.push(s.last())[a] == s.last());
                    if rf.push(s.last())[b] == s.last() {
                        assert(rf[b] == s.last());
                        assert(rf.contains(s.last()));
                    }
                }
            }
        }
    }
}

/// Keeps exactly the names that count as images, in order; a duplicate-free
/// listing stays duplicate-free.
pub fn filter_image_names(names: Vec<String>) -> (r: Vec<String>)
    ensures
        string_views(r@) == string_views(names@).filter(|n: Seq<char>| spec_is_image_name(n)),
        string_views(names@).no_duplicates() ==> string_views(r@).no_duplicates(),
{
    let ghost pred = |n: Seq<char>| spec_is_image_name(n);
    let ghost views = string_views(names@);
    let mut r: Vec<String> = Vec::new();
    let n = names.len();
    let mut i: usize = 0;
    while i < n
        invariant
            0 <= i <= n,
            n == names@.len(),
            views == string_views(names@),
            pred == (|n: Seq<char>| spec_is_image_name(n)),
            string_views(r@) == views.take(i as int).filter(pred),
        decreases n - i,
    {
        let keep = has_image_extension(names[i].as_str());
        proof {
            assert(views.take(i + 1).drop_last() =~= views.take(i as int));
            assert(views.take(i + 1).last() == views[i as int]);
            assert(views.take(i + 1) =~= views.take(i as int).push(views[i as int]));
            views.take(i as int).lemma_filter_push(views[i as int], pred);
            assert(views[i as int] == names@[i as int]@);
        }
        if keep {
            let ghost prev = r@;
            r.push(names[i].clone());
            proof {
                assert forall|j: int|
                    0 <= j < string_views(r@).len() implies string_views(r@)[j] == views.take(
                    i as int,
                ).filter(pred).push(views[i as int])[j] by {
                    if j < prev.len() {
                        assert(r@[j] == prev[j]);
                    } else {
                        assert(r@[j] == names@[i as int]);
                    }
                }
                assert(string_views(r@) =~= views.take(i as int).filter(pred).push(
                    views[i as int],
                ));
                assert(string_views(r@) =~= views.take(i + 1).filter(pred));
            }
        } else {
            proof {
                assert(string_views(r@) =~= views.take(i + 1).filter(pred));
            }
        }
        i = i + 1;
    }
    proof {
        assert(views.take(n as int) =~= views);
        if views.no_duplicates() {
            lemma_filter_keeps_no_duplicates(views, pred);
        }
    }
    r
}

/// Whether a directory listing is free of duplicate names.
pub fn names_distinct(names: &Vec<String>) -> (r: bool)
    ensures
        r == string_views(names@).no_duplicates(),
{
    let n = names.len();
    let mut i: usize = 0;
    while i < n
        invariant
            0 <= i <= n,
            n == names@.len(),
            forall|a: int, b: int| 0 <= a < b < i ==> names@[a]@ != names@[b]@,
        decreases n - i,
    {
        let mut j: usize = 0;
        while j < i
            invariant
                0 <= j <= i < n,
                n == names@.len(),
                forall|b: int| 0 <= b < j ==> names@[b]@ != names@[i as int]@,
            decreases i - j,
        {
            if names[j] == names[i] {
                proof {
                    assert(string_views(names@)[j as int] == string_views(names@)[i as int]);
                    assert(!string_views(names@).no_duplicates());
                }
                return false;
            }
            j = j + 1;
        }
        i = i + 1;
    }
    proof {
        assert forall|a: int, b: int|
            0 <= a < string_views(names@).len() && 0 <= b < string_views(names@).len() && a
                != b implies string_views(names@)[a] != string_views(names@)[b] by {
            if a < b {
                assert(names@[a]@ != names@[b]@);
            } else {
                assert(names@[b]@ != names@[a]@);
            }
        }
    }
    true
}

} // verus!

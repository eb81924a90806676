//! The collection of tracked wallpapers and the count normalizer.

use vstd::prelude::*;

verus! {

/// One tracked image: the bare file name that identifies it inside the
/// watched directory, and how many times it has been shown so far.
pub struct Wallpaper {
    pub file_name: String,
    pub count: usize,
}

/// Mathematical model of a [`Wallpaper`]: the identifier as a sequence of
/// characters and the show count as an unbounded natural number.
#[verifier::ext_equal]
pub ghost struct WallpaperModel {
    pub name: Seq<char>,
    pub count: nat,
}

impl View for Wallpaper {
    type V = WallpaperModel;

    open spec fn view(&self) -> WallpaperModel {
        WallpaperModel { name: self.file_name@, count: self.count as nat }
    }
}

/// The model of a whole collection, entry by entry.
pub open spec fn models(s: Seq<Wallpaper>) -> Seq<WallpaperModel> {
    s.map_values(|w: Wallpaper| w@)
}

/// The identifiers of a collection, in order.
pub open spec fn names_of(s: Seq<WallpaperModel>) -> Seq<Seq<char>> {
    s.map_values(|m: WallpaperModel| m.name)
}

/// A well-formed collection is unique by identifier.
pub open spec fn distinct_names(s: Seq<WallpaperModel>) -> bool {
    names_of(s).no_duplicates()
}

/// The views of a list of strings, entry by entry.
pub open spec fn string_views(s: Seq<String>) -> Seq<Seq<char>> {
    s.map_values(|x: String| x@)
}

/// The show count recorded for `name` (at its first occurrence), or `0` when
/// the name is not tracked.
pub open spec fn count_of(s: Seq<WallpaperModel>, name: Seq<char>) -> nat
    decreases s.len(),
{
    if s.len() == 0 {
        0
    } else if s.first().name == name {
        s.first().count
    } else {
        count_of(s.drop_first(), name)
    }
}

/// Reconciliation at the level of models: the resulting collection tracks
/// exactly the identifiers of `present`, in order; an identifier that was
/// already tracked keeps its show count, a new one starts at zero.
pub open spec fn synced(present: Seq<Seq<char>>, s: Seq<WallpaperModel>) -> Seq<WallpaperModel> {
    Seq::new(
        present.len(),
        |j: int| WallpaperModel { name: present[j], count: count_of(s, present[j]) },
    )
}

/// A name that occurs nowhere in the collection has count zero.
pub proof fn lemma_count_of_absent(s: Seq<WallpaperModel>, name: Seq<char>)
    requires
        forall|j: int| 0 <= j < s.len() ==> s[j].name != name,
    ensures
        count_of(s, name) == 0,
    decreases s.len(),
{
    if s.len() > 0 {
        lemma_count_of_absent(s.drop_first(), name);
    }
}

/// `count_of` returns the count of the first entry carrying the name.
pub proof fn lemma_count_of_first_match(s: Seq<WallpaperModel>, name: Seq<char>, k: int)
    requires
        0 <= k < s.len(),
        s[k].name == name,
        forall|j: int| 0 <= j < k ==> s[j].name != name,
    ensures
        count_of(s, name) == s[k].count,
    decreases k,
{
    if k > 0 {
        lemma_count_of_first_match(s.drop_first(), name, k - 1);
    }
}

/// Looking a name up in a reconciled collection gives its original count when
/// the directory listing holds the name, and zero otherwise.
pub proof fn lemma_count_of_synced(d: Seq<Seq<char>>, s: Seq<WallpaperModel>, x: Seq<char>)
    ensures
        count_of(synced(d, s), x) == (if d.contains(x) {
            count_of(s, x)
        } else {
            0
        }),
    decreases d.len(),
{
    if d.len() == 0 {
        assert(!d.contains(x));
    } else {
        let t = synced(d, s);
        assert(t.first() == WallpaperModel { name: d[0], count: count_of(s, d[0]) });
        if d[0] == x {
            assert(d.contains(x));
        } else {
            assert(t.drop_first() =~= synced(d.drop_first(), s));
            lemma_count_of_synced(d.drop_first(), s, x);
            if d.contains(x) {
                let j = choose|j: int| 0 <= j < d.len() && d[j] == x;
                assert(d.drop_first()[j - 1] == x);
                assert(d.drop_first().contains(x));
            } else {
                assert(!d.drop_first().contains(x)) by {
                    if d.drop_first().contains(x) {
                        let j = choose|j: int| 0 <= j < d.drop_first().len() && d.drop_first()[j] == x;
                        assert(d[j + 1] == x);
                    }
                }
            }
        }
    }
}

/// Reconciling against directory state `d1` and then against `d2` tracks
/// exactly `d2`'s identifiers, whatever `d1` held in between; an identifier
/// present in both listings keeps the count it had in the original collection,
/// and one absent from `d1` starts again at zero.
pub proof fn lemma_sync_twice(d1: Seq<Seq<char>>, d2: Seq<Seq<char>>, s: Seq<WallpaperModel>)
    ensures
        names_of(synced(d2, synced(d1, s))) =~= d2,
        forall|j: int|
            0 <= j < d2.len() ==> synced(d2, synced(d1, s))[j].count == (if d1.contains(d2[j]) {
                count_of(s, d2[j])
            } else {
                0
            }),
{
    let fin = synced(d2, synced(d1, s));
    assert(names_of(fin) =~= d2);
    assert forall|j: int| 0 <= j < d2.len() implies fin[j].count == (if d1.contains(d2[j]) {
        count_of(s, d2[j])
    } else {
        0
    }) by {
        lemma_count_of_synced(d1, s, d2[j]);
    }
}

/// The show count stored for `name`, or zero if `name` is not tracked.
fn lookup_count(wallpapers: &Vec<Wallpaper>, name: &String) -> (c: usize)
    ensures
        c as nat == count_of(models(wallpapers@), name@),
{
    let mut k: usize = 0;
    while k < wallpapers.len()
        invariant
            0 <= k <= wallpapers@.len(),
            forall|j: int| 0 <= j < k ==> models(wallpapers@)[j].name != name@,
        decreases wallpapers@.len() - k,
    {
        if wallpapers[k].file_name == *name {
            proof {
                lemma_count_of_first_match(models(wallpapers@), name@, k as int);
            }
            return wallpapers[k].count;
        }
        k = k + 1;
    }
    proof {
        lemma_count_of_absent(models(wallpapers@), name@);
    }
    0
}

/// Reconciles the collection with the directory listing `present`: keeps the
/// show count of every identifier whose file is still there, drops entries
/// whose file is gone, and starts newly discovered files at count zero, so
/// that normalization leaves them maximally weighted.
pub fn sync_wallpapers(present: &Vec<String>, wallpapers: Vec<Wallpaper>) -> (r: Vec<Wallpaper>)
    ensures
        models(r@) == synced(string_views(present@), models(wallpapers@)),
        names_of(models(r@)) =~= string_views(present@),
        string_views(present@).no_duplicates() ==> distinct_names(models(r@)),
{
    let ghost pres = string_views(present@);
    let ghost ms = models(wallpapers@);
    let mut r: Vec<Wallpaper> = Vec::new();
    let n = present.len();
    let mut i: usize = 0;
    while i < n
        invariant
            0 <= i <= n,
            n == present@.len(),
            ms == models(wallpapers@),
            pres == string_views(present@),
            r@.len() == i,
            forall|k: int| 0 <= k < i ==> models(r@)[k] == synced(pres, ms)[k],
        decreases n - i,
    {
        let name = &present[i];
        let c = lookup_count(&wallpapers, name);
        let w = Wallpaper { file_name: name.clone(), count: c };
        let ghost wv = w@;
        let ghost prev = r@;
        r.push(w);
        proof {
            assert(models(r@)[i as int] == wv);
            assert(wv == synced(pres, ms)[i as int]);
            assert forall|k: int| 0 <= k < i implies models(r@)[k] == synced(pres, ms)[k] by {
                assert(models(prev)[k] == synced(pres, ms)[k]);
                assert(r@[k] == prev[k]);
            }
        }
        i = i + 1;
    }
    proof {
        assert(models(r@) =~= synced(pres, ms));
        assert(names_of(models(r@)) =~= pres);
    }
    r
}

/// A fresh collection for a directory listing: one entry per name, every show
/// count zero.
pub fn initial_wallpapers(names: &Vec<String>) -> (r: Vec<Wallpaper>)
    ensures
        r@.len() == names@.len(),
        forall|j: int| 0 <= j < r@.len() ==> models(r@)[j].name == names@[j]@,
        forall|j: int| 0 <= j < r@.len() ==> models(r@)[j].count == 0,
{
    let mut r: Vec<Wallpaper> = Vec::new();
    let n = names.len();
    let mut i: usize = 0;
    while i < n
        invariant
            0 <= i <= n,
            n == names@.len(),
            r@.len() == i,
            forall|j: int| 0 <= j < i ==> models(r@)[j].name == names@[j]@,
            forall|j: int| 0 <= j < i ==> models(r@)[j].count == 0,
        decreases n - i,
    {
        let w = Wallpaper { file_name: names[i].clone(), count: 0 };
        let ghost wv = w@;
        let ghost prev = r@;
        r.push(w);
        proof {
            assert(models(r@)[i as int] == wv);
            assert forall|j: int| 0 <= j < i implies models(r@)[j].count == 0 by {
                assert(r@[j] == prev[j]);
                assert(models(prev)[j].count == 0);
            }
            assert forall|j: int| 0 <= j < i implies models(r@)[j].name == names@[j]@ by {
                assert(r@[j] == prev[j]);
                assert(models(prev)[j].name == names@[j]@);
            }
        }
        i = i + 1;
    }
    r
}

/// Whether the collection is unique by identifier.
pub fn wallpapers_distinct(wallpapers: &Vec<Wallpaper>) -> (r: bool)
    ensures
        r == distinct_names(models(wallpapers@)),
{
    let ghost ms = models(wallpapers@);
    let n = wallpapers.len();
    let mut i: usize = 0;
    while i < n
        invariant
            0 <= i <= n,
            n == wallpapers@.len(),
            ms == models(wallpapers@),
            forall|a: int, b: int| 0 <= a < b < i ==> ms[a].name != ms[b].name,
        decreases n - i,
    {
        let mut j: usize = 0;
        while j < i
            invariant
                0 <= j <= i < n,
                n == wallpapers@.len(),
                ms == models(wallpapers@),
                forall|b: int| 0 <= b < j ==> ms[b].name != ms[i as int].name,
            decreases i - j,
        {
            if wallpapers[j].file_name == wallpapers[i].file_name {
                proof {
                    assert(names_of(ms)[j as int] == names_of(ms)[i as int]);
                    assert(!distinct_names(ms));
                }
                return false;
            }
            j = j + 1;
        }
        i = i + 1;
    }
    proof {
        assert forall|a: int, b: int|
            0 <= a < names_of(ms).len() && 0 <= b < names_of(ms).len() && a != b implies names_of(
            ms,
        )[a] != names_of(ms)[b] by {
            if a < b {
                assert(ms[a].name != ms[b].name);
            } else {
                assert(ms[b].name != ms[a].name);
            }
        }
    }
    true
}

/// The smallest show count in the collection; `0` for an empty collection.
pub open spec fn min_count(s: Seq<WallpaperModel>) -> nat
    decreases s.len(),
{
    if s.len() == 0 {
        0
    } else if s.len() == 1 {
        s[0].count
    } else {
        let m = min_count(s.drop_last());
        if s.last().count < m {
            s.last().count
        } else {
            m
        }
    }
}

/// The minimum is a lower bound for every entry's count.
pub proof fn lemma_min_count_le(s: Seq<WallpaperModel>, j: int)
    requires
        0 <= j < s.len(),
    ensures
        min_count(s) <= s[j].count,
    decreases s.len(),
{
    if s.len() > 1 && j < s.len() - 1 {
        lemma_min_count_le(s.drop_last(), j);
    }
}

/// Some entry attains the minimum.
pub proof fn lemma_min_count_attained(s: Seq<WallpaperModel>)
    requires
        s.len() > 0,
    ensures
        exists|j: int| 0 <= j < s.len() && s[j].count == min_count(s),
    decreases s.len(),
{
    if s.len() == 1 {
        assert(s[0].count == min_count(s));
    } else {
        lemma_min_count_attained(s.drop_last());
        let k = choose|j: int|
            0 <= j < s.drop_last().len() && s.drop_last()[j].count == min_count(s.drop_last());
        if s.last().count < min_count(s.drop_last()) {
            assert(s[s.len() - 1].count == min_count(s));
        } else {
            assert(s[k] == s.drop_last()[k]);
            assert(s[k].count == min_count(s));
        }
    }
}

/// Normalization at the level of models: every count shifted down by the
/// collection's minimum, names untouched.
pub open spec fn normalized(s: Seq<WallpaperModel>) -> Seq<WallpaperModel> {
    s.map_values(
        |m: WallpaperModel| WallpaperModel { name: m.name, count: (m.count - min_count(s)) as nat },
    )
}

/// After normalization of a non-empty collection the minimum count is zero.
pub proof fn lemma_normalized_min_zero(s: Seq<WallpaperModel>)
    requires
        s.len() > 0,
    ensures
        min_count(normalized(s)) == 0,
{
    lemma_min_count_attained(s);
    let j = choose|j: int| 0 <= j < s.len() && s[j].count == min_count(s);
    assert(normalized(s)[j].count == 0);
    lemma_min_count_le(normalized(s), j);
}

/// Normalization is idempotent: normalizing an already-normalized collection
/// changes nothing.
pub proof fn lemma_normalized_idempotent(s: Seq<WallpaperModel>)
    ensures
        normalized(normalized(s)) == normalized(s),
{
    if s.len() == 0 {
        assert(normalized(normalized(s)) =~= normalized(s));
    } else {
        lemma_normalized_min_zero(s);
        assert(normalized(normalized(s)) =~= normalized(s));
    }
}

/// Subtracts the smallest show count from every entry, so that the minimum
/// becomes zero and the relative spread of the counts is kept. No-op on an
/// empty collection or when the minimum is already zero.
pub fn mean_centering_counts(wallpapers: Vec<Wallpaper>) -> (r: Vec<Wallpaper>)
    ensures
        models(r@) == normalized(models(wallpapers@)),
        wallpapers@.len() > 0 ==> min_count(models(r@)) == 0,
{
    let ghost orig = models(wallpapers@);
    let mut wallpapers = wallpapers;
    let n = wallpapers.len();
    proof {
        assert(orig.len() == wallpapers@.len());
    }
    if n == 0 {
        proof {
            assert(models(wallpapers@) =~= normalized(orig));
        }
        return wallpapers;
    }
    let mut min: usize = wallpapers[0].count;
    let mut i: usize = 1;
    while i < n
        invariant
            1 <= i <= n,
            n == wallpapers@.len(),
            models(wallpapers@) == orig,
            min == min_count(orig.take(i as int)),
        decreases n - i,
    {
        proof {
            assert(orig.take(i + 1).drop_last() =~= orig.take(i as int));
            assert(orig.take(i + 1).last() == orig[i as int]);
        }
        if wallpapers[i].count < min {
            min = wallpapers[i].count;
        }
        i = i + 1;
    }
    proof {
        assert(orig.take(n as int) =~= orig);
    }
    if min == 0 {
        proof {
            assert(models(wallpapers@) =~= normalized(orig));
            lemma_normalized_min_zero(orig);
        }
        return wallpapers;
    }
    let mut j: usize = 0;
    while j < n
        invariant
            0 <= j <= n,
            n == wallpapers@.len(),
            n == orig.len(),
            min == min_count(orig),
            forall|k: int| j <= k < n ==> models(wallpapers@)[k] == orig[k],
            forall|k: int| 0 <= k < j ==> models(wallpapers@)[k] == normalized(orig)[k],
        decreases n - j,
    {
        proof {
            lemma_min_count_le(orig, j as int);
        }
        let c = wallpapers[j].count;
        wallpapers[j].count = c - min;
        j = j + 1;
    }
    proof {
        assert(models(wallpapers@) =~= normalized(orig));
        lemma_normalized_min_zero(orig);
    }
    wallpapers
}

} // verus!

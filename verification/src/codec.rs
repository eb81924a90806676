//! The persisted form of a collection: a self-describing binary encoding,
//! little-endian throughout.
//!
//! Layout: the number of entries as a `u64`, then for each entry the byte
//! length of its name as a `u64`, the name in UTF-8, and its show count as a
//! `u64`. Decoding accepts exactly the byte strings this layout produces for
//! a well-formed collection, and rejects anything else, so that a corrupt
//! state file degrades to a fresh directory scan instead of corrupting the
//! weighting.

use vstd::bytes::{
    lemma_auto_spec_u64_to_from_le_bytes, spec_u64_from_le_bytes, spec_u64_to_le_bytes,
    u64_from_le_bytes, u64_to_le_bytes,
};
use vstd::prelude::*;
use vstd::slice::slice_subrange;
use vstd::utf8::{decode_utf8, encode_utf8, encode_utf8_decode_utf8, encode_utf8_valid_utf8, valid_utf8};

use crate::wallpapers::{distinct_names, models, wallpapers_distinct, Wallpaper, WallpaperModel};

verus! {

/// The bytes of one entry: the name's UTF-8 byte length, the name's UTF-8
/// bytes, then the show count.
pub open spec fn entry_bytes(m: WallpaperModel) -> Seq<u8> {
    spec_u64_to_le_bytes(encode_utf8(m.name).len() as u64) + encode_utf8(m.name)
        + spec_u64_to_le_bytes(m.count as u64)
}

/// The concatenated bytes of all entries, in order.
pub open spec fn entries_bytes(s: Seq<WallpaperModel>) -> Seq<u8>
    decreases s.len(),
{
    if s.len() == 0 {
        Seq::empty()
    } else {
        entry_bytes(s.first()) + entries_bytes(s.drop_first())
    }
}

/// The persisted form of a whole collection: the entry count, then the
/// entries.
pub open spec fn state_bytes(s: Seq<WallpaperModel>) -> Seq<u8> {
    spec_u64_to_le_bytes(s.len() as u64) + entries_bytes(s)
}

/// The machine-size side conditions under which a model can be persisted
/// faithfully. Any collection actually held in memory satisfies them.
pub open spec fn encodable(s: Seq<WallpaperModel>) -> bool {
    &&& s.len() <= u64::MAX
    &&& forall|j: int| 0 <= j < s.len() ==> #[trigger] s[j].count <= usize::MAX
    &&& forall|j: int| 0 <= j < s.len() ==> encode_utf8(#[trigger] s[j].name).len() <= u64::MAX
}

/// Appending an entry appends its bytes.
pub proof fn lemma_entries_bytes_push(s: Seq<WallpaperModel>, m: WallpaperModel)
    ensures
        entries_bytes(s.push(m)) == entries_bytes(s) + entry_bytes(m),
    decreases s.len(),
{
    if s.len() == 0 {
        assert(s.push(m)[0] == m);
        assert(s.push(m).drop_first() =~= Seq::<WallpaperModel>::empty());
        assert(entries_bytes(s.push(m).drop_first()) == Seq::<u8>::empty());
        assert(entries_bytes(s.push(m)) =~= entries_bytes(s) + entry_bytes(m));
    } else {
        assert(s.push(m)[0] == s[0]);
        assert(s.push(m).drop_first() =~= s.drop_first().push(m));
        lemma_entries_bytes_push(s.drop_first(), m);
        assert(entries_bytes(s.push(m)) =~= entries_bytes(s) + entry_bytes(m));
    }
}

/// Serializes the collection into its persisted byte form.
pub fn encode_state(wallpapers: &Vec<Wallpaper>) -> (r: Vec<u8>)
    ensures
        r@ == state_bytes(models(wallpapers@)),
{
    let ghost ms = models(wallpapers@);
    proof {
        lemma_auto_spec_u64_to_from_le_bytes();
    }
    let n = wallpapers.len();
    let mut out: Vec<u8> = u64_to_le_bytes(n as u64);
    let mut i: usize = 0;
    while i < n
        invariant
            0 <= i <= n,
            n == wallpapers@.len(),
            ms == models(wallpapers@),
            out@ == spec_u64_to_le_bytes(n as u64) + entries_bytes(ms.take(i as int)),
        decreases n - i,
    {
        let name_bytes = wallpapers[i].file_name.as_str().as_bytes();
        let mut len_bytes = u64_to_le_bytes(name_bytes.len() as u64);
        let ghost len_view = len_bytes@;
        out.append(&mut len_bytes);
        out.extend_from_slice(name_bytes);
        let mut count_bytes = u64_to_le_bytes(wallpapers[i].count as u64);
        let ghost count_view = count_bytes@;
        out.append(&mut count_bytes);
        proof {
            assert(ms[i as int].name == wallpapers@[i as int].file_name@);
            assert(name_bytes@ == encode_utf8(ms[i as int].name));
            assert(ms[i as int].count as u64 == wallpapers@[i as int].count as u64);
            assert(entry_bytes(ms[i as int]) == len_view + name_bytes@ + count_view);
            assert(ms.take(i + 1).drop_last() =~= ms.take(i as int));
            assert(ms.take(i + 1) =~= ms.take(i as int).push(ms[i as int]));
            lemma_entries_bytes_push(ms.take(i as int), ms[i as int]);
            assert(out@ =~= spec_u64_to_le_bytes(n as u64) + entries_bytes(ms.take(i + 1)));
        }
        i = i + 1;
    }
    proof {
        assert(ms.take(n as int) =~= ms);
    }
    out
}

/// Joins already-decoded entries with the outcome of decoding the rest.
pub open spec fn glue(
    acc: Seq<WallpaperModel>,
    rest: Option<Seq<WallpaperModel>>,
) -> Option<Seq<WallpaperModel>> {
    match rest {
        None => None,
        Some(r) => Some(acc + r),
    }
}

/// Decodes exactly `n` entries from `b`, requiring that they use the bytes
/// completely.
pub open spec fn decode_entries(b: Seq<u8>, n: nat) -> Option<Seq<WallpaperModel>>
    decreases n,
{
    if n == 0 {
        if b.len() == 0 {
            Some(Seq::empty())
        } else {
            None
        }
    } else if b.len() < 8 {
        None
    } else {
        let nl = spec_u64_from_le_bytes(b.take(8)) as int;
        if b.len() < 16 + nl {
            None
        } else {
            let name_b = b.subrange(8, 8 + nl);
            if !valid_utf8(name_b) {
                None
            } else {
                let count = spec_u64_from_le_bytes(b.subrange(8 + nl, 16 + nl));
                if count > usize::MAX {
                    None
                } else {
                    glue(
                        seq![WallpaperModel { name: decode_utf8(name_b), count: count as nat }],
                        decode_entries(b.skip(16 + nl), (n - 1) as nat),
                    )
                }
            }
        }
    }
}

/// What a persisted byte string decodes to: `None` unless it is exactly the
/// encoding of some well-formed collection whose counts fit in memory.
pub open spec fn spec_decode(b: Seq<u8>) -> Option<Seq<WallpaperModel>> {
    if b.len() < 8 {
        None
    } else {
        match decode_entries(b.skip(8), spec_u64_from_le_bytes(b.take(8)) as nat) {
            None => None,
            Some(s) => if distinct_names(s) {
                Some(s)
            } else {
                None
            },
        }
    }
}

/// Entry encodings decode back to the entries they came from.
proof fn lemma_entries_round_trip(s: Seq<WallpaperModel>)
    requires
        forall|j: int| 0 <= j < s.len() ==> #[trigger] s[j].count <= usize::MAX,
        forall|j: int| 0 <= j < s.len() ==> encode_utf8(#[trigger] s[j].name).len() <= u64::MAX,
    ensures
        decode_entries(entries_bytes(s), s.len()) == Some(s),
    decreases s.len(),
{
    lemma_auto_spec_u64_to_from_le_bytes();
    if s.len() > 0 {
        let m = s.first();
        let nb = encode_utf8(m.name);
        let nl = nb.len() as int;
        let b = entries_bytes(s);
        let rest = entries_bytes(s.drop_first());
        assert(m.count <= usize::MAX && nb.len() <= u64::MAX);
        assert(b == entry_bytes(m) + rest);
        assert(b.take(8) =~= spec_u64_to_le_bytes(nb.len() as u64));
        assert(spec_u64_from_le_bytes(b.take(8)) == nb.len() as u64);
        assert(b.len() >= 16 + nl);
        assert(b.subrange(8, 8 + nl) =~= nb);
        encode_utf8_valid_utf8(m.name);
        encode_utf8_decode_utf8(m.name);
        assert(b.subrange(8 + nl, 16 + nl) =~= spec_u64_to_le_bytes(m.count as u64));
        assert(spec_u64_from_le_bytes(b.subrange(8 + nl, 16 + nl)) == m.count as u64);
        assert(b.skip(16 + nl) =~= rest);
        assert forall|j: int| 0 <= j < s.drop_first().len() implies #[trigger] s.drop_first()[j].count
            <= usize::MAX by {
            assert(s.drop_first()[j] == s[j + 1]);
        }
        assert forall|j: int|
            0 <= j < s.drop_first().len() implies encode_utf8(
            #[trigger] s.drop_first()[j].name,
        ).len() <= u64::MAX by {
            assert(s.drop_first()[j] == s[j + 1]);
        }
        lemma_entries_round_trip(s.drop_first());
        assert(decode_entries(rest, (s.len() - 1) as nat) == Some(s.drop_first()));
        assert(WallpaperModel { name: decode_utf8(nb), count: (m.count as u64) as nat } == m);
        assert(seq![m] + s.drop_first() =~= s);
        assert(decode_entries(b, s.len()) == Some(s));
    }
}

/// Decoding the encoding of any well-formed collection that fits in memory
/// gives the collection back, entry for entry and in order.
pub proof fn lemma_state_round_trip(s: Seq<WallpaperModel>)
    requires
        distinct_names(s),
        encodable(s),
    ensures
        spec_decode(state_bytes(s)) == Some(s),
{
    lemma_auto_spec_u64_to_from_le_bytes();
    let b = state_bytes(s);
    assert(b.take(8) =~= spec_u64_to_le_bytes(s.len() as u64));
    assert(spec_u64_from_le_bytes(b.take(8)) == s.len() as u64);
    assert(b.skip(8) =~= entries_bytes(s));
    lemma_entries_round_trip(s);
}

/// Relies on str::from_utf8 and str::to_owned: the conversion succeeds
/// exactly on valid UTF-8, and the returned string's UTF-8 bytes are the
/// input bytes.
#[verifier::external_body]
fn bytes_to_string(v: &[u8]) -> (r: Option<String>)
    ensures
        r is Some <==> valid_utf8(v@),
        r matches Some(s) ==> encode_utf8(s@) == v@,
{
    match std::str::from_utf8(v) {
        Ok(s) => Some(s.to_owned()),
        Err(_) => None,
    }
}

/// Parses the persisted byte form back into a collection; `None` on any
/// malformed input, exactly as [`spec_decode`] describes.
pub fn decode_state(bytes: &[u8]) -> (r: Option<Vec<Wallpaper>>)
    ensures
        match r {
            Some(ws) => spec_decode(bytes@) == Some(models(ws@)),
            None => spec_decode(bytes@) is None,
        },
{
    proof {
        lemma_auto_spec_u64_to_from_le_bytes();
    }
    let blen = bytes.len();
    if blen < 8 {
        return None;
    }
    let n64 = u64_from_le_bytes(slice_subrange(bytes, 0, 8));
    proof {
        assert(bytes@.subrange(0, 8) =~= bytes@.take(8));
    }
    let ghost total = decode_entries(bytes@.skip(8), n64 as nat);
    let mut out: Vec<Wallpaper> = Vec::new();
    let mut pos: usize = 8;
    let mut k: u64 = 0;
    proof {
        assert(models(out@) =~= Seq::<WallpaperModel>::empty());
        if decode_entries(bytes@.skip(8), n64 as nat) is Some {
            let r = decode_entries(bytes@.skip(8), n64 as nat)->Some_0;
            assert(models(out@) + r =~= r);
        }
        assert(total == glue(models(out@), decode_entries(bytes@.skip(pos as int), (n64 - k) as nat)));
    }
    while k < n64
        invariant
            8 <= pos <= blen,
            blen == bytes@.len(),
            0 <= k <= n64,
            n64 == spec_u64_from_le_bytes(bytes@.take(8)),
            total == decode_entries(bytes@.skip(8), n64 as nat),
            total == glue(models(out@), decode_entries(bytes@.skip(pos as int), (n64 - k) as nat)),
        decreases n64 - k,
    {
        let ghost rem = (n64 - k) as nat;
        let ghost b2 = bytes@.skip(pos as int);
        let remaining = blen - pos;
        if remaining < 8 {
            proof {
                assert(decode_entries(b2, rem) is None);
                assert(total is None);
            }
            return None;
        }
        let nl64 = u64_from_le_bytes(slice_subrange(bytes, pos, pos + 8));
        proof {
            assert(bytes@.subrange(pos as int, pos + 8) =~= b2.take(8));
        }
        if (remaining as u128) < 16 + (nl64 as u128) {
            proof {
                assert(b2.len() < 16 + nl64 as int);
                assert(decode_entries(b2, rem) is None);
                assert(total is None);
            }
            return None;
        }
        let nl = nl64 as usize;
        let name_slice = slice_subrange(bytes, pos + 8, pos + 8 + nl);
        proof {
            assert(name_slice@ =~= b2.subrange(8, 8 + nl as int));
        }
        let name_opt = bytes_to_string(name_slice);
        let name = match name_opt {
            Some(s) => s,
            None => {
                proof {
                    assert(!valid_utf8(b2.subrange(8, 8 + nl as int)));
                    assert(decode_entries(b2, rem) is None);
                    assert(total is None);
                }
                return None;
            },
        };
        let cnt64 = u64_from_le_bytes(slice_subrange(bytes, pos + 8 + nl, pos + 16 + nl));
        proof {
            assert(bytes@.subrange(pos + 8 + nl as int, pos + 16 + nl as int) =~= b2.subrange(
                8 + nl as int,
                16 + nl as int,
            ));
        }
        if cnt64 > (usize::MAX as u64) {
            proof {
                assert(decode_entries(b2, rem) is None);
                assert(total is None);
            }
            return None;
        }
        let ghost mdl = WallpaperModel {
            name: decode_utf8(b2.subrange(8, 8 + nl as int)),
            count: cnt64 as nat,
        };
        let ghost nview = name@;
        let ghost prev = out@;
        out.push(Wallpaper { file_name: name, count: cnt64 as usize });
        pos = pos + 16 + nl;
        k = k + 1;
        proof {
            encode_utf8_decode_utf8(nview);
            assert(nview == mdl.name);
            assert(models(out@)[prev.len() as int] == mdl);
            assert forall|j: int| 0 <= j < prev.len() implies models(out@)[j] == models(prev)[j] by {
                assert(out@[j] == prev[j]);
            }
            assert(models(out@) =~= models(prev).push(mdl));
            assert(b2.skip(16 + nl as int) =~= bytes@.skip(pos as int));
            assert(decode_entries(b2, rem) == glue(
                seq![mdl],
                decode_entries(bytes@.skip(pos as int), (n64 - k) as nat),
            ));
            if decode_entries(bytes@.skip(pos as int), (n64 - k) as nat) is Some {
                let r = decode_entries(bytes@.skip(pos as int), (n64 - k) as nat)->Some_0;
                assert(seq![mdl][0] == mdl);
                assert(models(prev) + (seq![mdl] + r) =~= models(prev).push(mdl) + r);
            }
            assert(total == glue(models(out@), decode_entries(bytes@.skip(pos as int), (n64 - k) as nat)));
        }
    }
    if pos != blen {
        proof {
            assert(bytes@.skip(pos as int).len() != 0);
            assert(decode_entries(bytes@.skip(pos as int), (n64 - k) as nat) is None);
            assert(total is None);
        }
        return None;
    }
    proof {
        assert(bytes@.skip(pos as int).len() == 0);
        assert(decode_entries(bytes@.skip(pos as int), (n64 - k) as nat) == Some(
            Seq::<WallpaperModel>::empty(),
        ));
        assert(models(out@) + Seq::<WallpaperModel>::empty() =~= models(out@));
        assert(total == Some(models(out@)));
    }
    if !wallpapers_distinct(&out) {
        return None;
    }
    Some(out)
}

} // verus!

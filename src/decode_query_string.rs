//! Splitting a raw query string into key/value pairs.

use vstd::prelude::*;

use crate::query_map::{map_of, QueryMap};
use crate::text::{trim_ascii, trimmed};

verus! {

/// What `String::from_utf8_lossy` makes of a byte sequence.
pub uninterp spec fn lossy_of(b: Seq<u8>) -> Seq<char>;

/// Relies on `String::from_utf8_lossy`: the bytes read as UTF-8, each invalid
/// sequence replaced by U+FFFD.
#[verifier::external_body]
fn utf8_lossy(b: &[u8]) -> (r: String)
    ensures
        r@ == lossy_of(b@),
{
    String::from_utf8_lossy(b).into_owned()
}

/// The first position in `[i, end)` that holds `c`, or `end` where none does.
pub open spec fn find_from(b: Seq<u8>, c: u8, i: int, end: int) -> int
    decreases end - i,
{
    if i >= end {
        end
    } else if b[i] == c {
        i
    } else {
        find_from(b, c, i + 1, end)
    }
}

/// A key or a value as the map holds it: read as lossy UTF-8, then trimmed
/// of ASCII whitespace.
pub open spec fn field_text(b: Seq<u8>) -> Seq<char> {
    trim_ascii(lossy_of(b))
}

/// The key and value bytes of the `&`-separated segments that start at or
/// after position `i`. A segment without `=` gives no pair; otherwise the key
/// is what precedes its first `=` and the value what lies between the first
/// `=` and the next `=` (or the end of the segment).
pub open spec fn token_pairs_from(b: Seq<u8>, i: int) -> Seq<(Seq<u8>, Seq<u8>)>
    decreases b.len() - i,
{
    if i < 0 || i > b.len() {
        seq![]
    } else {
        let j = find_from(b, 0x26, i, b.len() as int);
        let rest = if i <= j < b.len() {
            token_pairs_from(b, j + 1)
        } else {
            seq![]
        };
        let e = find_from(b, 0x3D, i, j);
        if e < j {
            let f = find_from(b, 0x3D, e + 1, j);
            seq![(b.subrange(i, e), b.subrange(e + 1, f))] + rest
        } else {
            rest
        }
    }
}

/// Each pair of byte strings converted to text as the map holds it.
pub open spec fn field_pairs(ps: Seq<(Seq<u8>, Seq<u8>)>) -> Seq<(Seq<char>, Seq<char>)> {
    ps.map_values(|p: (Seq<u8>, Seq<u8>)| (field_text(p.0), field_text(p.1)))
}

/// The map that a query string denotes: its pairs inserted in order, so that
/// a later pair overwrites an earlier one with the same key.
pub open spec fn query_pairs_map(b: Seq<u8>) -> Map<Seq<char>, Seq<char>> {
    map_of(field_pairs(token_pairs_from(b, 0)))
}

/// The views of a sequence of pairs of byte slices.
pub open spec fn slice_pairs_view(v: Seq<(&[u8], &[u8])>) -> Seq<(Seq<u8>, Seq<u8>)> {
    v.map_values(|p: (&[u8], &[u8])| (p.0@, p.1@))
}

fn find_byte(b: &[u8], c: u8, i: usize, end: usize) -> (r: usize)
    requires
        i <= end <= b@.len(),
    ensures
        r == find_from(b@, c, i as int, end as int),
        i <= r <= end,
{
    let mut k: usize = i;
    while k < end && b[k] != c
        invariant
            i <= k <= end <= b@.len(),
            find_from(b@, c, i as int, end as int) == find_from(b@, c, k as int, end as int),
        decreases end - k,
    {
        k = k + 1;
    }
    k
}

/// Splits `buffer` on `&` into segments and each segment on `=`: every
/// segment with at least one `=` gives its first fragment as a key and its
/// second as the value, in order. Segments without `=` are dropped and
/// fragments after the second are discarded.
pub fn token_pairs<'a>(buffer: &'a [u8]) -> (r: Vec<(&'a [u8], &'a [u8])>)
    ensures
        slice_pairs_view(r@) == token_pairs_from(buffer@, 0),
{
    let ghost b = buffer@;
    let n = buffer.len();
    let mut out: Vec<(&'a [u8], &'a [u8])> = Vec::new();
    let mut i: usize = 0;
    assert(slice_pairs_view(out@) + token_pairs_from(b, 0) =~= token_pairs_from(b, 0));
    while i < n
        invariant
            i <= n == b.len(),
            b == buffer@,
            slice_pairs_view(out@) + token_pairs_from(b, i as int) == token_pairs_from(b, 0),
        decreases n - i,
    {
        let j = find_byte(buffer, 0x26, i, n);
        let e = find_byte(buffer, 0x3D, i, j);
        let ghost rest = if j < n {
            token_pairs_from(b, j + 1)
        } else {
            seq![]
        };
        if e < j {
            let f = find_byte(buffer, 0x3D, e + 1, j);
            let ghost before = slice_pairs_view(out@);
            let pair = (&buffer[i..e], &buffer[e + 1..f]);
            let ghost p = (pair.0@, pair.1@);
            assert(token_pairs_from(b, i as int) == seq![p] + rest);
            out.push(pair);
            assert(slice_pairs_view(out@) =~= before.push(p));
            assert(before.push(p) + rest =~= before + (seq![p] + rest));
        }
        i = if j < n {
            j + 1
        } else {
            n
        };
        assert(token_pairs_from(b, i as int) == rest);
    }
    assert(slice_pairs_view(out@) + seq![] =~= slice_pairs_view(out@));
    out
}

/// Tokenizes `buffer` into a map: the pairs of [`token_pairs`], each key and
/// value converted leniently from UTF-8 (invalid sequences become U+FFFD) and
/// trimmed of ASCII whitespace, inserted in order so that a later key
/// overwrites an earlier one. This never fails: an empty map stands both for
/// an empty buffer and for one in which nothing could be parsed.
pub fn decode_query_string(buffer: &[u8]) -> (r: QueryMap)
    ensures
        r.wf(),
        r@ == query_pairs_map(buffer@),
{
    let pairs = token_pairs(buffer);
    let ghost fp = field_pairs(token_pairs_from(buffer@, 0));
    let mut out = QueryMap::new();
    let mut k: usize = 0;
    assert(fp.take(0) =~= seq![]);
    while k < pairs.len()
        invariant
            k <= pairs@.len() == fp.len(),
            fp == field_pairs(slice_pairs_view(pairs@)),
            out.wf(),
            out@ == map_of(fp.take(k as int)),
        decreases pairs.len() - k,
    {
        let (kb, vb) = pairs[k];
        let key = trimmed(utf8_lossy(kb).as_str());
        let value = trimmed(utf8_lossy(vb).as_str());
        assert(fp.take(k + 1).drop_last() =~= fp.take(k as int));
        out.insert(key, value);
        k = k + 1;
    }
    assert(fp.take(k as int) =~= fp);
    out
}

} // verus!

//! Decoding a whole query string: tokenizing, then percent-decoding every
//! key and every value.

use vstd::prelude::*;

use crate::decode_query_string::{decode_query_string, query_pairs_map};
use crate::decode_urlencoded::{decode_urlencoded, percent_decoded, DecodeError};
use crate::query_map::{lemma_map_of_unique, QueryMap};

verus! {

/// Every key and every value of `raw` percent-decodes.
pub open spec fn all_decodable(raw: Map<Seq<char>, Seq<char>>) -> bool {
    forall|k: Seq<char>|
        #[trigger] raw.contains_key(k) ==> percent_decoded(k) is Ok && percent_decoded(raw[k]) is Ok
}

/// `e` is the error of decoding some key or some value of `raw`.
pub open spec fn is_entry_error(raw: Map<Seq<char>, Seq<char>>, e: DecodeError) -> bool {
    exists|k: Seq<char>|
        #[trigger] raw.contains_key(k) && (percent_decoded(k) == Err::<Seq<char>, DecodeError>(e)
            || percent_decoded(raw[k]) == Err::<Seq<char>, DecodeError>(e))
}

/// `d` holds the decoded key of every entry of `raw`, and each of its entries
/// is the decoded key and the decoded value of an entry of `raw`.
pub open spec fn is_decoding_of(d: Map<Seq<char>, Seq<char>>, raw: Map<Seq<char>, Seq<char>>) -> bool {
    &&& forall|k: Seq<char>| #[trigger]
        raw.contains_key(k) ==> d.contains_key(percent_decoded(k)->Ok_0)
    &&& forall|dk: Seq<char>| #[trigger]
        d.contains_key(dk) ==> exists|k: Seq<char>|
            #[trigger] raw.contains_key(k) && percent_decoded(k) == Ok::<Seq<char>, DecodeError>(dk)
                && percent_decoded(raw[k]) == Ok::<Seq<char>, DecodeError>(d[dk])
}

/// Tokenizes `buffer` and percent-decodes every key and value. The first
/// failing decode aborts the whole call with its error; a map is returned
/// only when every key and every value decoded, and then it holds decoded
/// text only. Decoded keys that coincide keep one of their values.
pub fn decode_request(buffer: &[u8]) -> (r: Result<QueryMap, DecodeError>)
    ensures
        r is Ok <==> all_decodable(query_pairs_map(buffer@)),
        match r {
            Ok(m) => m.wf() && is_decoding_of(m@, query_pairs_map(buffer@)),
            Err(e) => is_entry_error(query_pairs_map(buffer@), e),
        },
{
    let raw = decode_query_string(buffer);
    let ghost rm = raw@;
    let ghost s = raw.entry_seq();
    proof {
        lemma_map_of_unique(s);
    }
    let n = raw.len();
    let mut out = QueryMap::new();
    let mut idx: usize = 0;
    while idx < n
        invariant
            idx <= n == s.len(),
            s == raw.entry_seq(),
            rm == raw@,
            rm == query_pairs_map(buffer@),
            out.wf(),
            forall|k: Seq<char>| #[trigger]
                rm.contains_key(k) <==> exists|i: int| 0 <= i < s.len() && s[i].0 == k,
            forall|i: int| 0 <= i < s.len() ==> #[trigger] rm[s[i].0] == s[i].1,
            forall|i: int|
                0 <= i < idx ==> percent_decoded(#[trigger] s[i].0) is Ok && percent_decoded(
                    s[i].1,
                ) is Ok,
            forall|i: int|
                0 <= i < idx ==> out@.contains_key(percent_decoded(#[trigger] s[i].0)->Ok_0),
            forall|dk: Seq<char>| #[trigger]
                out@.contains_key(dk) ==> exists|i: int|
                    0 <= i < idx && percent_decoded(#[trigger] s[i].0) == Ok::<
                        Seq<char>,
                        DecodeError,
                    >(dk) && percent_decoded(s[i].1) == Ok::<Seq<char>, DecodeError>(out@[dk]),
        decreases n - idx,
    {
        let ghost ki = s[idx as int].0;
        assert(rm.contains_key(ki));
        let key = match decode_urlencoded(raw.key_at(idx).clone()) {
            Ok(k) => k,
            Err(e) => return Err(e),
        };
        let value = match decode_urlencoded(raw.value_at(idx).clone()) {
            Ok(v) => v,
            Err(e) => return Err(e),
        };
        let ghost old_out = out@;
        out.insert(key, value);
        proof {
            assert forall|dk: Seq<char>| #[trigger]
                out@.contains_key(dk) implies exists|i: int|
                    0 <= i < idx + 1 && percent_decoded(#[trigger] s[i].0) == Ok::<
                        Seq<char>,
                        DecodeError,
                    >(dk) && percent_decoded(s[i].1) == Ok::<Seq<char>, DecodeError>(out@[dk]) by {
                if dk != percent_decoded(ki)->Ok_0 {
                    assert(old_out.contains_key(dk));
                }
            }
        }
        idx = idx + 1;
    }
    proof {
        assert forall|k: Seq<char>| #[trigger] rm.contains_key(k) implies out@.contains_key(
            percent_decoded(k)->Ok_0,
        ) && percent_decoded(k) is Ok && percent_decoded(rm[k]) is Ok by {
            let i = choose|i: int| 0 <= i < s.len() && s[i].0 == k;
        }
        assert forall|dk: Seq<char>| #[trigger] out@.contains_key(dk) implies exists|k: Seq<char>|
            #[trigger] rm.contains_key(k) && percent_decoded(k) == Ok::<Seq<char>, DecodeError>(dk)
                && percent_decoded(rm[k]) == Ok::<Seq<char>, DecodeError>(out@[dk]) by {
            let i = choose|i: int|
                0 <= i < idx && percent_decoded(#[trigger] s[i].0) == Ok::<Seq<char>, DecodeError>(
                    dk,
                ) && percent_decoded(s[i].1) == Ok::<Seq<char>, DecodeError>(out@[dk]);
            assert(rm.contains_key(s[i].0));
        }
    }
    Ok(out)
}

} // verus!

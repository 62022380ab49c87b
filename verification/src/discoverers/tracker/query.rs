//! Addresses with a query.

use url::Url;
use vstd::prelude::*;

verus! {

/// The texts of name and value pairs.
pub open spec fn pair_texts(pairs: Seq<(String, String)>) -> Seq<(Seq<char>, Seq<char>)> {
    pairs.map_values(|p: (String, String)| (p.0@, p.1@))
}

/// The address that `base` becomes when pairs are appended to its query, `None` if `base` is no
/// address.
pub uninterp spec fn url_with_pairs(
    base: Seq<char>,
    pairs: Seq<(Seq<char>, Seq<char>)>,
) -> Option<Seq<char>>;

/// How long an address may be so that it fits the 32-bit positions of `url::Url` even when every
/// character of it has to be escaped.
pub const MAX_URL_LEN: usize = 0x1000_0000;

/// Whether there are few pairs, and short ones.
pub open spec fn short_pairs(pairs: Seq<(Seq<char>, Seq<char>)>) -> bool {
    &&& pairs.len() <= 16
    &&& forall|i: int|
        0 <= i < pairs.len() ==> (#[trigger] pairs[i]).0.len() <= 100 && pairs[i].1.len() <= 100
}

/// `url::Url::parse` and `Url::query_pairs_mut` with `Serializer::extend_pairs`: the address `base`
/// with the pairs appended to its query, a function of the two; `None` if `base` does not parse.
/// `query_pairs_mut` panics where the address is too long for 32-bit positions, so the lengths are
/// bounded.
#[verifier::external_body]
pub(crate) fn append_query(base: &str, pairs: &Vec<(String, String)>) -> (r: Option<String>)
    requires
        base@.len() <= MAX_URL_LEN,
        short_pairs(pair_texts(pairs@)),
    ensures
        r is Some ==> url_with_pairs(base@, pair_texts(pairs@)) == Some(r->0@),
        r is None ==> url_with_pairs(base@, pair_texts(pairs@)) is None,
{
    let mut url = Url::parse(base).ok()?;
    url.query_pairs_mut().extend_pairs(pairs);
    Some(String::from(url))
}

} // verus!

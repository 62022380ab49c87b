//! Random numbers.
//!
//! As with the clocks, the logic takes what was drawn as an argument.

use rand::distributions::Alphanumeric;
use rand::seq::SliceRandom;
use rand::Rng;
use vstd::prelude::*;
use vstd::string::*;

verus! {

/// `rand::Rng::fill` on the thread's generator: `count` random bytes. Only their number is
/// claimed.
#[verifier::external_body]
pub(crate) fn random_bytes(count: usize) -> (r: Vec<u8>)
    ensures
        r@.len() == count,
{
    let mut buf = vec![0u8; count];
    rand::thread_rng().fill(&mut buf[..]);
    buf
}

/// `rand::Rng::gen_range` on the thread's generator: a number below `bound`. `gen_range` panics
/// on an empty range, so `bound` is positive.
#[verifier::external_body]
pub(crate) fn random_below(bound: usize) -> (r: usize)
    requires
        bound > 0,
    ensures
        r < bound,
{
    rand::thread_rng().gen_range(0..bound)
}

/// Whether `c` is one of the 62 ASCII letters and digits.
pub open spec fn is_alphanumeric(c: char) -> bool {
    ||| 'a' <= c <= 'z'
    ||| 'A' <= c <= 'Z'
    ||| '0' <= c <= '9'
}

/// `rand::Rng::sample_iter` over `rand::distributions::Alphanumeric` on the thread's generator: a
/// text of `count` ASCII letters and digits, drawn at random.
#[verifier::external_body]
pub(crate) fn random_text(count: usize) -> (r: String)
    ensures
        r@.len() == count,
        forall|i: int| 0 <= i < r@.len() ==> is_alphanumeric(#[trigger] r@[i]),
{
    rand::thread_rng().sample_iter(&Alphanumeric).take(count).map(char::from).collect()
}

/// `rand::seq::SliceRandom::choose_multiple` on the thread's generator: `amount` elements of `all`
/// (all of them if there are fewer), drawn without repetition, in any order.
#[verifier::external_body]
pub(crate) fn choose_multiple(all: &Vec<[u8; 20]>, amount: usize) -> (r: Vec<[u8; 20]>)
    ensures
        r@.len() == if amount <= all@.len() { amount as nat } else { all@.len() },
        forall|i: int| 0 <= i < r@.len() ==> all@.contains(#[trigger] r@[i]),
        all@.no_duplicates() ==> r@.no_duplicates(),
{
    all.choose_multiple(&mut rand::thread_rng(), amount).copied().collect()
}

/// A random identifier of 20 bytes.
pub(crate) fn random_id() -> [u8; 20] {
    let drawn: Vec<u8> = random_bytes(20);
    crate::bytes::take_20(drawn.as_slice(), 0)
}

/// A peer id that starts with the eight bytes of `client` and goes on at random.
pub(crate) fn random_peer_id(client: &str) -> (r: [u8; 20])
    requires
        client.spec_bytes().len() == 8,
    ensures
        r@.take(8) == client.spec_bytes(),
{
    let mut id: [u8; 20] = random_id();
    let prefix: &[u8] = client.as_bytes();
    let mut i: usize = 0;
    while i < 8
        invariant
            i <= 8,
            prefix@ == client.spec_bytes(),
            prefix@.len() == 8,
            id@.take(i as int) == prefix@.take(i as int),
        decreases 8 - i,
    {
        id[i] = prefix[i];
        i += 1;
        assert(id@.take(i as int) =~= prefix@.take(i as int));
    }
    assert(prefix@.take(8) =~= prefix@);
    id
}

/// Whether a number is that of a random identifier (UUID version 4): its version is 4 and its
/// variant is the one of RFC 4122.
pub open spec fn is_random_uuid(n: u128) -> bool {
    &&& (n / 0x1000_0000_0000_0000_0000) % 16 == 4
    &&& (n / 0x4000_0000_0000_0000) % 4 == 2
}

/// `uuid::Uuid::new_v4`: a random identifier as a number. Only its version and variant are claimed.
#[verifier::external_body]
pub(crate) fn random_uuid() -> (r: u128)
    ensures
        is_random_uuid(r),
{
    uuid::Uuid::new_v4().as_u128()
}

} // verus!

//! The value that the shared cache keeps: which channel a user has read.
use vstd::prelude::*;
use vstd::string::StringExecFns;

verus! {

/// The lowercase hexadecimal digit for `d`, which is below 16.
pub open spec fn hex_char(d: u128) -> char {
    seq!['0', '1', '2', '3', '4', '5', '6', '7', '8', '9', 'a', 'b', 'c', 'd', 'e', 'f'][d as int]
}

/// The number of hyphens before position `i` of a hyphenated UUID.
pub open spec fn hyphens_before(i: int) -> int {
    if i < 8 {
        0
    } else if i < 13 {
        1
    } else if i < 18 {
        2
    } else if i < 23 {
        3
    } else {
        4
    }
}

/// The `k`-th hexadecimal digit of `v`, counted from the most significant.
pub open spec fn nibble(v: u128, k: int) -> u128 {
    (v >> ((31 - k) * 4) as u128) & 0xf
}

/// The hyphenated lowercase text of the UUID whose bits are `v`, as in
/// `67e55044-10b1-426f-9247-bb680e5fe0c8`.
pub open spec fn hyphenated(v: u128) -> Seq<char> {
    Seq::new(
        36,
        |i: int|
            if i == 8 || i == 13 || i == 18 || i == 23 {
                '-'
            } else {
                hex_char(nibble(v, i - hyphens_before(i)))
            },
    )
}

/// The version and variant bits of a UUID.
pub const VERSION_VARIANT_MASK: u128 = 0xf000c000000000000000;

/// Those bits in a random (version 4, RFC 4122 variant) UUID.
pub const RANDOM_VERSION_BITS: u128 = 0x40008000000000000000;

/// Relies on `uuid::Uuid::new_v4` and `Uuid::as_u128`: a random UUID whose
/// version and variant bits mark it as version 4.
#[verifier::external_body]
fn random_uuid() -> (r: u128)
    ensures
        r & VERSION_VARIANT_MASK == RANDOM_VERSION_BITS,
{
    uuid::Uuid::new_v4().as_u128()
}

/// Relies on `uuid::Uuid::from_u128` and the `Display` of `uuid::Uuid`: the
/// hyphenated lowercase text of the UUID.
#[verifier::external_body]
fn uuid_text(v: u128) -> (r: String)
    ensures
        r@ == hyphenated(v),
{
    uuid::Uuid::from_u128(v).to_string()
}

/// That a user has read a channel; both are named by UUIDs, held as their
/// 128 bits.
#[derive(Clone, Copy, Debug, PartialEq, Eq, Structural)]
pub struct ReadState {
    pub user_id: u128,
    pub channel_id: u128,
}

impl ReadState {
    /// A read state for a fresh random user and channel.
    pub fn new() -> (r: Self)
        ensures
            r.user_id & VERSION_VARIANT_MASK == RANDOM_VERSION_BITS,
            r.channel_id & VERSION_VARIANT_MASK == RANDOM_VERSION_BITS,
    {
        ReadState { user_id: random_uuid(), channel_id: random_uuid() }
    }

    /// The cache key of this read state: the user's UUID, a colon, and the
    /// channel's UUID, both hyphenated.
    pub fn key(&self) -> (r: String)
        ensures
            r@ == hyphenated(self.user_id) + seq![':'] + hyphenated(self.channel_id),
    {
        let mut s = uuid_text(self.user_id);
        proof {
            reveal_strlit(":");
        }
        s.append(":");
        let c = uuid_text(self.channel_id);
        s.append(c.as_str());
        s
    }
}

} // verus!

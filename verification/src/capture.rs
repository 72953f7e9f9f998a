use vstd::prelude::*;
use time::OffsetDateTime;
use crate::ipv4::{
    Ipv4Octets, ipv4_stored, octets_of_stored, ipv4_text, i32_from_octets, octets_from_i32, format_ipv4,
    lemma_stored_round_trip,
};

verus! {

/// A point in time with a UTC offset, as the `time` crate keeps it.
#[verifier::external_type_specification]
#[verifier::external_body]
pub struct ExOffsetDateTime(time::OffsetDateTime);

/// Calls `time::OffsetDateTime::now_utc`, which reads the system clock.
/// Nothing is promised of the result: it depends on the time of the call.
#[verifier::external_body]
fn now_utc() -> (t: OffsetDateTime) {
    OffsetDateTime::now_utc()
}

/// A claim of an IP address for a nickname, not yet written to the database.
pub struct NewCapture {
    /// The address as a signed 32-bit big-endian number.
    pub ip: i32,
    /// The `/8` block of the address: its first octet.
    pub blck: i16,
    /// The nickname that claims the address.
    pub nick: String,
    /// When the claim was made.
    pub claimed_at: OffsetDateTime,
}

/// A claim as the database holds it.
pub struct Capture {
    /// The address as a signed 32-bit big-endian number.
    pub ip: i32,
    /// The `/8` block of the address: its first octet.
    pub blck: i16,
    /// The nickname that holds the address.
    pub nick: String,
    /// When the address was last claimed.
    pub claimed_at: OffsetDateTime,
}

/// Whether `c` is the claim of `ip` for `nick`.
pub open spec fn is_claim_of(c: NewCapture, ip: Ipv4Octets, nick: Seq<char>) -> bool {
    &&& c.ip == ipv4_stored(ip)
    &&& c.blck == ip[0] as i16
    &&& c.nick@ == nick
}

impl NewCapture {
    /// The claim of `ip` for `nick` made at `claimed_at`.
    pub fn create_from_ip_and_nick_at(ip: Ipv4Octets, nick: String, claimed_at: OffsetDateTime) -> (c:
        Self)
        ensures
            is_claim_of(c, ip, nick@),
            c.claimed_at == claimed_at,
    {
        NewCapture { nick, ip: i32_from_octets(ip), blck: ip[0] as i16, claimed_at }
    }

    /// The claim of `ip` for `nick`, made now (UTC).
    pub fn create_from_ip_and_nick_now(ip: Ipv4Octets, nick: String) -> (c: Self)
        ensures
            is_claim_of(c, ip, nick@),
    {
        Self::create_from_ip_and_nick_at(ip, nick, now_utc())
    }
}

impl Capture {
    /// The address of the capture.
    pub fn get_ip(&self) -> (ip: Ipv4Octets)
        ensures
            ip == octets_of_stored(self.ip),
    {
        octets_from_i32(self.ip)
    }
}

/// The dotted-decimal text of an address stored as a signed 32-bit
/// big-endian number, as captures are serialized.
pub fn i32_to_ip(i: &i32) -> (s: String)
    ensures
        s@ == ipv4_text(octets_of_stored(*i)),
{
    format_ipv4(octets_from_i32(*i))
}

/// A claim stores its address so that it reads back as the claimed address,
/// and its block is the first octet of that address.
pub proof fn lemma_claim_reads_back(c: NewCapture, ip: Ipv4Octets, nick: Seq<char>)
    requires
        is_claim_of(c, ip, nick),
    ensures
        octets_of_stored(c.ip) == ip,
        c.blck == octets_of_stored(c.ip)[0] as i16,
{
    lemma_stored_round_trip(ip);
}

} // verus!

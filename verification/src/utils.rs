//! The range of addresses to scan, as the command line gives it.

use crate::ipv4::{lemma_text_injective, Ipv4};
use crate::models::is_ipv4_text;
use crate::text::{read_decimal_u8, split, split_chars, string_views, to_chars, u8_of, views};
use vstd::prelude::*;
use vstd::string::StringExecFns;

verus! {

/// Why a range was refused.
#[derive(Clone, Copy, Debug, PartialEq, Eq, Structural)]
pub enum ParseError {
    /// Not exactly one dash.
    InvalidFormat,
    /// What stands before the dash is no IPv4 address.
    InvalidIp,
    /// What stands behind the dash is no number up to 255, or lies below the
    /// last octet of the address.
    InvalidRange,
}

impl ParseError {
    /// The text that tells the user of the error.
    pub open spec fn text(self) -> Seq<char> {
        match self {
            ParseError::InvalidFormat => "Invalid format. Expected format: 192.168.1.1-254"@,
            ParseError::InvalidIp => "Invalid IP address"@,
            ParseError::InvalidRange =>
                "Invalid range. Start must be less than or equal to end, and within 0-255"@,
        }
    }

    /// The text that tells the user of the error.
    pub fn to_string(&self) -> (out: String)
        ensures
            out@ == self.text(),
    {
        match self {
            ParseError::InvalidFormat => String::from_str(
                "Invalid format. Expected format: 192.168.1.1-254",
            ),
            ParseError::InvalidIp => String::from_str("Invalid IP address"),
            ParseError::InvalidRange => String::from_str(
                "Invalid range. Start must be less than or equal to end, and within 0-255",
            ),
        }
    }
}

/// The address that a dotted-decimal text writes.
pub open spec fn ipv4_of(text: Seq<char>) -> Ipv4 {
    choose|ip: Ipv4| text == #[trigger] ip.text()
}

/// The addresses from `start` up to the one whose last octet is `end`.
pub open spec fn addresses(start: Ipv4, end: u8) -> Seq<Ipv4> {
    Seq::new(
        (end - start.d + 1) as nat,
        |i: int| Ipv4 { a: start.a, b: start.b, c: start.c, d: (start.d + i) as u8 },
    )
}

/// What a range such as `10.10.0.1-254` stands for: the addresses that share
/// the first three octets of the one given, from its last octet up to the
/// number behind the dash, in ascending order.
pub open spec fn ip_range(range: Seq<char>) -> Result<Seq<Ipv4>, ParseError> {
    let parts = split(range, '-');
    if parts.len() != 2 {
        Err(ParseError::InvalidFormat)
    } else if !is_ipv4_text(parts[0]) {
        Err(ParseError::InvalidIp)
    } else {
        match u8_of(parts[1], 10) {
            None => Err(ParseError::InvalidRange),
            Some(end) => if ipv4_of(parts[0]).d > end {
                Err(ParseError::InvalidRange)
            } else {
                Ok(addresses(ipv4_of(parts[0]), end))
            },
        }
    }
}

/// Reads a range of addresses such as `10.10.0.1-254`.
pub fn parse_ip_range(range_str: &str) -> (out: Result<Vec<Ipv4>, ParseError>)
    ensures
        match out {
            Ok(ips) => ip_range(range_str@) == Ok::<Seq<Ipv4>, ParseError>(ips@),
            Err(e) => ip_range(range_str@) == Err::<Seq<Ipv4>, ParseError>(e),
        },
{
    let chars = to_chars(range_str);
    let parts = split_chars(&chars, '-');
    assert(views(parts@).len() == parts@.len());
    if parts.len() != 2 {
        return Err(ParseError::InvalidFormat);
    }
    assert(views(parts@)[0] == parts@[0]@ && views(parts@)[1] == parts@[1]@);
    let start = match Ipv4::parse_chars(&parts[0]) {
        Some(ip) => ip,
        None => {
            return Err(ParseError::InvalidIp);
        },
    };
    proof {
        assert(is_ipv4_text(parts@[0]@));
        lemma_text_injective(start, ipv4_of(parts@[0]@));
    }
    let end = match read_decimal_u8(&parts[1]) {
        Some(n) => n,
        None => {
            return Err(ParseError::InvalidRange);
        },
    };
    if start.d > end {
        return Err(ParseError::InvalidRange);
    }
    let mut ips: Vec<Ipv4> = Vec::new();
    let mut last: u8 = start.d;
    ips.push(Ipv4::new(start.a, start.b, start.c, last));
    while last < end
        invariant
            start.d <= last <= end,
            ips.len() == last - start.d + 1,
            forall|i: int|
                0 <= i < ips.len() ==> #[trigger] ips@[i] == (Ipv4 {
                    a: start.a,
                    b: start.b,
                    c: start.c,
                    d: (start.d + i) as u8,
                }),
        decreases end - last,
    {
        last = last + 1;
        ips.push(Ipv4::new(start.a, start.b, start.c, last));
    }
    assert(ips@ =~= addresses(start, end));
    Ok(ips)
}

/// The arguments with which the system's `ip` command empties the neighbour
/// cache: of one interface, or of all.
pub open spec fn flush_arguments_for(interface: Option<Seq<char>>) -> Seq<Seq<char>> {
    match interface {
        Some(name) => seq!["neigh"@, "flush"@, "dev"@, name],
        None => seq!["neigh"@, "flush"@, "all"@],
    }
}

/// The arguments for emptying the neighbour cache before a scan.
pub fn flush_arguments(interface: Option<&str>) -> (out: Vec<String>)
    ensures
        string_views(out@) == flush_arguments_for(
            match interface {
                Some(name) => Some(name@),
                None => None,
            },
        ),
{
    let mut out: Vec<String> = Vec::new();
    out.push(String::from_str("neigh"));
    out.push(String::from_str("flush"));
    match interface {
        Some(name) => {
            out.push(String::from_str("dev"));
            out.push(String::from_str(name));
            assert(string_views(out@) =~= seq!["neigh"@, "flush"@, "dev"@, name@]);
        },
        None => {
            out.push(String::from_str("all"));
            assert(string_views(out@) =~= seq!["neigh"@, "flush"@, "all"@]);
        },
    }
    out
}

/// The rank of an address in the table: its value as a 32-bit number, or zero
/// for a text that is no address.
pub open spec fn address_rank(text: Seq<char>) -> u32 {
    if is_ipv4_text(text) {
        let ip = ipv4_of(text);
        (ip.a as int * 16777216 + ip.b as int * 65536 + ip.c as int * 256 + ip.d as int) as u32
    } else {
        0
    }
}

/// The rank by which the table orders a device's address.
pub fn rank_address(ip: &str) -> (out: u32)
    ensures
        out == address_rank(ip@),
{
    match Ipv4::parse(ip) {
        Some(found) => {
            proof {
                assert(is_ipv4_text(ip@));
                lemma_text_injective(found, ipv4_of(ip@));
            }
            found.a as u32 * 16777216 + found.b as u32 * 65536 + found.c as u32 * 256
                + found.d as u32
        },
        None => 0,
    }
}

} // verus!

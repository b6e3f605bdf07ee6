//! Host names out of DHCP lease files, in the two formats in common use.

use crate::table::StringMap;
use crate::text::{chars_between, chars_equal, chars_start_with, from_chars, lines, split_lines,
    split_words, starts_with, strip, strip_chars, to_chars, trim, trim_chars, views, words};
use vstd::prelude::*;

verus! {

/// Where lease files are commonly kept, in the order in which they are read.
pub const LEASE_FILES: [&'static str; 6] = [
    "/var/lib/dhcp/dhcpd.leases",
    "/var/lib/dhcpd/dhcpd.leases",
    "/tmp/dhcp.leases",
    "/var/lib/misc/dnsmasq.leases",
    "/var/lib/dnsmasq/dnsmasq.leases",
    "/etc/pihole/dhcp.leases",
];

/// What a line in the form `timestamp mac ip hostname ...` binds: the third
/// word to the fourth, unless the fourth is a lone asterisk.
pub open spec fn flat_lease(line: Seq<char>) -> Option<(Seq<char>, Seq<char>)> {
    let fields = words(line);
    if fields.len() >= 4 && fields[3] != "*"@ {
        Some((fields[2], fields[3]))
    } else {
        None
    }
}

/// The table after the flat leases of the lines, a later line replacing an
/// earlier one for the same address.
pub open spec fn with_flat_leases(table: Map<Seq<char>, Seq<char>>, text_lines: Seq<Seq<char>>) -> Map<
    Seq<char>,
    Seq<char>,
>
    decreases text_lines.len(),
{
    if text_lines.len() == 0 {
        table
    } else {
        let before = with_flat_leases(table, text_lines.drop_last());
        match flat_lease(text_lines.last()) {
            Some((ip, name)) => before.insert(ip, name),
            None => before,
        }
    }
}

/// The address that a line `lease <ip> {` opens a block for.
pub open spec fn block_address(trimmed: Seq<char>) -> Option<Seq<char>> {
    let fields = words(trimmed.skip(6));
    if starts_with(trimmed, "lease "@) && fields.len() > 0 {
        Some(fields[0])
    } else {
        None
    }
}

/// The host name in a line `client-hostname "name";`: what follows the keyword,
/// without the white space, quotes and semicolons at its ends.
pub open spec fn block_hostname(trimmed: Seq<char>) -> Option<Seq<char>> {
    let name = strip(trimmed.skip(15), seq!['"', ';']);
    if starts_with(trimmed, "client-hostname"@) && name.len() > 0 {
        Some(name)
    } else {
        None
    }
}

/// The table and the address of the block being read, after one more line: a
/// `lease` line opens a block and sets its address; a line that is a lone
/// closing brace ends the block, so that no address is set; any other line
/// inside a block may bind the block's address to a host name.
pub open spec fn block_step(
    state: (Map<Seq<char>, Seq<char>>, Option<Seq<char>>),
    line: Seq<char>,
) -> (Map<Seq<char>, Seq<char>>, Option<Seq<char>>) {
    let trimmed = trim(line);
    if starts_with(trimmed, "lease "@) {
        match block_address(trimmed) {
            Some(ip) => (state.0, Some(ip)),
            None => state,
        }
    } else if trimmed == "}"@ {
        (state.0, None)
    } else {
        match (state.1, block_hostname(trimmed)) {
            (Some(ip), Some(name)) => (state.0.insert(ip, name), state.1),
            _ => state,
        }
    }
}

/// The table and the current address after the block leases of the lines.
pub open spec fn with_block_leases(table: Map<Seq<char>, Seq<char>>, text_lines: Seq<Seq<char>>) -> (
    Map<Seq<char>, Seq<char>>,
    Option<Seq<char>>,
)
    decreases text_lines.len(),
{
    if text_lines.len() == 0 {
        (table, None)
    } else {
        block_step(with_block_leases(table, text_lines.drop_last()), text_lines.last())
    }
}

/// The table after a lease file: every line is first read as a flat lease, then
/// the lines are read again as lease blocks.
pub open spec fn with_leases(table: Map<Seq<char>, Seq<char>>, content: Seq<char>) -> Map<
    Seq<char>,
    Seq<char>,
> {
    with_block_leases(with_flat_leases(table, lines(content)), lines(content)).0
}

/// Reads the leases of one file into the table.
pub fn parse_dhcp_leases(content: &str, leases: &mut StringMap)
    ensures
        final(leases)@ == with_leases(old(leases)@, content@),
{
    let text = to_chars(content);
    let all = split_lines(&text);
    let ghost every = lines(content@);
    let star = to_chars("*");
    let mut i: usize = 0;
    proof {
        assert(every.take(0) =~= Seq::<Seq<char>>::empty());
    }
    while i < all.len()
        invariant
            i <= all.len(),
            views(all@) == every,
            star@ == "*"@,
            leases@ == with_flat_leases(old(leases)@, every.take(i as int)),
        decreases all.len() - i,
    {
        proof {
            assert(every.take(i + 1).drop_last() =~= every.take(i as int));
            assert(every.take(i + 1).last() == all@[i as int]@);
        }
        let fields = split_words(&all[i]);
        assert(views(fields@).len() == fields@.len());
        if fields.len() >= 4 {
            assert(views(fields@)[2] == fields@[2]@ && views(fields@)[3] == fields@[3]@);
            if !chars_equal(&fields[3], &star) {
                leases.insert(from_chars(&fields[2]), from_chars(&fields[3]));
            }
        }
        i = i + 1;
    }
    proof {
        assert(every.take(i as int) =~= every);
    }
    let ghost flat = leases@;
    let lease_word = to_chars("lease ");
    let hostname_word = to_chars("client-hostname");
    let closing = to_chars("}");
    let mut ends: Vec<char> = Vec::new();
    ends.push('"');
    ends.push(';');
    assert(ends@ =~= seq!['"', ';']);
    let mut current: Option<Vec<char>> = None;
    let mut k: usize = 0;
    proof {
        assert(every.take(0) =~= Seq::<Seq<char>>::empty());
    }
    while k < all.len()
        invariant
            k <= all.len(),
            views(all@) == every,
            lease_word@ == "lease "@,
            hostname_word@ == "client-hostname"@,
            closing@ == "}"@,
            ends@ == seq!['"', ';'],
            (leases@, match current {
                Some(ip) => Some(ip@),
                None => None,
            }) == with_block_leases(flat, every.take(k as int)),
        decreases all.len() - k,
    {
        proof {
            assert(every.take(k + 1).drop_last() =~= every.take(k as int));
            assert(every.take(k + 1).last() == all@[k as int]@);
            reveal_strlit("lease ");
            reveal_strlit("client-hostname");
            reveal_strlit("}");
        }
        let trimmed = trim_chars(&all[k]);
        if chars_start_with(&trimmed, &lease_word) {
            let rest = chars_between(&trimmed, 6, trimmed.len());
            assert(rest@ =~= trimmed@.skip(6));
            let mut fields = split_words(&rest);
            assert(views(fields@).len() == fields@.len());
            if fields.len() > 0 {
                assert(views(fields@)[0] == fields@[0]@);
                current = Some(fields.swap_remove(0));
            }
        } else if chars_equal(&trimmed, &closing) {
            current = None;
        } else if chars_start_with(&trimmed, &hostname_word) {
            let rest = chars_between(&trimmed, 15, trimmed.len());
            assert(rest@ =~= trimmed@.skip(15));
            let name = strip_chars(&rest, &ends);
            if name.len() > 0 {
                match &current {
                    Some(ip) => {
                        leases.insert(from_chars(ip), from_chars(&name));
                    },
                    None => {},
                }
            }
        }
        k = k + 1;
    }
    proof {
        assert(every.take(k as int) =~= every);
    }
}

} // verus!

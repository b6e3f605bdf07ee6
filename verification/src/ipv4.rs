//! IPv4 addresses and their dotted-decimal text.

use crate::text::{from_chars, join, lemma_split_join, lemma_split_of_join, free_of, split, split_chars,
    to_chars, views};
use vstd::prelude::*;

verus! {

/// An IPv4 address, as its four octets from the most significant down.
#[derive(Clone, Copy, Debug, PartialEq, Eq, Structural, Hash)]
pub struct Ipv4 {
    pub a: u8,
    pub b: u8,
    pub c: u8,
    pub d: u8,
}

/// The character of a decimal digit `0 <= d <= 9`.
pub open spec fn digit_char(d: int) -> char {
    ((d + 48) as u8) as char
}

/// The decimal text of an octet, without leading zeros.
pub open spec fn octet_text(n: u8) -> Seq<char> {
    if n < 10 {
        seq![digit_char(n as int)]
    } else if n < 100 {
        seq![digit_char(n as int / 10), digit_char(n as int % 10)]
    } else {
        seq![digit_char(n as int / 100), digit_char(n as int / 10 % 10), digit_char(n as int % 10)]
    }
}

impl Ipv4 {
    /// The dotted-decimal text of the address: four octets without leading
    /// zeros, with a dot between neighbours.
    pub open spec fn text(self) -> Seq<char> {
        join(seq![octet_text(self.a), octet_text(self.b), octet_text(self.c), octet_text(self.d)], '.')
    }

    /// The address with these octets.
    pub fn new(a: u8, b: u8, c: u8, d: u8) -> (ip: Ipv4)
        ensures
            ip == (Ipv4 { a, b, c, d }),
    {
        Ipv4 { a, b, c, d }
    }

    /// The four octets, from the most significant down.
    pub fn octets(&self) -> (out: [u8; 4])
        ensures
            out@ == seq![self.a, self.b, self.c, self.d],
    {
        let out = [self.a, self.b, self.c, self.d];
        assert(out@ =~= seq![self.a, self.b, self.c, self.d]);
        out
    }
}

/// The text of an octet holds one to three digits and no dot.
pub proof fn lemma_octet_text(n: u8)
    ensures
        1 <= octet_text(n).len() <= 3,
        free_of(octet_text(n), '.'),
{
}

/// Reads one octet: decimal digits without a sign or a leading zero, at most 255.
pub fn parse_octet(part: &Vec<char>) -> (out: Option<u8>)
    ensures
        match out {
            Some(n) => part@ == octet_text(n),
            None => forall|n: u8| part@ != octet_text(n),
        },
{
    let len = part.len();
    if len == 0 || len > 3 {
        return None;
    }
    let mut value: u32 = 0;
    let mut i: usize = 0;
    while i < len
        invariant
            len == part.len(),
            1 <= len <= 3,
            i <= len,
            forall|k: int| 0 <= k < i ==> '0' <= #[trigger] part@[k] <= '9',
            i == 0 ==> value == 0,
            i == 1 ==> value == part@[0] as int - 48,
            i == 2 ==> value == (part@[0] as int - 48) * 10 + (part@[1] as int - 48),
            i == 3 ==> value == (part@[0] as int - 48) * 100 + (part@[1] as int - 48) * 10 + (
            part@[2] as int - 48),
        decreases len - i,
    {
        let c = part[i];
        if !('0' <= c && c <= '9') {
            assert forall|n: u8| part@ != octet_text(n) by {
                if part@ == octet_text(n) {
                    assert('0' <= octet_text(n)[i as int] <= '9');
                }
            }
            return None;
        }
        value = value * 10 + (c as u32 - 48);
        i = i + 1;
    }
    if len > 1 && part[0] == '0' {
        assert forall|n: u8| part@ != octet_text(n) by {
            if part@ == octet_text(n) {
                assert(octet_text(n)[0] != '0');
            }
        }
        return None;
    }
    if value > 255 {
        assert forall|n: u8| part@ != octet_text(n) by {
            if part@ == octet_text(n) {
                assert(part@[0] == octet_text(n)[0]);
                assert(part@[1] == octet_text(n)[1]);
                assert(part@[2] == octet_text(n)[2]);
            }
        }
        return None;
    }
    let n = value as u8;
    assert(part@ =~= octet_text(n));
    Some(n)
}

/// The four octet texts of an address, the pieces of its text.
pub open spec fn octet_texts(ip: Ipv4) -> Seq<Seq<char>> {
    seq![octet_text(ip.a), octet_text(ip.b), octet_text(ip.c), octet_text(ip.d)]
}

/// The text of an address splits at its dots into the four octet texts.
pub proof fn lemma_text_pieces(ip: Ipv4)
    ensures
        split(ip.text(), '.') == octet_texts(ip),
{
    let pieces = octet_texts(ip);
    assert forall|k: int| 0 <= k < pieces.len() implies free_of(#[trigger] pieces[k], '.') by {
        lemma_octet_text(ip.a);
        lemma_octet_text(ip.b);
        lemma_octet_text(ip.c);
        lemma_octet_text(ip.d);
    }
    lemma_split_of_join(pieces, '.');
}

/// Different octets have different texts.
pub proof fn lemma_octet_text_injective(m: u8, n: u8)
    requires
        octet_text(m) == octet_text(n),
    ensures
        m == n,
{
    let t = octet_text(m);
    let u = octet_text(n);
    assert(forall|d: int| 0 <= d <= 9 ==> #[trigger] digit_char(d) as int == d + 48);
    assert(t.len() == u.len());
    let (mi, ni) = (m as int, n as int);
    if t.len() == 1 {
        assert(t[0] == digit_char(mi) && u[0] == digit_char(ni));
    } else if t.len() == 2 {
        assert(t[0] == digit_char(mi / 10) && u[0] == digit_char(ni / 10));
        assert(t[1] == digit_char(mi % 10) && u[1] == digit_char(ni % 10));
        assert(mi / 10 == ni / 10 && mi % 10 == ni % 10);
    } else {
        assert(t[0] == digit_char(mi / 100) && u[0] == digit_char(ni / 100));
        assert(t[1] == digit_char(mi / 10 % 10) && u[1] == digit_char(ni / 10 % 10));
        assert(t[2] == digit_char(mi % 10) && u[2] == digit_char(ni % 10));
        assert(mi / 100 == ni / 100 && mi / 10 % 10 == ni / 10 % 10 && mi % 10 == ni % 10);
        assert(mi / 10 == ni / 10);
    }
}

/// Different addresses have different texts.
pub proof fn lemma_text_injective(x: Ipv4, y: Ipv4)
    requires
        x.text() == y.text(),
    ensures
        x == y,
{
    lemma_text_pieces(x);
    lemma_text_pieces(y);
    let p = octet_texts(x);
    let q = octet_texts(y);
    assert(p[0] == q[0] && p[1] == q[1] && p[2] == q[2] && p[3] == q[3]);
    lemma_octet_text_injective(x.a, y.a);
    lemma_octet_text_injective(x.b, y.b);
    lemma_octet_text_injective(x.c, y.c);
    lemma_octet_text_injective(x.d, y.d);
}

/// Appends the decimal text of `n` to `out`.
pub fn push_octet(out: &mut Vec<char>, n: u8)
    ensures
        final(out)@ == old(out)@ + octet_text(n),
{
    if n >= 100 {
        out.push(((n / 100) + 48) as char);
    }
    if n >= 10 {
        out.push(((n / 10 % 10) + 48) as char);
    }
    out.push(((n % 10) + 48) as char);
    assert(out@ =~= old(out)@ + octet_text(n));
}

impl Ipv4 {
    /// Reads a dotted-decimal address from characters.
    pub fn parse_chars(chars: &Vec<char>) -> (out: Option<Ipv4>)
        ensures
            match out {
                Some(ip) => chars@ == ip.text(),
                None => forall|ip: Ipv4| chars@ != ip.text(),
            },
    {
        let parts = split_chars(chars, '.');
        proof {
            lemma_split_join(chars@, '.');
            assert forall|ip: Ipv4| chars@ == ip.text() implies split(chars@, '.') == octet_texts(
                ip,
            ) by {
                lemma_text_pieces(ip);
            }
        }
        if parts.len() != 4 {
            return None;
        }
        let ghost pieces = split(chars@, '.');
        assert(pieces[0] == parts@[0]@ && pieces[1] == parts@[1]@ && pieces[2] == parts@[2]@
            && pieces[3] == parts@[3]@);
        let a = match parse_octet(&parts[0]) {
            Some(n) => n,
            None => {
                assert forall|ip: Ipv4| chars@ != ip.text() by {
                    if chars@ == ip.text() {
                        assert(octet_texts(ip)[0] == octet_text(ip.a));
                    }
                }
                return None;
            },
        };
        let b = match parse_octet(&parts[1]) {
            Some(n) => n,
            None => {
                assert forall|ip: Ipv4| chars@ != ip.text() by {
                    if chars@ == ip.text() {
                        assert(octet_texts(ip)[1] == octet_text(ip.b));
                    }
                }
                return None;
            },
        };
        let c = match parse_octet(&parts[2]) {
            Some(n) => n,
            None => {
                assert forall|ip: Ipv4| chars@ != ip.text() by {
                    if chars@ == ip.text() {
                        assert(octet_texts(ip)[2] == octet_text(ip.c));
                    }
                }
                return None;
            },
        };
        let d = match parse_octet(&parts[3]) {
            Some(n) => n,
            None => {
                assert forall|ip: Ipv4| chars@ != ip.text() by {
                    if chars@ == ip.text() {
                        assert(octet_texts(ip)[3] == octet_text(ip.d));
                    }
                }
                return None;
            },
        };
        let ip = Ipv4 { a, b, c, d };
        proof {
            assert(pieces =~= octet_texts(ip));
        }
        Some(ip)
    }

    /// Reads a dotted-decimal address: `Some` exactly for the text of an address.
    pub fn parse(s: &str) -> (out: Option<Ipv4>)
        ensures
            match out {
                Some(ip) => s@ == ip.text(),
                None => forall|ip: Ipv4| s@ != ip.text(),
            },
    {
        let chars = to_chars(s);
        Ipv4::parse_chars(&chars)
    }

    /// The dotted-decimal text of the address.
    pub fn to_text(&self) -> (out: String)
        ensures
            out@ == self.text(),
    {
        let mut chars: Vec<char> = Vec::new();
        push_octet(&mut chars, self.a);
        chars.push('.');
        push_octet(&mut chars, self.b);
        chars.push('.');
        push_octet(&mut chars, self.c);
        chars.push('.');
        push_octet(&mut chars, self.d);
        proof {
            let p = octet_texts(*self);
            let p3 = p.drop_last();
            let p2 = p3.drop_last();
            let p1 = p2.drop_last();
            assert(join(p1, '.') == octet_text(self.a));
            assert(join(p2, '.') == join(p1, '.').push('.') + octet_text(self.b));
            assert(join(p3, '.') == join(p2, '.').push('.') + octet_text(self.c));
            assert(join(p, '.') == join(p3, '.').push('.') + octet_text(self.d));
            assert(chars@ =~= self.text());
        }
        from_chars(&chars)
    }
}

} // verus!

//! The chain of ways to find the host name of an address: lease table, reverse
//! DNS, two guessed `.local` names, NetBIOS. The first that succeeds wins.

use crate::ipv4::{octet_text, octet_texts, push_octet, Ipv4};
use crate::models::is_ipv4_text;
use crate::table::StringMap;
use crate::text::{chars_contain, chars_start_with, contains, from_chars, join, lines,
    opt_view, split_lines, split_words, starts_with, to_chars, views, words};
use vstd::prelude::*;
use vstd::string::StringExecFns;

verus! {

/// The name that a line of a NetBIOS status report gives to the machine: the
/// first word of a line that holds `<00>` and `ACTIVE` but not `GROUP`, unless
/// it begins with an underscore or two dots.
pub open spec fn netbios_line_name(line: Seq<char>) -> Option<Seq<char>> {
    let fields = words(line);
    if contains(line, "<00>"@) && contains(line, "ACTIVE"@) && !contains(line, "GROUP"@)
        && fields.len() > 0 && !starts_with(fields[0], "_"@) && !starts_with(fields[0], ".."@) {
        Some(fields[0])
    } else {
        None
    }
}

/// The name of the first line that gives one.
pub open spec fn first_netbios_name(report: Seq<Seq<char>>) -> Option<Seq<char>>
    decreases report.len(),
{
    if report.len() == 0 {
        None
    } else {
        match netbios_line_name(report[0]) {
            Some(name) => Some(name),
            None => first_netbios_name(report.drop_first()),
        }
    }
}

/// The machine name in a NetBIOS status report.
pub open spec fn netbios_name(output: Seq<char>) -> Option<Seq<char>> {
    first_netbios_name(lines(output))
}

/// Reads the machine name out of a NetBIOS status report.
pub fn parse_netbios_output(output: &str) -> (out: Option<String>)
    ensures
        opt_view(out) == netbios_name(output@),
{
    let text = to_chars(output);
    let report = split_lines(&text);
    let ghost all = lines(output@);
    let unique = to_chars("<00>");
    let active = to_chars("ACTIVE");
    let group = to_chars("GROUP");
    let underscore = to_chars("_");
    let dots = to_chars("..");
    let mut i: usize = 0;
    assert(all.skip(0) =~= all);
    while i < report.len()
        invariant
            i <= report.len(),
            views(report@) == all,
            all == lines(output@),
            unique@ == "<00>"@,
            active@ == "ACTIVE"@,
            group@ == "GROUP"@,
            underscore@ == "_"@,
            dots@ == ".."@,
            first_netbios_name(all) == first_netbios_name(all.skip(i as int)),
        decreases report.len() - i,
    {
        let line = &report[i];
        proof {
            assert(all.skip(i as int)[0] == line@);
            assert(all.skip(i as int).drop_first() =~= all.skip(i + 1));
        }
        if chars_contain(line, &unique) && chars_contain(line, &active) && !chars_contain(
            line,
            &group,
        ) {
            let fields = split_words(line);
            assert(views(fields@).len() == fields@.len());
            if fields.len() > 0 {
                assert(views(fields@)[0] == fields@[0]@);
                let name = &fields[0];
                if !chars_start_with(name, &underscore) && !chars_start_with(name, &dots) {
                    return Some(from_chars(name));
                }
            }
        }
        i = i + 1;
    }
    None
}

/// The four octets in decimal with dashes between, as in `192-168-1-100`.
pub open spec fn dashed(ip: Ipv4) -> Seq<char> {
    octet_text(ip.a) + seq!['-'] + octet_text(ip.b) + seq!['-'] + octet_text(ip.c) + seq!['-']
        + octet_text(ip.d)
}

/// The first guessed name: `ip-` before the dashed address.
pub open spec fn prefixed_guess(ip: Ipv4) -> Seq<char> {
    "ip-"@ + dashed(ip)
}

/// The name to resolve for a guess: the guess in the domain `.local`.
pub open spec fn local_name(guess: Seq<char>) -> Seq<char> {
    guess + ".local"@
}

/// Where the chain stands: which question is out.
#[derive(Clone, Copy, Debug, PartialEq, Eq, Structural)]
pub enum Stage {
    ReverseDns,
    PrefixedGuess,
    PlainGuess,
    NetBios,
    Finished,
}

/// What the chain asks of the outside next, or the name it ends with.
#[derive(Debug)]
pub enum Step {
    /// Ask for the name that reverse DNS gives to the address.
    AskReverseDns,
    /// Ask for the addresses that this name resolves to.
    AskAddresses { name: String },
    /// Ask for the NetBIOS status report of the address.
    AskNetBios,
    /// The chain has ended, with this name or without one.
    Done { hostname: Option<String> },
}

/// A step as the rules see it.
pub enum StepView {
    AskReverseDns,
    AskAddresses { name: Seq<char> },
    AskNetBios,
    Done { hostname: Option<Seq<char>> },
}

impl View for Step {
    type V = StepView;

    open spec fn view(&self) -> StepView {
        match *self {
            Step::AskReverseDns => StepView::AskReverseDns,
            Step::AskAddresses { name } => StepView::AskAddresses { name: name@ },
            Step::AskNetBios => StepView::AskNetBios,
            Step::Done { hostname } => StepView::Done { hostname: opt_view(hostname) },
        }
    }
}

/// What the outside answers to a question.
#[derive(Debug)]
pub enum Answer {
    /// The name that reverse DNS gave, if it gave one.
    ReverseName { name: Option<String> },
    /// The IPv4 addresses that a name resolved to; none where it did not resolve.
    Addresses { addresses: Vec<Ipv4> },
    /// The NetBIOS status report, if the query succeeded.
    NetBiosReport { output: Option<String> },
}

/// An answer as the rules see it.
pub enum AnswerView {
    ReverseName { name: Option<Seq<char>> },
    Addresses { addresses: Seq<Ipv4> },
    NetBiosReport { output: Option<Seq<char>> },
}

impl View for Answer {
    type V = AnswerView;

    open spec fn view(&self) -> AnswerView {
        match *self {
            Answer::ReverseName { name } => AnswerView::ReverseName { name: opt_view(name) },
            Answer::Addresses { addresses } => AnswerView::Addresses { addresses: addresses@ },
            Answer::NetBiosReport { output } => AnswerView::NetBiosReport {
                output: opt_view(output),
            },
        }
    }
}

/// How the chain begins: a lease for the address ends it at once; else reverse
/// DNS is asked.
pub open spec fn first_step(ip: Ipv4, leases: Option<Map<Seq<char>, Seq<char>>>) -> (
    Stage,
    StepView,
) {
    match leases {
        Some(table) => if table.contains_key(ip.text()) {
            (Stage::Finished, StepView::Done { hostname: Some(table[ip.text()]) })
        } else {
            (Stage::ReverseDns, StepView::AskReverseDns)
        },
        None => (Stage::ReverseDns, StepView::AskReverseDns),
    }
}

/// A character of a number or of an address: a decimal digit or a dot.
pub open spec fn is_digit_or_dot(c: char) -> bool {
    ('0' <= c <= '9') || c == '.'
}

/// A text that only echoes a number or an address and so names nothing: the
/// text of an IPv4 address, or nothing but decimal digits and dots.
pub open spec fn is_numeric_text(name: Seq<char>) -> bool {
    is_ipv4_text(name) || forall|i: int| 0 <= i < name.len() ==> is_digit_or_dot(#[trigger] name[i])
}

/// The text of an address holds nothing but decimal digits and dots.
pub proof fn lemma_address_text_digits(ip: Ipv4)
    ensures
        forall|i: int| 0 <= i < ip.text().len() ==> is_digit_or_dot(#[trigger] ip.text()[i]),
{
    let pieces = octet_texts(ip);
    let three = pieces.drop_last();
    let two = three.drop_last();
    let one = two.drop_last();
    assert(join(one, '.') == octet_text(ip.a));
    assert(join(two, '.') == join(one, '.').push('.') + octet_text(ip.b));
    assert(join(three, '.') == join(two, '.').push('.') + octet_text(ip.c));
    assert(join(pieces, '.') == join(three, '.').push('.') + octet_text(ip.d));
    lemma_octet_digits(ip.a);
    lemma_octet_digits(ip.b);
    lemma_octet_digits(ip.c);
    lemma_octet_digits(ip.d);
    let text = ip.text();
    let (la, lb, lc) = (
        octet_text(ip.a).len() as int,
        octet_text(ip.b).len() as int,
        octet_text(ip.c).len() as int,
    );
    assert forall|i: int| 0 <= i < text.len() implies is_digit_or_dot(#[trigger] text[i]) by {
        if i < la {
            assert(text[i] == octet_text(ip.a)[i]);
        } else if i == la {
            assert(text[i] == '.');
        } else if i < la + 1 + lb {
            assert(text[i] == octet_text(ip.b)[i - la - 1]);
        } else if i == la + 1 + lb {
            assert(text[i] == '.');
        } else if i < la + 1 + lb + 1 + lc {
            assert(text[i] == octet_text(ip.c)[i - la - lb - 2]);
        } else if i == la + 1 + lb + 1 + lc {
            assert(text[i] == '.');
        } else {
            assert(text[i] == octet_text(ip.d)[i - la - lb - lc - 3]);
        }
    }
}

/// The text of an octet holds nothing but decimal digits.
pub proof fn lemma_octet_digits(n: u8)
    ensures
        forall|i: int| 0 <= i < octet_text(n).len() ==> is_digit_or_dot(#[trigger] octet_text(n)[i]),
{
    let text = octet_text(n);
    assert forall|i: int| 0 <= i < text.len() implies is_digit_or_dot(#[trigger] text[i]) by {
        assert('0' <= text[i] <= '9');
    }
}

/// Whether a name only echoes a number or an address.
pub fn names_nothing(name: &str) -> (out: bool)
    ensures
        out == is_numeric_text(name@),
{
    let chars = to_chars(name);
    let mut i: usize = 0;
    while i < chars.len()
        invariant
            i <= chars.len(),
            chars@ == name@,
            forall|k: int| 0 <= k < i ==> is_digit_or_dot(#[trigger] chars@[k]),
        decreases chars.len() - i,
    {
        let c = chars[i];
        if !(('0' <= c && c <= '9') || c == '.') {
            proof {
                assert(!is_digit_or_dot(name@[i as int]));
                if is_ipv4_text(name@) {
                    let ip = choose|ip: Ipv4| name@ == #[trigger] ip.text();
                    lemma_address_text_digits(ip);
                }
            }
            return false;
        }
        i = i + 1;
    }
    true
}

/// How the chain goes on after an answer.
///
/// A reverse name is the host name unless it only echoes a number or an
/// address; an empty one ends the chain without a name; an echo, or no name,
/// leads to the first guess. A guess is the host name if the addresses it
/// resolves to include the address asked about; else the next guess follows,
/// then NetBIOS, whose report ends the chain with the name it gives, if any.
/// An answer to another question than the one that is out counts as no answer.
pub open spec fn next_step(stage: Stage, ip: Ipv4, answer: AnswerView) -> (Stage, StepView) {
    match stage {
        Stage::ReverseDns => match answer {
            AnswerView::ReverseName { name: Some(name) } => if name.len() == 0 {
                (Stage::Finished, StepView::Done { hostname: None })
            } else if !is_numeric_text(name) {
                (Stage::Finished, StepView::Done { hostname: Some(name) })
            } else {
                (Stage::PrefixedGuess, StepView::AskAddresses { name: local_name(prefixed_guess(ip)) })
            },
            _ => (Stage::PrefixedGuess, StepView::AskAddresses { name: local_name(prefixed_guess(ip)) }),
        },
        Stage::PrefixedGuess => match answer {
            AnswerView::Addresses { addresses } => if addresses.contains(ip) {
                (Stage::Finished, StepView::Done { hostname: Some(prefixed_guess(ip)) })
            } else {
                (Stage::PlainGuess, StepView::AskAddresses { name: local_name(dashed(ip)) })
            },
            _ => (Stage::PlainGuess, StepView::AskAddresses { name: local_name(dashed(ip)) }),
        },
        Stage::PlainGuess => match answer {
            AnswerView::Addresses { addresses } => if addresses.contains(ip) {
                (Stage::Finished, StepView::Done { hostname: Some(dashed(ip)) })
            } else {
                (Stage::NetBios, StepView::AskNetBios)
            },
            _ => (Stage::NetBios, StepView::AskNetBios),
        },
        Stage::NetBios => match answer {
            AnswerView::NetBiosReport { output: Some(output) } => (
                Stage::Finished,
                StepView::Done { hostname: netbios_name(output) },
            ),
            _ => (Stage::Finished, StepView::Done { hostname: None }),
        },
        Stage::Finished => (Stage::Finished, StepView::Done { hostname: None }),
    }
}

fn push_text(out: &mut Vec<char>, text: &str)
    ensures
        final(out)@ == old(out)@ + text@,
{
    let chars = to_chars(text);
    let mut i: usize = 0;
    while i < chars.len()
        invariant
            i <= chars.len(),
            chars@ == text@,
            out@ == old(out)@ + chars@.take(i as int),
        decreases chars.len() - i,
    {
        out.push(chars[i]);
        assert(out@ =~= old(out)@ + chars@.take(i + 1));
        i = i + 1;
    }
    assert(chars@.take(i as int) =~= chars@);
}

fn push_dashed(out: &mut Vec<char>, ip: Ipv4)
    ensures
        final(out)@ == old(out)@ + dashed(ip),
{
    push_octet(out, ip.a);
    out.push('-');
    push_octet(out, ip.b);
    out.push('-');
    push_octet(out, ip.c);
    out.push('-');
    push_octet(out, ip.d);
    assert(out@ =~= old(out)@ + dashed(ip));
}

/// The guessed name for an address, with or without the prefix `ip-`.
pub fn guess_name(ip: Ipv4, prefixed: bool) -> (out: String)
    ensures
        out@ == if prefixed {
            prefixed_guess(ip)
        } else {
            dashed(ip)
        },
{
    let mut chars: Vec<char> = Vec::new();
    if prefixed {
        push_text(&mut chars, "ip-");
    }
    push_dashed(&mut chars, ip);
    assert(chars@ =~= if prefixed {
        prefixed_guess(ip)
    } else {
        dashed(ip)
    });
    from_chars(&chars)
}

fn ask_guess(ip: Ipv4, prefixed: bool) -> (out: Step)
    ensures
        out@ == (StepView::AskAddresses {
            name: local_name(
                if prefixed {
                    prefixed_guess(ip)
                } else {
                    dashed(ip)
                },
            ),
        }),
{
    let mut chars: Vec<char> = Vec::new();
    if prefixed {
        push_text(&mut chars, "ip-");
    }
    push_dashed(&mut chars, ip);
    push_text(&mut chars, ".local");
    assert(chars@ =~= local_name(
        if prefixed {
            prefixed_guess(ip)
        } else {
            dashed(ip)
        },
    ));
    Step::AskAddresses { name: from_chars(&chars) }
}

fn includes(addresses: &Vec<Ipv4>, ip: Ipv4) -> (out: bool)
    ensures
        out == addresses@.contains(ip),
{
    let mut i: usize = 0;
    while i < addresses.len()
        invariant
            i <= addresses.len(),
            forall|k: int| 0 <= k < i ==> addresses@[k] != ip,
        decreases addresses.len() - i,
    {
        let here = addresses[i];
        if here.a == ip.a && here.b == ip.b && here.c == ip.c && here.d == ip.d {
            assert(addresses@[i as int] == ip);
            return true;
        }
        i = i + 1;
    }
    false
}

/// One resolution under way: the address asked about, and where the chain stands.
#[derive(Debug)]
pub struct Resolution {
    pub ip: Ipv4,
    pub stage: Stage,
}

impl Resolution {
    /// Begins the chain for `ip`, with the lease table if there is one.
    pub fn begin(ip: Ipv4, leases: Option<&StringMap>) -> (out: (Resolution, Step))
        ensures
            out.0.ip == ip,
            (out.0.stage, out.1@) == first_step(
                ip,
                match leases {
                    Some(table) => Some(table@),
                    None => None,
                },
            ),
    {
        if let Some(table) = leases {
            let key = ip.to_text();
            if let Some(name) = table.get(&key) {
                return (
                    Resolution { ip, stage: Stage::Finished },
                    Step::Done { hostname: Some(name.clone()) },
                );
            }
        }
        (Resolution { ip, stage: Stage::ReverseDns }, Step::AskReverseDns)
    }

    /// Takes the answer to the question that is out and says what comes next.
    pub fn advance(&mut self, answer: Answer) -> (out: Step)
        ensures
            final(self).ip == old(self).ip,
            (final(self).stage, out@) == next_step(old(self).stage, old(self).ip, answer@),
    {
        let ip = self.ip;
        match self.stage {
            Stage::ReverseDns => {
                if let Answer::ReverseName { name: Some(name) } = answer {
                    if name.as_str().is_empty() {
                        self.stage = Stage::Finished;
                        return Step::Done { hostname: None };
                    }
                    if !names_nothing(name.as_str()) {
                        self.stage = Stage::Finished;
                        return Step::Done { hostname: Some(name) };
                    }
                }
                self.stage = Stage::PrefixedGuess;
                ask_guess(ip, true)
            },
            Stage::PrefixedGuess => {
                if let Answer::Addresses { addresses } = answer {
                    if includes(&addresses, ip) {
                        self.stage = Stage::Finished;
                        return Step::Done { hostname: Some(guess_name(ip, true)) };
                    }
                }
                self.stage = Stage::PlainGuess;
                ask_guess(ip, false)
            },
            Stage::PlainGuess => {
                if let Answer::Addresses { addresses } = answer {
                    if includes(&addresses, ip) {
                        self.stage = Stage::Finished;
                        return Step::Done { hostname: Some(guess_name(ip, false)) };
                    }
                }
                self.stage = Stage::NetBios;
                Step::AskNetBios
            },
            Stage::NetBios => {
                self.stage = Stage::Finished;
                if let Answer::NetBiosReport { output: Some(output) } = answer {
                    return Step::Done { hostname: parse_netbios_output(output.as_str()) };
                }
                Step::Done { hostname: None }
            },
            Stage::Finished => Step::Done { hostname: None },
        }
    }
}

} // verus!

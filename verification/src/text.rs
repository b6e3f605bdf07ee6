//! Character sequences: the model that the parsers of this crate work on.

use vstd::prelude::*;

verus! {

/// `String::push` appends one character.
pub assume_specification[ String::push ](s: &mut String, ch: char)
    ensures
        final(s)@ == old(s)@.push(ch),
;

/// The view of an optional string.
pub open spec fn opt_view(o: Option<String>) -> Option<Seq<char>> {
    match o {
        Some(s) => Some(s@),
        None => None,
    }
}

/// The views of a list of strings.
pub open spec fn string_views(strings: Seq<String>) -> Seq<Seq<char>> {
    Seq::new(strings.len(), |i: int| strings[i]@)
}

/// The characters of `s`, in order.
pub fn to_chars(s: &str) -> (out: Vec<char>)
    ensures
        out@ == s@,
{
    let mut out: Vec<char> = Vec::new();
    for c in it: s.chars()
        invariant
            out@ == it.seq().take(it.index() as int),
            it.seq() == s@,
    {
        out.push(c);
    }
    out
}

/// The string made of the characters `chars`, in order.
pub fn from_chars(chars: &Vec<char>) -> (out: String)
    ensures
        out@ == chars@,
{
    let mut out = String::new();
    let mut i: usize = 0;
    while i < chars.len()
        invariant
            i <= chars.len(),
            out@ == chars@.take(i as int),
        decreases chars.len() - i,
    {
        out.push(chars[i]);
        i = i + 1;
    }
    out
}

/// An ASCII hexadecimal digit, in either case.
pub open spec fn is_hex_digit(c: char) -> bool {
    ('0' <= c <= '9') || ('a' <= c <= 'f') || ('A' <= c <= 'F')
}

/// The value of a hexadecimal digit; 0 for any other character.
pub open spec fn hex_value(c: char) -> int {
    if '0' <= c <= '9' {
        c as int - '0' as int
    } else if 'a' <= c <= 'f' {
        c as int - 'a' as int + 10
    } else if 'A' <= c <= 'F' {
        c as int - 'A' as int + 10
    } else {
        0
    }
}

/// Whether `c` is an ASCII hexadecimal digit.
pub fn char_is_hex_digit(c: char) -> (b: bool)
    ensures
        b == is_hex_digit(c),
{
    ('0' <= c && c <= '9') || ('a' <= c && c <= 'f') || ('A' <= c && c <= 'F')
}

/// The value of a hexadecimal digit; 0 for any other character.
pub fn char_hex_value(c: char) -> (v: u8)
    ensures
        v == hex_value(c),
        is_hex_digit(c) ==> v < 16,
{
    if '0' <= c && c <= '9' {
        (c as u32 - '0' as u32) as u8
    } else if 'a' <= c && c <= 'f' {
        (c as u32 - 'a' as u32 + 10) as u8
    } else if 'A' <= c && c <= 'F' {
        (c as u32 - 'A' as u32 + 10) as u8
    } else {
        0
    }
}

/// The pieces of `s` between the occurrences of `sep`: one more piece than there
/// are separators, so a sequence without `sep` is its own single piece.
pub open spec fn split(s: Seq<char>, sep: char) -> Seq<Seq<char>>
    decreases s.len(),
{
    if s.len() == 0 {
        seq![Seq::<char>::empty()]
    } else {
        let before = split(s.drop_last(), sep);
        if s.last() == sep {
            before.push(Seq::<char>::empty())
        } else {
            before.drop_last().push(before.last().push(s.last()))
        }
    }
}

/// The pieces joined again, with `sep` between neighbours.
pub open spec fn join(pieces: Seq<Seq<char>>, sep: char) -> Seq<char>
    decreases pieces.len(),
{
    if pieces.len() == 0 {
        Seq::<char>::empty()
    } else if pieces.len() == 1 {
        pieces[0]
    } else {
        join(pieces.drop_last(), sep).push(sep) + pieces.last()
    }
}

/// `sep` does not occur in `s`.
pub open spec fn free_of(s: Seq<char>, sep: char) -> bool {
    forall|i: int| 0 <= i < s.len() ==> s[i] != sep
}

/// Splitting never yields an empty list, no piece holds the separator, and
/// joining the pieces gives the sequence back.
pub proof fn lemma_split_join(s: Seq<char>, sep: char)
    ensures
        split(s, sep).len() >= 1,
        forall|k: int| 0 <= k < split(s, sep).len() ==> free_of(#[trigger] split(s, sep)[k], sep),
        join(split(s, sep), sep) == s,
    decreases s.len(),
{
    if s.len() == 0 {
        assert(join(split(s, sep), sep) =~= s);
    } else {
        let front = s.drop_last();
        lemma_split_join(front, sep);
        let before = split(front, sep);
        let now = split(s, sep);
        if s.last() == sep {
            assert(now.drop_last() =~= before);
            assert(join(now, sep) =~= s);
        } else {
            let grown = before.last().push(s.last());
            assert(now.last() == grown);
            if before.len() == 1 {
                assert(now =~= seq![grown]);
                assert(join(before, sep) == before[0]);
                assert(join(now, sep) =~= s);
            } else {
                assert(now.drop_last() =~= before.drop_last());
                assert(join(before, sep) == join(before.drop_last(), sep).push(sep) + before.last());
                assert(join(now, sep) == join(before.drop_last(), sep).push(sep) + grown);
                assert(s =~= front.push(s.last()));
                assert(join(now, sep) =~= s);
            }
        }
    }
}

/// A sequence that is some separator-free pieces joined splits into exactly
/// those pieces.
pub proof fn lemma_split_of_join(pieces: Seq<Seq<char>>, sep: char)
    requires
        pieces.len() >= 1,
        forall|k: int| 0 <= k < pieces.len() ==> free_of(#[trigger] pieces[k], sep),
    ensures
        split(join(pieces, sep), sep) == pieces,
    decreases pieces.len(),
{
    if pieces.len() == 1 {
        lemma_split_free(pieces[0], sep);
        assert(seq![pieces[0]] =~= pieces);
    } else {
        let front = pieces.drop_last();
        lemma_split_of_join(front, sep);
        let head = join(front, sep).push(sep);
        assert(head.drop_last() =~= join(front, sep));
        assert(split(head, sep) =~= front.push(Seq::<char>::empty()));
        lemma_split_append(head, pieces.last(), sep);
        assert(split(join(pieces, sep), sep) =~= pieces);
    }
}

/// A sequence without the separator is its own single piece.
pub proof fn lemma_split_free(s: Seq<char>, sep: char)
    requires
        free_of(s, sep),
    ensures
        split(s, sep) == seq![s],
    decreases s.len(),
{
    if s.len() == 0 {
        assert(s =~= Seq::<char>::empty());
    } else {
        let front = s.drop_last();
        assert(free_of(front, sep)) by {
            assert forall|i: int| 0 <= i < front.len() implies front[i] != sep by {
                assert(front[i] == s[i]);
            }
        }
        lemma_split_free(front, sep);
        assert(s.last() == s[s.len() - 1]);
        assert(front.push(s.last()) =~= s);
        let before = split(front, sep);
        assert(before.drop_last() =~= Seq::<Seq<char>>::empty());
        assert(split(s, sep) =~= seq![s]);
    }
}

/// Appending separator-free characters extends the last piece.
pub proof fn lemma_split_append(s: Seq<char>, tail: Seq<char>, sep: char)
    requires
        free_of(tail, sep),
    ensures
        split(s + tail, sep) == split(s, sep).drop_last().push(split(s, sep).last() + tail),
    decreases tail.len(),
{
    lemma_split_join(s, sep);
    if tail.len() == 0 {
        assert(s + tail =~= s);
        assert(split(s, sep).last() + tail =~= split(s, sep).last());
        assert(split(s, sep).drop_last().push(split(s, sep).last()) =~= split(s, sep));
    } else {
        let shorter = tail.drop_last();
        lemma_split_append(s, shorter, sep);
        assert((s + tail).drop_last() =~= s + shorter);
        assert((s + tail).last() == tail.last());
        let before = split(s + shorter, sep);
        assert(before.last().push(tail.last()) =~= split(s, sep).last() + tail);
        assert(before.drop_last() =~= split(s, sep).drop_last());
    }
}

/// The views of a vector of character vectors.
pub open spec fn views(v: Seq<Vec<char>>) -> Seq<Seq<char>> {
    Seq::new(v.len(), |i: int| v[i]@)
}

/// The pieces of `s` between the occurrences of `sep`.
pub fn split_chars(s: &Vec<char>, sep: char) -> (out: Vec<Vec<char>>)
    ensures
        views(out@) == split(s@, sep),
{
    let mut done: Vec<Vec<char>> = Vec::new();
    let mut current: Vec<char> = Vec::new();
    let mut i: usize = 0;
    proof {
        assert(s@.take(0) =~= Seq::<char>::empty());
        assert(views(done@).push(current@) =~= split(s@.take(0), sep));
    }
    while i < s.len()
        invariant
            i <= s.len(),
            views(done@).push(current@) == split(s@.take(i as int), sep),
        decreases s.len() - i,
    {
        let c = s[i];
        proof {
            assert(s@.take(i + 1).drop_last() =~= s@.take(i as int));
            assert(s@.take(i + 1).last() == c);
        }
        let ghost before = views(done@).push(current@);
        if c == sep {
            done.push(current);
            current = Vec::new();
            proof {
                assert(views(done@) =~= before);
                assert(views(done@).push(current@) =~= before.push(Seq::<char>::empty()));
            }
        } else {
            current.push(c);
            proof {
                assert(before.drop_last() =~= views(done@));
                assert(views(done@).push(current@) =~= before.drop_last().push(
                    before.last().push(c),
                ));
            }
        }
        i = i + 1;
    }
    proof {
        assert(s@.take(i as int) =~= s@);
    }
    let ghost before = views(done@).push(current@);
    done.push(current);
    proof {
        assert(views(done@) =~= before);
    }
    done
}

/// `s` with every `from` replaced by `to`.
pub open spec fn replace_char(s: Seq<char>, from: char, to: char) -> Seq<char> {
    Seq::new(s.len(), |i: int| if s[i] == from { to } else { s[i] })
}

/// Replaces every `from` by `to`.
pub fn replace_in_chars(s: &Vec<char>, from: char, to: char) -> (out: Vec<char>)
    ensures
        out@ == replace_char(s@, from, to),
{
    let mut out: Vec<char> = Vec::new();
    let mut i: usize = 0;
    while i < s.len()
        invariant
            i <= s.len(),
            out@ == replace_char(s@, from, to).take(i as int),
        decreases s.len() - i,
    {
        let c = s[i];
        out.push(if c == from { to } else { c });
        assert(out@ =~= replace_char(s@, from, to).take(i + 1));
        i = i + 1;
    }
    assert(out@ =~= replace_char(s@, from, to));
    out
}

/// What `str::to_uppercase` returns for a string with these characters: the
/// Unicode upper-case mapping, which may change the length.
pub uninterp spec fn uppercase(s: Seq<char>) -> Seq<char>;

/// What `str::to_lowercase` returns for a string with these characters.
pub uninterp spec fn lowercase(s: Seq<char>) -> Seq<char>;

/// `str::to_uppercase`: a function of the characters alone.
pub assume_specification[ str::to_uppercase ](s: &str) -> (out: String)
    ensures
        out@ == uppercase(s@),
;

/// `str::to_lowercase`: a function of the characters alone.
pub assume_specification[ str::to_lowercase ](s: &str) -> (out: String)
    ensures
        out@ == lowercase(s@),
;

/// `pat` stands in `s` at position `i`.
pub open spec fn occurs_at(s: Seq<char>, pat: Seq<char>, i: int) -> bool {
    &&& 0 <= i
    &&& i + pat.len() <= s.len()
    &&& s.subrange(i, i + pat.len()) == pat
}

/// `pat` stands somewhere in `s`.
pub open spec fn contains(s: Seq<char>, pat: Seq<char>) -> bool {
    exists|i: int| occurs_at(s, pat, i)
}

/// `s` begins with `pat`.
pub open spec fn starts_with(s: Seq<char>, pat: Seq<char>) -> bool {
    occurs_at(s, pat, 0)
}

/// Whether `pat` stands in `s` at position `i`.
pub fn chars_occur_at(s: &Vec<char>, pat: &Vec<char>, i: usize) -> (out: bool)
    ensures
        out == occurs_at(s@, pat@, i as int),
{
    if pat.len() > s.len() || i > s.len() - pat.len() {
        return false;
    }
    let mut k: usize = 0;
    while k < pat.len()
        invariant
            k <= pat.len(),
            i + pat.len() <= s.len(),
            forall|m: int| 0 <= m < k ==> s@[i + m] == pat@[m],
        decreases pat.len() - k,
    {
        if s[i + k] != pat[k] {
            assert(s@.subrange(i as int, i + pat.len())[k as int] == s@[i + k]);
            return false;
        }
        k = k + 1;
    }
    assert(s@.subrange(i as int, i + pat.len()) =~= pat@);
    true
}

/// Whether `pat` stands somewhere in `s`.
pub fn chars_contain(s: &Vec<char>, pat: &Vec<char>) -> (out: bool)
    ensures
        out == contains(s@, pat@),
{
    if pat.len() > s.len() {
        return false;
    }
    let last = s.len() - pat.len();
    let mut i: usize = 0;
    loop
        invariant
            i <= last,
            last == s.len() - pat.len(),
            forall|m: int| 0 <= m < i ==> !occurs_at(s@, pat@, m),
        decreases last - i,
    {
        if chars_occur_at(s, pat, i) {
            return true;
        }
        if i == last {
            return false;
        }
        i = i + 1;
    }
}

/// Whether `s` begins with `pat`.
pub fn chars_start_with(s: &Vec<char>, pat: &Vec<char>) -> (out: bool)
    ensures
        out == starts_with(s@, pat@),
{
    chars_occur_at(s, pat, 0)
}

/// The characters of two sequences are the same.
pub fn chars_equal(a: &Vec<char>, b: &Vec<char>) -> (out: bool)
    ensures
        out == (a@ == b@),
{
    if a.len() != b.len() {
        return false;
    }
    let same = chars_occur_at(a, b, 0);
    proof {
        assert(a@.subrange(0, a@.len() as int) =~= a@);
    }
    same
}

/// `c` is a digit of the given radix (at most 16), in either case.
pub open spec fn is_digit_of(c: char, radix: int) -> bool {
    is_hex_digit(c) && hex_value(c) < radix
}

/// A non-empty run of digits of the given radix.
pub open spec fn is_number(s: Seq<char>, radix: int) -> bool {
    &&& s.len() > 0
    &&& forall|i: int| 0 <= i < s.len() ==> is_digit_of(#[trigger] s[i], radix)
}

/// The number that a run of digits writes, most significant digit first.
pub open spec fn number(s: Seq<char>, radix: int) -> int
    decreases s.len(),
{
    if s.len() == 0 {
        0
    } else {
        number(s.drop_last(), radix) * radix + hex_value(s.last())
    }
}

/// What follows an optional leading plus sign.
pub open spec fn unsigned_part(s: Seq<char>) -> Seq<char> {
    if s.len() > 0 && s[0] == '+' {
        s.skip(1)
    } else {
        s
    }
}

/// The value of `s` read as an unsigned 8-bit number: an optional plus sign,
/// then at least one digit, leading zeros allowed, no more than 255.
pub open spec fn u8_of(s: Seq<char>, radix: int) -> Option<u8> {
    let body = unsigned_part(s);
    if is_number(body, radix) && number(body, radix) <= 255 {
        Some(number(body, radix) as u8)
    } else {
        None
    }
}

/// A run of digits is worth at least as much as any of its prefixes.
pub proof fn lemma_number_grows(s: Seq<char>, radix: int, i: int)
    requires
        1 <= radix <= 16,
        0 <= i <= s.len(),
    ensures
        0 <= number(s.take(i), radix) <= number(s, radix),
    decreases s.len() - i,
{
    lemma_number_nonnegative(s.take(i), radix);
    if i == s.len() {
        assert(s.take(i) =~= s);
    } else {
        lemma_number_grows(s, radix, i + 1);
        let longer = s.take(i + 1);
        assert(longer.drop_last() =~= s.take(i));
        let a = number(s.take(i), radix);
        assert(a * radix >= a) by (nonlinear_arith)
            requires
                a >= 0,
                radix >= 1,
        ;
    }
}

/// A run of digits is worth no less than zero.
pub proof fn lemma_number_nonnegative(s: Seq<char>, radix: int)
    requires
        1 <= radix,
    ensures
        0 <= number(s, radix),
    decreases s.len(),
{
    if s.len() > 0 {
        lemma_number_nonnegative(s.drop_last(), radix);
        let a = number(s.drop_last(), radix);
        assert(a * radix >= 0) by (nonlinear_arith)
            requires
                a >= 0,
                radix >= 1,
        ;
    }
}

fn read_u8(s: &Vec<char>, radix: u32) -> (out: Option<u8>)
    requires
        radix == 10 || radix == 16,
    ensures
        out == u8_of(s@, radix as int),
{
    let start: usize = if s.len() > 0 && s[0] == '+' { 1 } else { 0 };
    let ghost body = unsigned_part(s@);
    assert(body =~= s@.skip(start as int));
    if start == s.len() {
        return None;
    }
    let mut value: u32 = 0;
    let mut i: usize = start;
    while i < s.len()
        invariant
            start <= i <= s.len(),
            radix == 10 || radix == 16,
            body == s@.skip(start as int),
            body == unsigned_part(s@),
            forall|k: int| 0 <= k < i - start ==> is_digit_of(#[trigger] body[k], radix as int),
            value == number(body.take(i - start), radix as int),
            value <= 255,
        decreases s.len() - i,
    {
        let c = s[i];
        assert(body[i - start] == c);
        let digit = char_hex_value(c) as u32;
        if !char_is_hex_digit(c) || digit >= radix {
            return None;
        }
        proof {
            assert(body.take(i - start + 1).drop_last() =~= body.take(i - start));
            assert(body.take(i - start + 1).last() == c);
        }
        value = value * radix + digit;
        if value > 255 {
            proof {
                lemma_number_grows(body, radix as int, i - start + 1);
            }
            return None;
        }
        i = i + 1;
    }
    proof {
        assert(body.take(i - start) =~= body);
    }
    Some(value as u8)
}

/// Reads a decimal number that fits in eight bits.
pub fn read_decimal_u8(s: &Vec<char>) -> (out: Option<u8>)
    ensures
        out == u8_of(s@, 10),
{
    read_u8(s, 10)
}

/// Reads a hexadecimal number that fits in eight bits.
pub fn read_hex_u8(s: &Vec<char>) -> (out: Option<u8>)
    ensures
        out == u8_of(s@, 16),
{
    read_u8(s, 16)
}

/// The Unicode property White_Space: the controls from tab to carriage return,
/// the space, the next-line control, the no-break space, the Ogham space mark,
/// the spaces from en quad to hair space, the line and the paragraph separator,
/// the narrow no-break space, the medium mathematical space and the
/// ideographic space.
pub open spec fn white_space(c: char) -> bool {
    let code = c as u32;
    ||| 0x0009 <= code <= 0x000D
    ||| code == 0x0020
    ||| code == 0x0085
    ||| code == 0x00A0
    ||| code == 0x1680
    ||| 0x2000 <= code <= 0x200A
    ||| code == 0x2028
    ||| code == 0x2029
    ||| code == 0x202F
    ||| code == 0x205F
    ||| code == 0x3000
}

/// `char::is_whitespace` tells whether a character has the Unicode property
/// White_Space, which is the eleven ranges of code points of `white_space`.
pub assume_specification[ char::is_whitespace ](c: char) -> (out: bool)
    ensures
        out == white_space(c),
;

/// A character that stripping removes from the ends: white space, or one of `extra`.
pub open spec fn strippable(c: char, extra: Seq<char>) -> bool {
    white_space(c) || extra.contains(c)
}

/// `s` without its leading strippable characters.
pub open spec fn strip_start(s: Seq<char>, extra: Seq<char>) -> Seq<char>
    decreases s.len(),
{
    if s.len() > 0 && strippable(s[0], extra) {
        strip_start(s.drop_first(), extra)
    } else {
        s
    }
}

/// `s` without its trailing strippable characters.
pub open spec fn strip_end(s: Seq<char>, extra: Seq<char>) -> Seq<char>
    decreases s.len(),
{
    if s.len() > 0 && strippable(s.last(), extra) {
        strip_end(s.drop_last(), extra)
    } else {
        s
    }
}

/// `s` without the strippable characters at either end.
pub open spec fn strip(s: Seq<char>, extra: Seq<char>) -> Seq<char> {
    strip_end(strip_start(s, extra), extra)
}

/// `s` without the white space at either end.
pub open spec fn trim(s: Seq<char>) -> Seq<char> {
    strip(s, Seq::<char>::empty())
}

fn is_strippable(c: char, extra: &Vec<char>) -> (out: bool)
    ensures
        out == strippable(c, extra@),
{
    if c.is_whitespace() {
        return true;
    }
    let mut k: usize = 0;
    while k < extra.len()
        invariant
            k <= extra.len(),
            forall|m: int| 0 <= m < k ==> extra@[m] != c,
        decreases extra.len() - k,
    {
        if extra[k] == c {
            return true;
        }
        k = k + 1;
    }
    false
}

/// The characters of `s` from `from` up to `to`.
pub fn chars_between(s: &Vec<char>, from: usize, to: usize) -> (out: Vec<char>)
    requires
        from <= to <= s.len(),
    ensures
        out@ == s@.subrange(from as int, to as int),
{
    let mut out: Vec<char> = Vec::new();
    let mut i: usize = from;
    while i < to
        invariant
            from <= i <= to <= s.len(),
            out@ == s@.subrange(from as int, i as int),
        decreases to - i,
    {
        out.push(s[i]);
        assert(out@ =~= s@.subrange(from as int, i + 1));
        i = i + 1;
    }
    out
}

/// `s` without the white space and the characters of `extra` at either end.
pub fn strip_chars(s: &Vec<char>, extra: &Vec<char>) -> (out: Vec<char>)
    ensures
        out@ == strip(s@, extra@),
{
    let mut from: usize = 0;
    assert(s@.skip(0) =~= s@);
    while from < s.len() && is_strippable(s[from], extra)
        invariant
            from <= s.len(),
            strip_start(s@, extra@) == strip_start(s@.skip(from as int), extra@),
        decreases s.len() - from,
    {
        assert(s@.skip(from as int).drop_first() =~= s@.skip(from + 1));
        from = from + 1;
    }
    let ghost rest = s@.skip(from as int);
    assert(strip_start(s@, extra@) == rest);
    let mut to: usize = s.len();
    assert(rest.take(to - from) =~= rest);
    while to > from && is_strippable(s[to - 1], extra)
        invariant
            from <= to <= s.len(),
            rest == s@.skip(from as int),
            strip_end(rest, extra@) == strip_end(rest.take(to - from), extra@),
        decreases to,
    {
        assert(rest.take(to - from).last() == s@[to - 1]);
        assert(rest.take(to - from).drop_last() =~= rest.take(to - from - 1));
        to = to - 1;
    }
    proof {
        let kept = rest.take(to - from);
        if to > from {
            assert(kept.last() == s@[to - 1]);
        }
        assert(strip_end(kept, extra@) == kept);
        assert(kept =~= s@.subrange(from as int, to as int));
    }
    chars_between(s, from, to)
}

/// `s` without the white space at either end.
pub fn trim_chars(s: &Vec<char>) -> (out: Vec<char>)
    ensures
        out@ == trim(s@),
{
    let none: Vec<char> = Vec::new();
    strip_chars(s, &none)
}

/// The words read so far and the word being read, after the characters of `s`.
pub open spec fn words_scan(s: Seq<char>) -> (Seq<Seq<char>>, Seq<char>)
    decreases s.len(),
{
    if s.len() == 0 {
        (Seq::empty(), Seq::empty())
    } else {
        let (done, current) = words_scan(s.drop_last());
        if white_space(s.last()) {
            if current.len() > 0 {
                (done.push(current), Seq::empty())
            } else {
                (done, current)
            }
        } else {
            (done, current.push(s.last()))
        }
    }
}

/// The words of `s`: its longest runs of characters that are not white space.
pub open spec fn words(s: Seq<char>) -> Seq<Seq<char>> {
    let (done, current) = words_scan(s);
    if current.len() > 0 {
        done.push(current)
    } else {
        done
    }
}

/// The words of `s`.
pub fn split_words(s: &Vec<char>) -> (out: Vec<Vec<char>>)
    ensures
        views(out@) == words(s@),
{
    let mut done: Vec<Vec<char>> = Vec::new();
    let mut current: Vec<char> = Vec::new();
    let mut i: usize = 0;
    proof {
        assert(s@.take(0) =~= Seq::<char>::empty());
        assert(views(done@) =~= Seq::<Seq<char>>::empty());
    }
    while i < s.len()
        invariant
            i <= s.len(),
            (views(done@), current@) == words_scan(s@.take(i as int)),
        decreases s.len() - i,
    {
        let c = s[i];
        proof {
            assert(s@.take(i + 1).drop_last() =~= s@.take(i as int));
            assert(s@.take(i + 1).last() == c);
        }
        let ghost before = views(done@);
        if c.is_whitespace() {
            if current.len() > 0 {
                let ghost word = current@;
                done.push(current);
                current = Vec::new();
                assert(views(done@) =~= before.push(word));
            }
        } else {
            current.push(c);
        }
        i = i + 1;
    }
    proof {
        assert(s@.take(i as int) =~= s@);
    }
    if current.len() > 0 {
        let ghost before = views(done@);
        let ghost word = current@;
        done.push(current);
        assert(views(done@) =~= before.push(word));
    }
    done
}

/// `line` without one carriage return at its end.
pub open spec fn without_cr(line: Seq<char>) -> Seq<char> {
    if line.len() > 0 && line.last() == '\r' {
        line.drop_last()
    } else {
        line
    }
}

/// The lines of a text: what stands between line feeds, each without the
/// carriage return that may precede its line feed. A line feed at the very end
/// opens no further line.
pub open spec fn lines(text: Seq<char>) -> Seq<Seq<char>> {
    let pieces = split(text, '\n');
    let count = if pieces.last().len() == 0 {
        pieces.len() - 1
    } else {
        pieces.len() as int
    };
    Seq::new(
        count as nat,
        |i: int|
            if i < pieces.len() - 1 {
                without_cr(pieces[i])
            } else {
                pieces[i]
            },
    )
}

/// The lines of a text.
pub fn split_lines(text: &Vec<char>) -> (out: Vec<Vec<char>>)
    ensures
        views(out@) == lines(text@),
{
    let pieces = split_chars(text, '\n');
    proof {
        lemma_split_join(text@, '\n');
    }
    let ghost all = split(text@, '\n');
    let total = pieces.len();
    assert(all.last() == pieces@[total - 1]@);
    let count = if pieces[total - 1].len() == 0 { total - 1 } else { total };
    let mut out: Vec<Vec<char>> = Vec::new();
    let mut i: usize = 0;
    while i < count
        invariant
            i <= count <= total,
            total == pieces.len(),
            views(pieces@) == all,
            all == split(text@, '\n'),
            out.len() == i,
            forall|k: int| 0 <= k < i ==> (#[trigger] out@[k])@ == lines(text@)[k],
            lines(text@).len() == count,
        decreases count - i,
    {
        let piece = &pieces[i];
        assert(all[i as int] == piece@);
        let n = piece.len();
        let line = if i < total - 1 && n > 0 && piece[n - 1] == '\r' {
            let cut = chars_between(piece, 0, n - 1);
            assert(cut@ =~= piece@.drop_last());
            cut
        } else {
            let whole = chars_between(piece, 0, n);
            assert(whole@ =~= piece@);
            whole
        };
        out.push(line);
        i = i + 1;
    }
    assert(views(out@) =~= lines(text@));
    out
}

} // verus!

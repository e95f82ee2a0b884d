//! The `pattern` and `format` checks of the string vocabulary.
//!
//! A pattern is a regular expression, searched for unanchored as JSON Schema
//! says. A format is asserted, not annotated: a Location that names one means
//! it. Formats this file does not know hold, as the specification says an
//! unknown format must.
use vstd::prelude::*;

use crate::pointer::{digits_value, is_digit};
use crate::text::{chars_of, same_text};

verus! {

#[verifier::external_type_specification]
#[verifier::external_body]
pub struct ExRegex(regex::Regex);

/// Whether `regex::Regex::new` accepts `pattern`: a valid regular expression
/// whose compiled form stays within the default size limit.
pub uninterp spec fn regex_accepts(pattern: Seq<char>) -> bool;

/// A compiled regular expression together with the text it was compiled
/// from. Only `regex_new` builds one.
pub struct Pattern {
    regex: regex::Regex,
    source: String,
}

impl Pattern {
    /// The text this pattern was compiled from.
    pub closed spec fn source_text(&self) -> Seq<char> {
        self.source@
    }

    /// The text this pattern was compiled from, as written.
    pub fn source(&self) -> (r: &str)
        ensures
            r@ == self.source_text(),
    {
        self.source.as_str()
    }
}

/// Compiles a pattern with `regex::Regex::new`, keeping the text it was given.
/// The contract claims that it succeeds exactly when `regex_accepts` holds of
/// the pattern, which names the crate's own grammar and size limit, and that
/// the regex it returns is the one compiled from that text.
#[verifier::external_body]
fn regex_new(pattern: &str) -> (r: Option<Pattern>)
    ensures
        r is Some == regex_accepts(pattern@),
        r matches Some(p) ==> p.source_text() == pattern@,
{
    match regex::Regex::new(pattern) {
        Ok(regex) => Some(Pattern { regex, source: pattern.to_owned() }),
        Err(_) => None,
    }
}

/// A pattern, compiled: JSON Schema patterns are unanchored searches, so the
/// text is used as written, with no anchors added.
pub fn compiled(pattern: &str) -> (r: Option<Pattern>)
    ensures
        r is Some == regex_accepts(pattern@),
        r matches Some(p) ==> p.source_text() == pattern@,
{
    regex_new(pattern)
}

/// The first position in `s` holding `a` or `b`, or the length of `s`.
pub open spec fn first_of(s: Seq<char>, a: char, b: char) -> int
    decreases s.len(),
{
    if s.len() == 0 || s[0] == a || s[0] == b {
        0
    } else {
        1 + first_of(s.drop_first(), a, b)
    }
}

/// `first_of` is a position in `s`, or its length.
pub proof fn lemma_first_of_bounds(s: Seq<char>, a: char, b: char)
    ensures
        0 <= first_of(s, a, b) <= s.len(),
        first_of(s, a, b) < s.len() ==> (s[first_of(s, a, b)] == a || s[first_of(s, a, b)] == b),
    decreases s.len(),
{
    if s.len() > 0 && s[0] != a && s[0] != b {
        lemma_first_of_bounds(s.drop_first(), a, b);
    }
}

proof fn lemma_first_of(s: Seq<char>, a: char, b: char, m: int)
    requires
        0 <= m <= s.len(),
        forall|j: int| 0 <= j < m ==> s[j] != a && s[j] != b,
        m == s.len() || s[m] == a || s[m] == b,
    ensures
        first_of(s, a, b) == m,
    decreases s.len(),
{
    if s.len() > 0 && m > 0 {
        lemma_first_of(s.drop_first(), a, b, m - 1);
    }
}

/// The first position in `cs` from `from` up to `to` that holds `a` or `b`, or `to`.
fn find_in(cs: &Vec<char>, from: usize, to: usize, a: char, b: char) -> (r: usize)
    requires
        from <= to <= cs@.len(),
    ensures
        from <= r <= to,
        r - from == first_of(cs@.subrange(from as int, to as int), a, b),
{
    let mut k = from;
    while k < to && cs[k] != a && cs[k] != b
        invariant
            from <= k <= to <= cs@.len(),
            forall|j: int| from <= j < k ==> cs@[j] != a && cs@[j] != b,
        decreases to - k,
    {
        k = k + 1;
    }
    proof {
        lemma_first_of(cs@.subrange(from as int, to as int), a, b, k - from);
    }
    k
}

/// An ASCII letter.
pub open spec fn is_alpha(c: char) -> bool {
    (65 <= (c as u32) <= 90) || (97 <= (c as u32) <= 122)
}

/// A hexadecimal digit, in either case.
pub open spec fn is_hex(c: char) -> bool {
    is_digit(c) || (65 <= (c as u32) <= 70) || (97 <= (c as u32) <= 102)
}

fn digit_char(c: char) -> (r: bool)
    ensures
        r == is_digit(c),
{
    let x = c as u32;
    48 <= x && x <= 57
}

fn alpha_char(c: char) -> (r: bool)
    ensures
        r == is_alpha(c),
{
    let x = c as u32;
    (65 <= x && x <= 90) || (97 <= x && x <= 122)
}

fn hex_char(c: char) -> (r: bool)
    ensures
        r == is_hex(c),
{
    let x = c as u32;
    (48 <= x && x <= 57) || (65 <= x && x <= 70) || (97 <= x && x <= 102)
}

/// A full date `YYYY-MM-DD`: digits everywhere but the two dashes, a month
/// from 1 to 12 and a day from 1 to 31.
pub open spec fn date_ok(t: Seq<char>) -> bool {
    &&& t.len() == 10
    &&& t[4] == '-'
    &&& t[7] == '-'
    &&& forall|i: int| 0 <= i < 10 && i != 4 && i != 7 ==> #[trigger] is_digit(t[i])
    &&& 1 <= digits_value(t.subrange(5, 7)) <= 12
    &&& 1 <= digits_value(t.subrange(8, 10)) <= 31
}

/// One of the characters a time may have after its seconds.
pub open spec fn time_tail_char(c: char) -> bool {
    is_digit(c) || c == 'Z' || c == 'z' || c == '+' || c == '-' || c == ':' || c == '.'
}

/// The character at position `i` of `HH:MM:SS`: a colon at 2 and 5, a digit elsewhere.
pub open spec fn time_head_char(i: int, c: char) -> bool {
    if i == 2 || i == 5 {
        c == ':'
    } else {
        is_digit(c)
    }
}

/// A time `HH:MM:SS` followed by digits and `Zz+-:.` only.
pub open spec fn time_ok(t: Seq<char>) -> bool {
    &&& t.len() >= 8
    &&& forall|i: int| 0 <= i < 8 ==> time_head_char(i, #[trigger] t[i])
    &&& forall|i: int| 8 <= i < t.len() ==> #[trigger] time_tail_char(t[i])
}

/// The value of two decimal digits.
fn two_digits(a: char, b: char) -> (r: u32)
    requires
        is_digit(a),
        is_digit(b),
    ensures
        r == digits_value(seq![a, b]),
{
    let x = (a as u32) - 48;
    let y = (b as u32) - 48;
    assert(seq![a, b].drop_last() =~= seq![a]);
    assert(seq![a].drop_last() =~= Seq::<char>::empty());
    assert(digits_value(Seq::<char>::empty()) == 0);
    assert(digits_value(seq![a]) == x);
    x * 10 + y
}

fn date_in(cs: &Vec<char>, from: usize, to: usize) -> (r: bool)
    requires
        from <= to <= cs@.len(),
    ensures
        r == date_ok(cs@.subrange(from as int, to as int)),
{
    let ghost t = cs@.subrange(from as int, to as int);
    if to - from != 10 {
        return false;
    }
    if cs[from + 4] != '-' || cs[from + 7] != '-' {
        return false;
    }
    let mut i: usize = 0;
    while i < 10
        invariant
            from + 10 == to <= cs@.len(),
            t == cs@.subrange(from as int, to as int),
            i <= 10,
            forall|j: int| 0 <= j < i && j != 4 && j != 7 ==> #[trigger] is_digit(t[j]),
        decreases 10 - i,
    {
        if i != 4 && i != 7 && !digit_char(cs[from + i]) {
            assert(!is_digit(t[i as int]));
            return false;
        }
        i = i + 1;
    }
    assert(is_digit(t[5]) && is_digit(t[6]) && is_digit(t[8]) && is_digit(t[9]));
    let month = two_digits(cs[from + 5], cs[from + 6]);
    let day = two_digits(cs[from + 8], cs[from + 9]);
    assert(t.subrange(5, 7) =~= seq![t[5], t[6]]);
    assert(t.subrange(8, 10) =~= seq![t[8], t[9]]);
    1 <= month && month <= 12 && 1 <= day && day <= 31
}

fn time_in(cs: &Vec<char>, from: usize, to: usize) -> (r: bool)
    requires
        from <= to <= cs@.len(),
    ensures
        r == time_ok(cs@.subrange(from as int, to as int)),
{
    let ghost t = cs@.subrange(from as int, to as int);
    if to - from < 8 {
        return false;
    }
    let mut i: usize = 0;
    while i < 8
        invariant
            from + 8 <= to <= cs@.len(),
            t == cs@.subrange(from as int, to as int),
            i <= 8,
            forall|j: int| 0 <= j < i ==> time_head_char(j, #[trigger] t[j]),
        decreases 8 - i,
    {
        let c = cs[from + i];
        assert(c == t[i as int]);
        if i == 2 || i == 5 {
            if c != ':' {
                return false;
            }
        } else if !digit_char(c) {
            return false;
        }
        i = i + 1;
    }
    let mut k: usize = from + 8;
    while k < to
        invariant
            from + 8 <= k <= to <= cs@.len(),
            t == cs@.subrange(from as int, to as int),
            forall|j: int| 0 <= j < 8 ==> time_head_char(j, #[trigger] t[j]),
            forall|j: int| 8 <= j < k - from ==> #[trigger] time_tail_char(t[j]),
        decreases to - k,
    {
        let c = cs[k];
        if !(digit_char(c) || c == 'Z' || c == 'z' || c == '+' || c == '-' || c == ':' || c == '.') {
            assert(!time_tail_char(t[k - from]));
            return false;
        }
        k = k + 1;
    }
    true
}

/// Whether `text` is a full date.
pub fn is_date(text: &str) -> (r: bool)
    ensures
        r == date_ok(text@),
{
    let cs = chars_of(text);
    assert(cs@.subrange(0, cs@.len() as int) =~= cs@);
    date_in(&cs, 0, cs.len())
}

/// Whether `text` is a time.
pub fn is_time(text: &str) -> (r: bool)
    ensures
        r == time_ok(text@),
{
    let cs = chars_of(text);
    assert(cs@.subrange(0, cs@.len() as int) =~= cs@);
    time_in(&cs, 0, cs.len())
}


/// A date and a time joined by the first `T` or `t`.
pub open spec fn date_time_ok(t: Seq<char>) -> bool {
    let k = first_of(t, 'T', 't');
    k < t.len() && date_ok(t.take(k)) && time_ok(t.skip(k + 1))
}

/// A non-empty local part, the first `@`, and a domain with a dot that does
/// not end with one.
pub open spec fn email_ok(t: Seq<char>) -> bool {
    let k = first_of(t, '@', '@');
    let domain = t.skip(k + 1);
    &&& 0 < k < t.len()
    &&& domain.contains('.')
    &&& domain.last() != '.'
}

/// A character allowed in a URI scheme.
pub open spec fn scheme_char(c: char) -> bool {
    is_alpha(c) || is_digit(c) || c == '+' || c == '-' || c == '.'
}

/// A scheme that starts with a letter, the first `:`, and something after it.
pub open spec fn uri_ok(t: Seq<char>) -> bool {
    let k = first_of(t, ':', ':');
    &&& 0 < k
    &&& k + 1 < t.len()
    &&& is_alpha(t[0])
    &&& forall|i: int| 0 <= i < k ==> #[trigger] scheme_char(t[i])
}

/// Whether position `i` of a UUID holds a dash.
pub open spec fn uuid_dash(i: int) -> bool {
    i == 8 || i == 13 || i == 18 || i == 23
}

/// The character at position `i` of a UUID: a dash where `uuid_dash` says, a
/// hexadecimal digit elsewhere.
pub open spec fn uuid_char(i: int, c: char) -> bool {
    if uuid_dash(i) {
        c == '-'
    } else {
        is_hex(c)
    }
}

/// Hexadecimal digits in groups of 8, 4, 4, 4 and 12 joined by dashes.
pub open spec fn uuid_ok(t: Seq<char>) -> bool {
    t.len() == 36 && forall|i: int| 0 <= i < 36 ==> uuid_char(i, #[trigger] t[i])
}

/// A decimal octet: one to three digits without a leading zero, at most 255.
pub open spec fn octet_ok(p: Seq<char>) -> bool {
    &&& 1 <= p.len() <= 3
    &&& forall|i: int| 0 <= i < p.len() ==> #[trigger] is_digit(p[i])
    &&& !(p.len() > 1 && p[0] == '0')
    &&& digits_value(p) <= 255
}

/// `s` is `n` octets joined by dots.
pub open spec fn dotted(s: Seq<char>, n: nat) -> bool
    decreases n,
{
    let k = first_of(s, '.', '.');
    n > 0 && octet_ok(s.take(k)) && if n == 1 {
        k == s.len()
    } else {
        k < s.len() && dotted(s.skip(k + 1), (n - 1) as nat)
    }
}

/// An IPv4 address in dotted-decimal notation (`Ipv4Addr` text).
pub open spec fn ipv4_ok(s: Seq<char>) -> bool {
    dotted(s, 4)
}

/// One group of an IPv6 address: one to four hexadecimal digits.
pub open spec fn h16_ok(p: Seq<char>) -> bool {
    1 <= p.len() <= 4 && forall|i: int| 0 <= i < p.len() ==> #[trigger] is_hex(p[i])
}

/// How many 16-bit groups `s` spells as groups joined by `:`, the last of
/// which may be an IPv4 address worth two groups when `v4` allows it.
pub open spec fn pieces(s: Seq<char>, v4: bool) -> Option<nat>
    decreases s.len(),
{
    let k = first_of(s, ':', ':');
    proof {
        lemma_first_of_bounds(s, ':', ':');
    }
    if k >= s.len() {
        if h16_ok(s) {
            Some(1)
        } else if v4 && ipv4_ok(s) {
            Some(2)
        } else {
            None
        }
    } else if h16_ok(s.take(k)) {
        match pieces(s.skip(k + 1), v4) {
            Some(c) => Some(c + 1),
            None => None,
        }
    } else {
        None
    }
}

/// The groups of a part of an IPv6 address, which may be empty.
pub open spec fn group_count(s: Seq<char>, v4: bool) -> Option<nat> {
    if s.len() == 0 {
        Some(0)
    } else {
        pieces(s, v4)
    }
}

/// The position of the first `::` in `s`, or its length.
pub open spec fn first_double_colon(s: Seq<char>) -> int
    decreases s.len(),
{
    if s.len() < 2 {
        s.len() as int
    } else if s[0] == ':' && s[1] == ':' {
        0
    } else {
        1 + first_double_colon(s.drop_first())
    }
}

/// An IPv6 address (`Ipv6Addr` text): eight groups, the last two possibly
/// an IPv4 address, or fewer around one `::` that stands for at least one
/// group of zeros.
pub open spec fn ipv6_ok(s: Seq<char>) -> bool {
    let p = first_double_colon(s);
    if p < s.len() {
        match (group_count(s.take(p), false), group_count(s.skip(p + 2), true)) {
            (Some(a), Some(b)) => a + b <= 7,
            _ => false,
        }
    } else {
        pieces(s, true) == Some(8nat)
    }
}

/// Whether `text` holds the format named `format`; unknown formats hold.
pub open spec fn format_holds(format: Seq<char>, text: Seq<char>) -> bool {
    if format == "date"@ {
        date_ok(text)
    } else if format == "time"@ {
        time_ok(text)
    } else if format == "date-time"@ {
        date_time_ok(text)
    } else if format == "email"@ {
        email_ok(text)
    } else if format == "uri"@ {
        uri_ok(text)
    } else if format == "ipv4"@ {
        ipv4_ok(text)
    } else if format == "ipv6"@ {
        ipv6_ok(text)
    } else if format == "uuid"@ {
        uuid_ok(text)
    } else if format == "regex"@ {
        regex_accepts(text)
    } else {
        true
    }
}

fn date_time_in(cs: &Vec<char>) -> (r: bool)
    ensures
        r == date_time_ok(cs@),
{
    let k = find_in(cs, 0, cs.len(), 'T', 't');
    assert(cs@.subrange(0, cs@.len() as int) =~= cs@);
    if k == cs.len() {
        return false;
    }
    assert(cs@.take(k as int) =~= cs@.subrange(0, k as int));
    assert(cs@.skip(k + 1) =~= cs@.subrange(k + 1, cs@.len() as int));
    date_in(cs, 0, k) && time_in(cs, k + 1, cs.len())
}

fn email_in(cs: &Vec<char>) -> (r: bool)
    ensures
        r == email_ok(cs@),
{
    let k = find_in(cs, 0, cs.len(), '@', '@');
    assert(cs@.subrange(0, cs@.len() as int) =~= cs@);
    if k == 0 || k == cs.len() {
        return false;
    }
    let ghost domain = cs@.skip(k + 1);
    let mut dot = false;
    let mut i = k + 1;
    while i < cs.len()
        invariant
            k < i <= cs@.len(),
            domain == cs@.skip(k + 1),
            dot == exists|j: int| k + 1 <= j < i && cs@[j] == '.',
        decreases cs@.len() - i,
    {
        if cs[i] == '.' {
            dot = true;
        }
        i = i + 1;
    }
    proof {
        if dot {
            let j = choose|j: int| k + 1 <= j < i && cs@[j] == '.';
            assert(domain[j - k - 1] == '.');
        }
        if domain.contains('.') {
            let j = choose|j: int| 0 <= j < domain.len() && domain[j] == '.';
            assert(cs@[j + k + 1] == '.');
        }
    }
    dot && cs[cs.len() - 1] != '.'
}

fn scheme_char_of(c: char) -> (r: bool)
    ensures
        r == scheme_char(c),
{
    alpha_char(c) || digit_char(c) || c == '+' || c == '-' || c == '.'
}

fn uri_in(cs: &Vec<char>) -> (r: bool)
    ensures
        r == uri_ok(cs@),
{
    let k = find_in(cs, 0, cs.len(), ':', ':');
    assert(cs@.subrange(0, cs@.len() as int) =~= cs@);
    if k == 0 || k >= cs.len() || cs.len() - k < 2 || !alpha_char(cs[0]) {
        return false;
    }
    let mut i: usize = 0;
    while i < k
        invariant
            i <= k < cs@.len(),
            k == first_of(cs@, ':', ':'),
            forall|j: int| 0 <= j < i ==> #[trigger] scheme_char(cs@[j]),
        decreases k - i,
    {
        if !scheme_char_of(cs[i]) {
            assert(!scheme_char(cs@[i as int]));
            return false;
        }
        i = i + 1;
    }
    true
}

fn uuid_in(cs: &Vec<char>) -> (r: bool)
    ensures
        r == uuid_ok(cs@),
{
    if cs.len() != 36 {
        return false;
    }
    let mut i: usize = 0;
    while i < 36
        invariant
            cs@.len() == 36,
            i <= 36,
            forall|j: int| 0 <= j < i ==> uuid_char(j, #[trigger] cs@[j]),
        decreases 36 - i,
    {
        let c = cs[i];
        assert(c == cs@[i as int]);
        if i == 8 || i == 13 || i == 18 || i == 23 {
            if c != '-' {
                return false;
            }
        } else if !hex_char(c) {
            assert(!is_hex(cs@[i as int]));
            return false;
        }
        i = i + 1;
    }
    true
}


fn octet_in(cs: &Vec<char>, from: usize, to: usize) -> (r: bool)
    requires
        from <= to <= cs@.len(),
    ensures
        r == octet_ok(cs@.subrange(from as int, to as int)),
{
    let ghost p = cs@.subrange(from as int, to as int);
    let n = to - from;
    if n < 1 || n > 3 {
        return false;
    }
    let mut i: usize = 0;
    while i < n
        invariant
            from + n == to <= cs@.len(),
            p == cs@.subrange(from as int, to as int),
            i <= n,
            forall|j: int| 0 <= j < i ==> #[trigger] is_digit(p[j]),
        decreases n - i,
    {
        if !digit_char(cs[from + i]) {
            assert(!is_digit(p[i as int]));
            return false;
        }
        i = i + 1;
    }
    if n > 1 && cs[from] == '0' {
        return false;
    }
    let mut v: u32 = 0;
    let mut k: usize = 0;
    assert(p.take(0) =~= Seq::<char>::empty());
    while k < n
        invariant
            from + n == to <= cs@.len(),
            1 <= n <= 3,
            p == cs@.subrange(from as int, to as int),
            forall|j: int| 0 <= j < n ==> #[trigger] is_digit(p[j]),
            k <= n,
            v == digits_value(p.take(k as int)),
            k == 0 ==> v == 0,
            k == 1 ==> v <= 9,
            k == 2 ==> v <= 99,
            k == 3 ==> v <= 999,
        decreases n - k,
    {
        assert(p.take(k + 1).drop_last() =~= p.take(k as int));
        assert(is_digit(p[k as int]));
        let d = (cs[from + k] as u32) - 48;
        v = v * 10 + d;
        k = k + 1;
    }
    assert(p.take(n as int) =~= p);
    v <= 255
}

proof fn lemma_dotted_len(s: Seq<char>, n: nat)
    requires
        dotted(s, n),
    ensures
        s.len() >= 2 * n - 1,
    decreases n,
{
    let k = first_of(s, '.', '.');
    lemma_first_of_bounds(s, '.', '.');
    if n > 1 {
        lemma_dotted_len(s.skip(k + 1), (n - 1) as nat);
    }
}

fn dotted_in(cs: &Vec<char>, from: usize, to: usize, n: usize) -> (r: bool)
    requires
        from <= to <= cs@.len(),
    ensures
        r == dotted(cs@.subrange(from as int, to as int), n as nat),
    decreases n,
{
    let ghost s = cs@.subrange(from as int, to as int);
    if n == 0 {
        return false;
    }
    let k = find_in(cs, from, to, '.', '.');
    assert(s.take(k - from) =~= cs@.subrange(from as int, k as int));
    if !octet_in(cs, from, k) {
        return false;
    }
    if n == 1 {
        return k == to;
    }
    if k == to {
        return false;
    }
    assert(s.skip(k - from + 1) =~= cs@.subrange(k + 1, to as int));
    dotted_in(cs, k + 1, to, n - 1)
}

fn h16_in(cs: &Vec<char>, from: usize, to: usize) -> (r: bool)
    requires
        from <= to <= cs@.len(),
    ensures
        r == h16_ok(cs@.subrange(from as int, to as int)),
{
    let ghost p = cs@.subrange(from as int, to as int);
    let n = to - from;
    if n < 1 || n > 4 {
        return false;
    }
    let mut i: usize = 0;
    while i < n
        invariant
            from + n == to <= cs@.len(),
            p == cs@.subrange(from as int, to as int),
            i <= n,
            forall|j: int| 0 <= j < i ==> #[trigger] is_hex(p[j]),
        decreases n - i,
    {
        if !hex_char(cs[from + i]) {
            assert(!is_hex(p[i as int]));
            return false;
        }
        i = i + 1;
    }
    true
}

fn pieces_in(cs: &Vec<char>, from: usize, to: usize, v4: bool) -> (r: Option<usize>)
    requires
        from <= to <= cs@.len(),
    ensures
        match r {
            Some(c) => pieces(cs@.subrange(from as int, to as int), v4) == Some(c as nat) && c <= to - from,
            None => pieces(cs@.subrange(from as int, to as int), v4) is None,
        },
    decreases to - from,
{
    let ghost s = cs@.subrange(from as int, to as int);
    let k = find_in(cs, from, to, ':', ':');
    if k == to {
        if h16_in(cs, from, to) {
            return Some(1);
        }
        if v4 && dotted_in(cs, from, to, 4) {
            proof {
                lemma_dotted_len(s, 4);
            }
            return Some(2);
        }
        return None;
    }
    assert(s.take(k - from) =~= cs@.subrange(from as int, k as int));
    if !h16_in(cs, from, k) {
        return None;
    }
    assert(s.skip(k - from + 1) =~= cs@.subrange(k + 1, to as int));
    match pieces_in(cs, k + 1, to, v4) {
        Some(c) => Some(c + 1),
        None => None,
    }
}

/// `::` starts at position `j` of `s`.
pub open spec fn double_colon_at(s: Seq<char>, j: int) -> bool {
    0 <= j && j + 1 < s.len() && s[j] == ':' && s[j + 1] == ':'
}

proof fn lemma_first_double_colon(s: Seq<char>, m: int)
    requires
        0 <= m <= s.len(),
        forall|j: int| 0 <= j < m ==> !#[trigger] double_colon_at(s, j),
        m + 1 >= s.len() || (s[m] == ':' && s[m + 1] == ':'),
    ensures
        first_double_colon(s) == if m + 1 < s.len() {
            m
        } else {
            s.len() as int
        },
    decreases s.len(),
{
    if s.len() >= 2 && m > 0 {
        assert(!double_colon_at(s, 0));
        assert forall|j: int| 0 <= j < m - 1 implies !#[trigger] double_colon_at(s.drop_first(), j) by {
            assert(!double_colon_at(s, j + 1));
        }
        lemma_first_double_colon(s.drop_first(), m - 1);
    }
}

fn group_count_in(cs: &Vec<char>, from: usize, to: usize, v4: bool) -> (r: Option<usize>)
    requires
        from <= to <= cs@.len(),
    ensures
        match r {
            Some(c) => group_count(cs@.subrange(from as int, to as int), v4) == Some(c as nat),
            None => group_count(cs@.subrange(from as int, to as int), v4) is None,
        },
{
    if from == to {
        Some(0)
    } else {
        pieces_in(cs, from, to, v4)
    }
}

fn ipv6_in(cs: &Vec<char>) -> (r: bool)
    ensures
        r == ipv6_ok(cs@),
{
    let mut i: usize = 0;
    while i < cs.len() && cs.len() - i > 1 && !(cs[i] == ':' && cs[i + 1] == ':')
        invariant
            i <= cs@.len(),
            forall|j: int| 0 <= j < i ==> !#[trigger] double_colon_at(cs@, j),
        decreases cs@.len() - i,
    {
        i = i + 1;
    }
    proof {
        lemma_first_double_colon(cs@, i as int);
    }
    assert(cs@.subrange(0, cs@.len() as int) =~= cs@);
    if i < cs.len() && cs.len() - i > 1 {
        assert(cs@.take(i as int) =~= cs@.subrange(0, i as int));
        assert(cs@.skip(i + 2) =~= cs@.subrange(i + 2, cs@.len() as int));
        let head = group_count_in(cs, 0, i, false);
        let tail = group_count_in(cs, i + 2, cs.len(), true);
        match (head, tail) {
            (Some(a), Some(b)) => a <= 7 && b <= 7 - a,
            _ => false,
        }
    } else {
        match pieces_in(cs, 0, cs.len(), true) {
            Some(c) => c == 8,
            None => false,
        }
    }
}

/// Whether `text` holds the format named `format`.
pub fn holds_format(format: &str, text: &str) -> (r: bool)
    ensures
        r == format_holds(format@, text@),
{
    let cs = chars_of(text);
    assert(cs@.subrange(0, cs@.len() as int) =~= cs@);
    if same_text(format, "date") {
        date_in(&cs, 0, cs.len())
    } else if same_text(format, "time") {
        time_in(&cs, 0, cs.len())
    } else if same_text(format, "date-time") {
        date_time_in(&cs)
    } else if same_text(format, "email") {
        email_in(&cs)
    } else if same_text(format, "uri") {
        uri_in(&cs)
    } else if same_text(format, "ipv4") {
        dotted_in(&cs, 0, cs.len(), 4)
    } else if same_text(format, "ipv6") {
        ipv6_in(&cs)
    } else if same_text(format, "uuid") {
        uuid_in(&cs)
    } else if same_text(format, "regex") {
        regex_new(text).is_some()
    } else {
        true
    }
}

} // verus!

//! Text as sequences of characters: comparing, searching, splitting, and
//! reading and writing numbers.

use vstd::prelude::*;

verus! {

/// `String::push` appends one character.
pub assume_specification[ String::push ](s: &mut String, c: char)
    ensures
        final(s)@ == old(s)@.push(c),
;

/// The characters of a text.
pub fn chars_of(s: &str) -> (r: Vec<char>)
    ensures
        r@ == s@,
{
    let mut out: Vec<char> = Vec::new();
    for c in it: s.chars()
        invariant
            it.seq() == s@,
            out@ == s@.take(it.index() as int),
    {
        assert(s@.take(it.index() as int + 1) =~= s@.take(it.index() as int).push(c));
        out.push(c);
    }
    assert(s@.take(s@.len() as int) =~= s@);
    out
}

/// The text made of the given characters.
pub fn text_of(chars: &[char]) -> (r: String)
    ensures
        r@ == chars@,
{
    let mut out = String::new();
    push_all(&mut out, chars);
    assert(out@ =~= chars@);
    out
}

/// Appends characters to a text.
pub fn push_all(out: &mut String, chars: &[char])
    ensures
        final(out)@ == old(out)@ + chars@,
{
    let ghost start = out@;
    let mut i: usize = 0;
    while i < chars.len()
        invariant
            i <= chars.len(),
            out@ == start + chars@.take(i as int),
        decreases chars.len() - i,
    {
        assert(chars@.take(i + 1) =~= chars@.take(i as int).push(chars@[i as int]));
        assert((start + chars@.take(i as int)).push(chars@[i as int]) =~= start + chars@.take(
            i + 1,
        ));
        out.push(chars[i]);
        i += 1;
    }
    assert(chars@.take(chars@.len() as int) =~= chars@);
    assert(start + chars@.take(0) =~= start);
}

/// Appends a text.
pub fn push_str(out: &mut String, s: &str)
    ensures
        final(out)@ == old(out)@ + s@,
{
    let chars = chars_of(s);
    push_all(out, chars.as_slice());
}

/// Whether two character sequences are the same.
pub fn same_chars(a: &[char], b: &[char]) -> (r: bool)
    ensures
        r == (a@ == b@),
{
    if a.len() != b.len() {
        return false;
    }
    let mut i: usize = 0;
    while i < a.len()
        invariant
            i <= a.len(),
            a.len() == b.len(),
            a@.take(i as int) == b@.take(i as int),
        decreases a.len() - i,
    {
        if a[i] != b[i] {
            assert(a@[i as int] != b@[i as int]);
            return false;
        }
        assert(a@.take(i + 1) =~= a@.take(i as int).push(a@[i as int]));
        assert(b@.take(i + 1) =~= b@.take(i as int).push(b@[i as int]));
        i += 1;
    }
    assert(a@.take(a@.len() as int) =~= a@);
    assert(b@.take(b@.len() as int) =~= b@);
    true
}

/// Whether two texts are the same.
pub fn same_text(a: &str, b: &str) -> (r: bool)
    ensures
        r == (a@ == b@),
{
    let ca = chars_of(a);
    let cb = chars_of(b);
    same_chars(ca.as_slice(), cb.as_slice())
}

/// `c` with the capital letters A to Z made small.
pub open spec fn lower(c: char) -> char {
    if 'A' <= c <= 'Z' {
        (c as u32 + 32) as char
    } else {
        c
    }
}

/// A text with the capital letters A to Z made small.
pub open spec fn lowered(s: Seq<char>) -> Seq<char> {
    s.map_values(|c: char| lower(c))
}

/// Whether `needle` occurs in `s` as one run of characters.
pub open spec fn occurs(s: Seq<char>, needle: Seq<char>) -> bool {
    exists|i: int| #[trigger] occurs_at(s, needle, i)
}

pub open spec fn occurs_at(s: Seq<char>, needle: Seq<char>, i: int) -> bool {
    0 <= i && i + needle.len() <= s.len() && s.subrange(i, i + needle.len()) == needle
}

/// Whether `c`, made small, is `d`.
fn lower_is(c: char, d: char) -> (r: bool)
    ensures
        r == (lower(c) == d),
{
    let k: u32 = c as u32;
    let want: u32 = d as u32;
    if 65 <= k && k <= 90 {
        k + 32 == want
    } else {
        k == want
    }
}

/// Whether `c` comes before `d`.
fn char_lt(c: char, d: char) -> (r: bool)
    ensures
        r == (c < d),
{
    (c as u32) < (d as u32)
}

/// The value of a digit.
pub fn digit_of(c: char) -> (r: Option<u32>)
    ensures
        r is Some <==> is_digit(c),
        r matches Some(d) ==> d == digit_value(c) && d <= 9,
{
    let k: u32 = c as u32;
    if 48 <= k && k <= 57 {
        Some(k - 48)
    } else {
        None
    }
}

fn lowered_matches_at(s: &[char], needle: &[char], at: usize) -> (r: bool)
    requires
        at + needle@.len() <= s@.len(),
    ensures
        r == occurs_at(lowered(s@), needle@, at as int),
{
    let ghost l = lowered(s@);
    let n: usize = s.len();
    let mut j: usize = 0;
    while j < needle.len()
        invariant
            j <= needle.len(),
            at + needle@.len() <= s@.len(),
            n == s@.len(),
            l == lowered(s@),
            forall|k: int| 0 <= k < j ==> l[at + k] == needle@[k],
        decreases needle.len() - j,
    {
        if !lower_is(s[at + j], needle[j]) {
            assert(l[at + j] != needle@[j as int]);
            assert(l.subrange(at as int, at + needle@.len())[j as int] != needle@[j as int]);
            return false;
        }
        assert(l[at + j] == lower(s@[at + j]));
        assert(l[at + j] == needle@[j as int]);
        j += 1;
    }
    assert(l.subrange(at as int, at + needle@.len()) =~= needle@);
    true
}

/// Whether `needle` occurs in `s` once the capital letters of `s` are made small.
pub fn lowered_contains(s: &[char], needle: &[char]) -> (r: bool)
    ensures
        r == occurs(lowered(s@), needle@),
{
    if needle.len() > s.len() {
        assert(lowered(s@).len() == s@.len());
        return false;
    }
    let last: usize = s.len() - needle.len();
    let mut i: usize = 0;
    loop
        invariant
            i <= last,
            last == s@.len() - needle@.len(),
            forall|k: int| 0 <= k < i ==> !occurs_at(lowered(s@), needle@, k),
        decreases last - i,
    {
        if lowered_matches_at(s, needle, i) {
            return true;
        }
        if i == last {
            assert(forall|k: int| !occurs_at(lowered(s@), needle@, k));
            return false;
        }
        i += 1;
    }
}

/// Whether characters, the capital letters A to Z made small, are the given word.
pub fn lowered_equals(s: &[char], word: &str) -> (r: bool)
    ensures
        r == (lowered(s@) == word@),
{
    let cw = chars_of(word);
    if s.len() != cw.len() {
        assert(lowered(s@).len() == s@.len());
        return false;
    }
    let r = lowered_matches_at(s, cw.as_slice(), 0);
    assert(lowered(s@).subrange(0, word@.len() as int) =~= lowered(s@));
    r
}

/// Whether a text, its capital letters A to Z made small, is the given word.
pub fn lowered_is(s: &str, word: &str) -> (r: bool)
    ensures
        r == (lowered(s@) == word@),
{
    let cs = chars_of(s);
    lowered_equals(cs.as_slice(), word)
}

/// Whether `a` comes before `b` or equals it in dictionary order of characters.
pub open spec fn dictionary_le(a: Seq<char>, b: Seq<char>) -> bool
    decreases a.len(),
{
    if a.len() == 0 {
        true
    } else if b.len() == 0 {
        false
    } else if a[0] != b[0] {
        a[0] < b[0]
    } else {
        dictionary_le(a.drop_first(), b.drop_first())
    }
}

/// Dictionary order is total.
pub proof fn lemma_dictionary_total(a: Seq<char>, b: Seq<char>)
    ensures
        dictionary_le(a, b) || dictionary_le(b, a),
    decreases a.len(),
{
    if a.len() > 0 && b.len() > 0 && a[0] == b[0] {
        lemma_dictionary_total(a.drop_first(), b.drop_first());
    }
}

/// Dictionary order is transitive.
pub proof fn lemma_dictionary_transitive(a: Seq<char>, b: Seq<char>, c: Seq<char>)
    requires
        dictionary_le(a, b),
        dictionary_le(b, c),
    ensures
        dictionary_le(a, c),
    decreases a.len(),
{
    if a.len() > 0 && b.len() > 0 && c.len() > 0 && a[0] == b[0] && b[0] == c[0] {
        lemma_dictionary_transitive(a.drop_first(), b.drop_first(), c.drop_first());
    }
}

/// Two texts that come before each other are the same.
pub proof fn lemma_dictionary_antisymmetric(a: Seq<char>, b: Seq<char>)
    requires
        dictionary_le(a, b),
        dictionary_le(b, a),
    ensures
        a == b,
    decreases a.len(),
{
    if a.len() > 0 && b.len() > 0 {
        lemma_dictionary_antisymmetric(a.drop_first(), b.drop_first());
        assert(a =~= seq![a[0]] + a.drop_first());
        assert(b =~= seq![b[0]] + b.drop_first());
    } else {
        assert(a =~= b);
    }
}

/// Whether `a` comes before `b` or equals it in dictionary order.
pub fn text_le(a: &str, b: &str) -> (r: bool)
    ensures
        r == dictionary_le(a@, b@),
{
    let ca = chars_of(a);
    let cb = chars_of(b);
    let mut i: usize = 0;
    assert(a@.skip(0) =~= a@);
    assert(b@.skip(0) =~= b@);
    loop
        invariant
            ca@ == a@,
            cb@ == b@,
            i <= ca@.len(),
            i <= cb@.len(),
            dictionary_le(a@, b@) == dictionary_le(a@.skip(i as int), b@.skip(i as int)),
        decreases ca@.len() - i,
    {
        if i == ca.len() {
            return true;
        }
        if i == cb.len() {
            return false;
        }
        if ca[i] != cb[i] {
            return char_lt(ca[i], cb[i]);
        }
        assert(a@.skip(i as int).drop_first() =~= a@.skip(i + 1));
        assert(b@.skip(i as int).drop_first() =~= b@.skip(i + 1));
        i += 1;
    }
}

/// The pieces of `s` between the separators: always one more than there are
/// separators.
pub open spec fn split(s: Seq<char>, sep: char) -> Seq<Seq<char>>
    decreases s.len(),
{
    if s.len() == 0 {
        seq![Seq::empty()]
    } else {
        let before = split(s.drop_last(), sep);
        if s.last() == sep {
            before.push(Seq::empty())
        } else {
            before.update(before.len() - 1, before.last().push(s.last()))
        }
    }
}

/// The views of a list of character vectors.
pub open spec fn pieces(v: Seq<Vec<char>>) -> Seq<Seq<char>> {
    v.map_values(|x: Vec<char>| x@)
}

/// The pieces of a text between the separators.
pub fn split_at_char(s: &[char], sep: char) -> (r: Vec<Vec<char>>)
    ensures
        pieces(r@) == split(s@, sep),
        r@.len() >= 1,
{
    let mut out: Vec<Vec<char>> = Vec::new();
    let mut current: Vec<char> = Vec::new();
    let mut i: usize = 0;
    assert(s@.take(0) =~= Seq::empty());
    assert(pieces(out@).push(current@) =~= split(s@.take(0), sep));
    while i < s.len()
        invariant
            i <= s.len(),
            pieces(out@).push(current@) == split(s@.take(i as int), sep),
        decreases s.len() - i,
    {
        let c = s[i];
        let ghost before = pieces(out@).push(current@);
        assert(s@.take(i + 1).drop_last() =~= s@.take(i as int));
        if c == sep {
            let ghost old_out = out@;
            let ghost done = current@;
            out.push(current);
            assert(pieces(out@) =~= pieces(old_out).push(done));
            current = Vec::new();
            assert(current@ =~= Seq::empty());
        } else {
            let ghost old_current = current@;
            current.push(c);
            assert(pieces(out@).push(current@) =~= before.update(
                before.len() - 1,
                old_current.push(c),
            ));
        }
        i += 1;
    }
    assert(s@.take(s@.len() as int) =~= s@);
    let ghost old_out = out@;
    let ghost done = current@;
    out.push(current);
    assert(pieces(out@) =~= pieces(old_out).push(done));
    out
}

/// The characters that count as white space.
pub open spec fn is_space(c: char) -> bool {
    let k = c as u32;
    9 <= k <= 13 || k == 32 || k == 0x85 || k == 0xA0 || k == 0x1680 || 0x2000 <= k <= 0x200A || k
        == 0x2028 || k == 0x2029 || k == 0x202F || k == 0x205F || k == 0x3000
}

pub fn is_space_char(c: char) -> (r: bool)
    ensures
        r == is_space(c),
{
    let k: u32 = c as u32;
    (9 <= k && k <= 13) || k == 32 || k == 0x85 || k == 0xA0 || k == 0x1680 || (0x2000 <= k && k
        <= 0x200A) || k == 0x2028 || k == 0x2029 || k == 0x202F || k == 0x205F || k == 0x3000
}

/// `s` without the white space at its start.
pub open spec fn trim_start(s: Seq<char>) -> Seq<char>
    decreases s.len(),
{
    if s.len() > 0 && is_space(s[0]) {
        trim_start(s.drop_first())
    } else {
        s
    }
}

/// `s` without the white space at its end.
pub open spec fn trim_end(s: Seq<char>) -> Seq<char>
    decreases s.len(),
{
    if s.len() > 0 && is_space(s.last()) {
        trim_end(s.drop_last())
    } else {
        s
    }
}

/// `s` without the white space around it.
pub open spec fn trimmed(s: Seq<char>) -> Seq<char> {
    trim_end(trim_start(s))
}

/// The characters without the white space around them.
pub fn trim(s: &[char]) -> (r: Vec<char>)
    ensures
        r@ == trimmed(s@),
{
    let mut start: usize = 0;
    assert(s@.skip(0) =~= s@);
    while start < s.len() && is_space_char(s[start])
        invariant
            start <= s.len(),
            trim_start(s@) == trim_start(s@.skip(start as int)),
        decreases s.len() - start,
    {
        assert(s@.skip(start as int).drop_first() =~= s@.skip(start + 1));
        start += 1;
    }
    assert(trim_start(s@) == s@.skip(start as int));
    let mut end: usize = s.len();
    assert(s@.subrange(start as int, end as int) =~= s@.skip(start as int));
    while end > start && is_space_char(s[end - 1])
        invariant
            start <= end <= s.len(),
            trim_end(s@.skip(start as int)) == trim_end(s@.subrange(start as int, end as int)),
        decreases end,
    {
        assert(s@.subrange(start as int, end as int).drop_last() =~= s@.subrange(
            start as int,
            end - 1,
        ));
        end -= 1;
    }
    assert(trim_end(s@.skip(start as int)) == s@.subrange(start as int, end as int));
    copy_range(s, start, end)
}

/// The characters from `start` up to `end`.
pub fn copy_range(s: &[char], start: usize, end: usize) -> (r: Vec<char>)
    requires
        start <= end <= s@.len(),
    ensures
        r@ == s@.subrange(start as int, end as int),
{
    let mut out: Vec<char> = Vec::new();
    let mut i: usize = start;
    while i < end
        invariant
            start <= i <= end <= s@.len(),
            out@ == s@.subrange(start as int, i as int),
        decreases end - i,
    {
        assert(s@.subrange(start as int, i + 1) =~= s@.subrange(start as int, i as int).push(
            s@[i as int],
        ));
        out.push(s[i]);
        i += 1;
    }
    out
}

pub open spec fn is_digit(c: char) -> bool {
    '0' <= c <= '9'
}

pub open spec fn digit_value(c: char) -> int {
    c as u32 - 48
}

pub open spec fn all_digits(s: Seq<char>) -> bool {
    forall|i: int| 0 <= i < s.len() ==> is_digit(#[trigger] s[i])
}

/// The number that a run of digits writes.
pub open spec fn number(s: Seq<char>) -> int
    decreases s.len(),
{
    if s.len() == 0 {
        0
    } else {
        10 * number(s.drop_last()) + digit_value(s.last())
    }
}

pub proof fn lemma_number_prefix(s: Seq<char>, i: int)
    requires
        all_digits(s),
        0 <= i <= s.len(),
    ensures
        0 <= number(s.take(i)) <= number(s),
    decreases s.len(),
{
    if i == s.len() {
        assert(s.take(i) =~= s);
        if s.len() > 0 {
            assert(s.take(i - 1) =~= s.drop_last());
            assert(s.drop_last().take(i - 1) =~= s.drop_last());
            lemma_number_prefix(s.drop_last(), i - 1);
        }
    } else {
        assert(s.take(i) =~= s.drop_last().take(i));
        lemma_number_prefix(s.drop_last(), i);
        lemma_number_prefix(s.drop_last(), s.len() - 1);
        assert(s.drop_last().take(s.len() - 1) =~= s.drop_last());
    }
}

/// The number that a non-empty run of digits writes, where it is at most `limit`.
pub fn read_number(s: &[char], limit: u128) -> (r: Option<u128>)
    requires
        limit <= 0xffff_ffff_ffff_ffff_ffff_ffff,
    ensures
        r is Some <==> (s@.len() > 0 && all_digits(s@) && number(s@) <= limit),
        r matches Some(n) ==> n == number(s@),
{
    if s.len() == 0 {
        return None;
    }
    let mut n: u128 = 0;
    let mut over: bool = false;
    let mut i: usize = 0;
    while i < s.len()
        invariant
            limit <= 0xffff_ffff_ffff_ffff_ffff_ffff,
            i <= s.len(),
            all_digits(s@.take(i as int)),
            !over ==> n == number(s@.take(i as int)) && n <= limit,
            over ==> number(s@.take(i as int)) > limit,
        decreases s.len() - i,
    {
        assert(s@.take(i + 1).drop_last() =~= s@.take(i as int));
        assert(s@.take(i + 1).last() == s@[i as int]);
        let d: u32 = match digit_of(s[i]) {
            Some(d) => d,
            None => {
                assert(!is_digit(s@[i as int]));
                return None;
            },
        };
        proof {
            lemma_number_prefix(s@.take(i as int), i as int);
            assert(s@.take(i as int).take(i as int) =~= s@.take(i as int));
            assert forall|j: int| 0 <= j < i + 1 implies is_digit(#[trigger] s@.take(i + 1)[j]) by {
                if j < i {
                    assert(s@.take(i + 1)[j] == s@.take(i as int)[j]);
                }
            }
        }
        if !over {
            n = n * 10 + d as u128;
            if n > limit {
                over = true;
            }
        }
        i += 1;
    }
    assert(s@.take(s@.len() as int) =~= s@);
    if over {
        None
    } else {
        Some(n)
    }
}

/// A signed number: digits, with an optional sign in front.
pub open spec fn signed_number(s: Seq<char>) -> Option<int> {
    let negative = s.len() > 0 && s[0] == '-';
    let body = if s.len() > 0 && (s[0] == '-' || s[0] == '+') {
        s.drop_first()
    } else {
        s
    };
    if body.len() > 0 && all_digits(body) {
        Some(
            if negative {
                -number(body)
            } else {
                number(body)
            },
        )
    } else {
        None
    }
}

/// Reads a signed number that fits into 64 bits.
pub fn read_i64(s: &[char]) -> (r: Option<i64>)
    ensures
        r is Some <==> (signed_number(s@) matches Some(n) && i64::MIN <= n <= i64::MAX),
        r matches Some(n) ==> signed_number(s@) == Some(n as int),
{
    let negative = s.len() > 0 && s[0] == '-';
    let from: usize = if s.len() > 0 && (s[0] == '-' || s[0] == '+') {
        1
    } else {
        0
    };
    let body = copy_range(s, from, s.len());
    assert(from == 1 ==> body@ =~= s@.drop_first());
    assert(from == 0 ==> body@ =~= s@);
    if negative {
        match read_number(body.as_slice(), 9223372036854775808) {
            Some(n) => {
                if n == 9223372036854775808 {
                    Some(i64::MIN)
                } else {
                    Some(-(n as i64))
                }
            },
            None => None,
        }
    } else {
        match read_number(body.as_slice(), 9223372036854775807) {
            Some(n) => Some(n as i64),
            None => None,
        }
    }
}

fn digit_char(d: u64) -> (r: char)
    requires
        d < 10,
    ensures
        r == crate::decimal::digit(d as nat),
{
    if d == 0 {
        '0'
    } else if d == 1 {
        '1'
    } else if d == 2 {
        '2'
    } else if d == 3 {
        '3'
    } else if d == 4 {
        '4'
    } else if d == 5 {
        '5'
    } else if d == 6 {
        '6'
    } else if d == 7 {
        '7'
    } else if d == 8 {
        '8'
    } else {
        '9'
    }
}

/// Appends a number in decimal digits.
pub fn push_number(out: &mut String, n: u64)
    ensures
        final(out)@ == old(out)@ + crate::decimal::digits(n as nat),
    decreases n,
{
    if n >= 10 {
        push_number(out, n / 10);
    }
    let ghost before = out@;
    out.push(digit_char(n % 10));
    assert(n < 10 ==> crate::decimal::digits(n as nat) == seq![
        crate::decimal::digit(n as nat),
    ]);
    assert(out@ =~= old(out)@ + crate::decimal::digits(n as nat));
}

/// How a signed number is written.
pub open spec fn signed_digits(n: int) -> Seq<char> {
    if n < 0 {
        "-"@ + crate::decimal::digits((-n) as nat)
    } else {
        crate::decimal::digits(n as nat)
    }
}

/// Appends a signed number.
pub fn push_signed(out: &mut String, n: i64)
    ensures
        final(out)@ == old(out)@ + signed_digits(n as int),
{
    let ghost start = out@;
    if n < 0 {
        push_str(out, "-");
        let size: u64 = if n == i64::MIN {
            9223372036854775808
        } else {
            (-n) as u64
        };
        push_number(out, size);
        assert(out@ =~= start + signed_digits(n as int));
    } else {
        push_number(out, n as u64);
    }
}

/// Where a character first stands in a text, or the text's end.
pub open spec fn index_of(s: Seq<char>, c: char) -> int
    decreases s.len(),
{
    if s.len() == 0 || s[0] == c {
        0
    } else {
        1 + index_of(s.drop_first(), c)
    }
}

/// Where a character first stands, or the end.
pub fn find_char(s: &[char], c: char) -> (r: usize)
    ensures
        r == index_of(s@, c),
        r <= s@.len(),
{
    let mut i: usize = 0;
    proof {
        assert(s@.skip(0) =~= s@);
    }
    while i < s.len() && s[i] != c
        invariant
            i <= s@.len(),
            index_of(s@, c) == i + index_of(s@.skip(i as int), c),
        decreases s@.len() - i,
    {
        proof {
            assert(s@.skip(i as int).drop_first() =~= s@.skip(i + 1));
            assert(s@.skip(i as int)[0] == s@[i as int]);
        }
        i += 1;
    }
    proof {
        if i < s@.len() {
            assert(s@.skip(i as int)[0] == s@[i as int]);
        }
    }
    i
}

/// A text of its own with the same characters.
pub fn owned(s: &str) -> (r: String)
    ensures
        r@ == s@,
{
    let mut out = String::new();
    push_str(&mut out, s);
    assert(out@ =~= s@);
    out
}

} // verus!

//! Text as sequences of characters.
//!
//! The parsers of this crate read command lines and the output of system
//! tools. They work on the characters of a string: this module holds the
//! operations they share, each with a spec function of the same meaning.

use vstd::prelude::*;
use vstd::slice::slice_subrange;
use vstd::utf8::{decode_utf8, valid_utf8};

verus! {

/// `String::push` appends one character to the end of the string.
pub assume_specification[ String::push ](s: &mut String, c: char)
    ensures
        final(s)@ == old(s)@.push(c),
;

/// The text that `String::from_utf8_lossy` makes of bytes that are not valid
/// UTF-8.
pub uninterp spec fn utf8_lossy(bytes: Seq<u8>) -> Seq<char>;

/// The text that bytes amount to: what they spell in UTF-8, with replacement
/// characters for what spells nothing.
pub open spec fn lossy(bytes: Seq<u8>) -> Seq<char> {
    if valid_utf8(bytes) {
        decode_utf8(bytes)
    } else {
        utf8_lossy(bytes)
    }
}

/// `String::from_utf8_lossy`: bytes that are valid UTF-8 are decoded, and
/// what is not valid is replaced by U+FFFD. How much one replacement
/// character stands for is left to that function.
#[verifier::external_body]
pub(crate) fn lossy_text(bytes: &[u8]) -> (out: String)
    ensures
        valid_utf8(bytes@) ==> out@ == decode_utf8(bytes@),
        !valid_utf8(bytes@) ==> out@ == utf8_lossy(bytes@),
{
    String::from_utf8_lossy(bytes).into_owned()
}

// ---------------------------------------------------------------------
// Characters
// ---------------------------------------------------------------------

/// Characters with the Unicode property `White_Space`.
pub open spec fn white_space(c: char) -> bool {
    ||| '\u{9}' <= c <= '\u{d}'
    ||| c == ' '
    ||| c == '\u{85}'
    ||| c == '\u{a0}'
    ||| c == '\u{1680}'
    ||| '\u{2000}' <= c <= '\u{200a}'
    ||| c == '\u{2028}'
    ||| c == '\u{2029}'
    ||| c == '\u{202f}'
    ||| c == '\u{205f}'
    ||| c == '\u{3000}'
}

/// Characters of the Unicode general category `Cc`.
pub open spec fn control(c: char) -> bool {
    c <= '\u{1f}' || '\u{7f}' <= c <= '\u{9f}'
}

/// ASCII capitals become small letters, everything else stays.
pub open spec fn ascii_lower(c: char) -> char {
    if 'A' <= c <= 'Z' {
        ((c as u8 + 32) as u8) as char
    } else {
        c
    }
}

pub open spec fn is_digit(c: char) -> bool {
    '0' <= c <= '9'
}

/// Value of a decimal digit.
pub open spec fn digit_value(c: char) -> nat {
    (c as nat - '0' as nat) as nat
}

/// The decimal digit of a value below ten.
pub open spec fn digit_char(d: nat) -> char {
    (('0' as nat + d) as u8) as char
}

pub fn is_white_space(c: char) -> (b: bool)
    ensures
        b == white_space(c),
{
    ('\u{9}' <= c && c <= '\u{d}') || c == ' ' || c == '\u{85}' || c == '\u{a0}' || c == '\u{1680}'
        || ('\u{2000}' <= c && c <= '\u{200a}') || c == '\u{2028}' || c == '\u{2029}' || c
        == '\u{202f}' || c == '\u{205f}' || c == '\u{3000}'
}

pub fn is_control(c: char) -> (b: bool)
    ensures
        b == control(c),
{
    c <= '\u{1f}' || ('\u{7f}' <= c && c <= '\u{9f}')
}

pub fn to_ascii_lower(c: char) -> (r: char)
    ensures
        r == ascii_lower(c),
{
    if 'A' <= c && c <= 'Z' {
        (c as u8 + 32) as char
    } else {
        c
    }
}

// ---------------------------------------------------------------------
// Strings and characters
// ---------------------------------------------------------------------

/// The characters of a string.
pub fn chars_of(s: &str) -> (out: Vec<char>)
    ensures
        out@ == s@,
{
    let mut out: Vec<char> = Vec::new();
    for c in it: s.chars()
        invariant
            it.seq() == s@,
            out@ == s@.take(it.index()),
    {
        out.push(c);
    }
    out
}

/// The string made of these characters.
pub fn text_of(s: &[char]) -> (out: String)
    ensures
        out@ == s@,
{
    let mut out = String::new();
    for i in 0..s.len()
        invariant
            out@ == s@.take(i as int),
    {
        out.push(s[i]);
    }
    assert(s@.take(s@.len() as int) == s@);
    out
}

/// Whether two character slices are equal.
pub fn same_chars(a: &[char], b: &[char]) -> (r: bool)
    ensures
        r == (a@ == b@),
{
    if a.len() != b.len() {
        return false;
    }
    for i in 0..a.len()
        invariant
            a@.len() == b@.len(),
            forall|j: int| 0 <= j < i ==> a@[j] == b@[j],
    {
        if a[i] != b[i] {
            assert(a@[i as int] != b@[i as int]);
            return false;
        }
    }
    assert(a@ =~= b@);
    true
}

/// Whether the characters spell out a string.
pub fn same_text(a: &[char], b: &str) -> (r: bool)
    ensures
        r == (a@ == b@),
{
    let other = chars_of(b);
    same_chars(a, other.as_slice())
}

/// Appends characters to a string.
pub fn push_chars(out: &mut String, s: &[char])
    ensures
        final(out)@ == old(out)@ + s@,
{
    for i in 0..s.len()
        invariant
            out@ == old(out)@ + s@.take(i as int),
    {
        out.push(s[i]);
    }
    assert(s@.take(s@.len() as int) == s@);
}

/// `before`, the characters of `middle` and `after`, as one string.
pub fn compose(before: &str, middle: &[char], after: &str) -> (out: String)
    ensures
        out@ == before@ + middle@ + after@,
{
    let mut out = before.to_owned();
    push_chars(&mut out, middle);
    out.append(after);
    out
}

/// The contents of a vector of character vectors.
pub open spec fn views(v: Seq<Vec<char>>) -> Seq<Seq<char>> {
    v.map_values(|x: Vec<char>| x@)
}

/// The contents of a vector of strings.
pub open spec fn string_views(v: Seq<String>) -> Seq<Seq<char>> {
    v.map_values(|x: String| x@)
}

// ---------------------------------------------------------------------
// Searching
// ---------------------------------------------------------------------

/// Whether `s` begins with `pat`.
pub open spec fn begins_with(s: Seq<char>, pat: Seq<char>) -> bool {
    pat.len() <= s.len() && s.take(pat.len() as int) == pat
}

/// Whether `pat` stands in `s` at position `i`.
pub open spec fn found_at(s: Seq<char>, pat: Seq<char>, i: int) -> bool {
    0 <= i && i + pat.len() <= s.len() && s.subrange(i, i + pat.len()) == pat
}

/// The first position, from `i` on, at which `pat` stands in `s`.
pub open spec fn find_from(s: Seq<char>, pat: Seq<char>, i: int) -> Option<int>
    decreases s.len() - i + 1,
{
    if i < 0 || i + pat.len() > s.len() {
        None
    } else if found_at(s, pat, i) {
        Some(i)
    } else {
        find_from(s, pat, i + 1)
    }
}

/// The first position at which `pat` stands in `s`.
pub open spec fn find(s: Seq<char>, pat: Seq<char>) -> Option<int> {
    find_from(s, pat, 0)
}

/// `find_from` returns the least position, or none where there is none.
pub proof fn lemma_find_from(s: Seq<char>, pat: Seq<char>, i: int)
    requires
        0 <= i,
    ensures
        match find_from(s, pat, i) {
            Some(k) => i <= k && found_at(s, pat, k) && (forall|j: int|
                i <= j < k ==> !#[trigger] found_at(s, pat, j)),
            None => forall|j: int| i <= j ==> !#[trigger] found_at(s, pat, j),
        },
    decreases s.len() - i + 1,
{
    if i + pat.len() <= s.len() && !found_at(s, pat, i) {
        lemma_find_from(s, pat, i + 1);
    }
}

/// The only position that can come out of a search is the least one.
pub proof fn lemma_find_is(s: Seq<char>, pat: Seq<char>, k: int)
    requires
        found_at(s, pat, k),
        forall|j: int| 0 <= j < k ==> !#[trigger] found_at(s, pat, j),
    ensures
        find(s, pat) == Some(k),
{
    lemma_find_from(s, pat, 0);
}

pub fn starts_with(s: &[char], pat: &[char]) -> (r: bool)
    ensures
        r == begins_with(s@, pat@),
{
    if pat.len() > s.len() {
        return false;
    }
    same_chars(slice_subrange(s, 0, pat.len()), pat)
}

pub fn find_chars(s: &[char], pat: &[char]) -> (r: Option<usize>)
    ensures
        match r {
            Some(i) => find(s@, pat@) == Some(i as int),
            None => find(s@, pat@) is None,
        },
        r matches Some(i) ==> i + pat@.len() <= s@.len(),
{
    if pat.len() > s.len() {
        return None;
    }
    let last = s.len() - pat.len();
    let mut i: usize = 0;
    let n = s.len();
    while i <= last
        invariant
            n == s@.len(),
            last == n - pat@.len(),
            0 <= i <= last + 1,
            find(s@, pat@) == find_from(s@, pat@, i as int),
        decreases last + 1 - i,
    {
        if same_chars(slice_subrange(s, i, i + pat.len()), pat) {
            return Some(i);
        }
        if i == last {
            assert(find_from(s@, pat@, i + 1) is None);
            return None;
        }
        i += 1;
    }
    None
}

/// The text before and after the first `pat`.
pub open spec fn split_once(s: Seq<char>, pat: Seq<char>) -> Option<(Seq<char>, Seq<char>)> {
    match find(s, pat) {
        Some(i) => Some((s.take(i), s.skip(i + pat.len()))),
        None => None,
    }
}

pub fn split_chars_once<'a>(s: &'a [char], pat: &[char]) -> (r: Option<(&'a [char], &'a [char])>)
    ensures
        match r {
            Some((a, b)) => split_once(s@, pat@) == Some((a@, b@)),
            None => split_once(s@, pat@) is None,
        },
{
    match find_chars(s, pat) {
        Some(i) => {
            let a = slice_subrange(s, 0, i);
            let n = s.len();
            let b = slice_subrange(s, i + pat.len(), n);
            assert(a@ =~= s@.take(i as int));
            assert(b@ =~= s@.skip(i + pat@.len()));
            Some((a, b))
        },
        None => None,
    }
}

// ---------------------------------------------------------------------
// Splitting and joining
// ---------------------------------------------------------------------

/// The pieces of `s` between the occurrences of `pat`, from the left.
pub open spec fn split(s: Seq<char>, pat: Seq<char>) -> Seq<Seq<char>>
    decreases s.len(),
    when pat.len() > 0
{
    proof {
        lemma_find_from(s, pat, 0);
    }
    match find(s, pat) {
        Some(i) => seq![s.take(i)] + split(s.skip(i + pat.len()), pat),
        None => seq![s],
    }
}

pub fn split_chars(s: &[char], pat: &[char]) -> (out: Vec<Vec<char>>)
    requires
        pat@.len() > 0,
    ensures
        views(out@) == split(s@, pat@),
        out@.len() >= 1,
{
    let mut out: Vec<Vec<char>> = Vec::new();
    let mut rest: &[char] = s;
    loop
        invariant
            pat@.len() > 0,
            split(s@, pat@) == views(out@) + split(rest@, pat@),
        decreases rest@.len(),
    {
        match split_chars_once(rest, pat) {
            Some((a, b)) => {
                proof {
                    lemma_find_from(rest@, pat@, 0);
                }
                let ghost before = views(out@);
                let piece = copy_of(a);
                out.push(piece);
                assert(views(out@) =~= before.push(a@));
                assert(before + (seq![a@] + split(b@, pat@)) =~= before.push(a@) + split(b@, pat@));
                rest = b;
            },
            None => {
                let ghost before = views(out@);
                let piece = copy_of(rest);
                out.push(piece);
                assert(views(out@) =~= before.push(rest@));
                assert(before + seq![rest@] =~= before.push(rest@));
                return out;
            },
        }
    }
}

/// A vector with the same characters.
pub fn copy_of(s: &[char]) -> (out: Vec<char>)
    ensures
        out@ == s@,
{
    vstd::slice::slice_to_vec(s)
}

/// The pieces with `sep` between them.
pub open spec fn join(parts: Seq<Seq<char>>, sep: Seq<char>) -> Seq<char>
    decreases parts.len(),
{
    if parts.len() == 0 {
        seq![]
    } else if parts.len() == 1 {
        parts[0]
    } else {
        join(parts.drop_last(), sep) + sep + parts.last()
    }
}

pub fn join_strings(parts: &[String], sep: &str) -> (out: String)
    ensures
        out@ == join(string_views(parts@), sep@),
{
    let mut out = String::new();
    for i in 0..parts.len()
        invariant
            out@ == join(string_views(parts@).take(i as int), sep@),
    {
        if i > 0 {
            out.append(sep);
        }
        out.append(parts[i].as_str());
        assert(string_views(parts@).take(i + 1).drop_last() =~= string_views(parts@).take(i as int));
    }
    assert(string_views(parts@).take(parts@.len() as int) =~= string_views(parts@));
    out
}

// ---------------------------------------------------------------------
// White space
// ---------------------------------------------------------------------

/// Drops leading white space.
pub open spec fn trim_start(s: Seq<char>) -> Seq<char>
    decreases s.len(),
{
    if s.len() > 0 && white_space(s[0]) {
        trim_start(s.skip(1))
    } else {
        s
    }
}

/// Drops trailing white space.
pub open spec fn trim_end(s: Seq<char>) -> Seq<char>
    decreases s.len(),
{
    if s.len() > 0 && white_space(s.last()) {
        trim_end(s.drop_last())
    } else {
        s
    }
}

/// Drops white space at both ends.
pub open spec fn trim(s: Seq<char>) -> Seq<char> {
    trim_end(trim_start(s))
}

pub fn trim_chars_start<'a>(s: &'a [char]) -> (out: &'a [char])
    ensures
        out@ == trim_start(s@),
{
    let mut i: usize = 0;
    assert(s@.skip(0) =~= s@);
    while i < s.len() && is_white_space(s[i])
        invariant
            i <= s@.len(),
            trim_start(s@) == trim_start(s@.skip(i as int)),
        decreases s@.len() - i,
    {
        assert(s@.skip(i as int).skip(1) =~= s@.skip(i + 1));
        i += 1;
    }
    let out = slice_subrange(s, i, s.len());
    assert(out@ =~= s@.skip(i as int));
    out
}

pub fn trim_chars_end<'a>(s: &'a [char]) -> (out: &'a [char])
    ensures
        out@ == trim_end(s@),
{
    let mut n: usize = s.len();
    assert(s@.take(n as int) =~= s@);
    while n > 0 && is_white_space(s[n - 1])
        invariant
            n <= s@.len(),
            trim_end(s@) == trim_end(s@.take(n as int)),
        decreases n,
    {
        assert(s@.take(n as int).drop_last() =~= s@.take(n - 1));
        n -= 1;
    }
    let out = slice_subrange(s, 0, n);
    assert(out@ =~= s@.take(n as int));
    out
}

pub fn trim_chars<'a>(s: &'a [char]) -> (out: &'a [char])
    ensures
        out@ == trim(s@),
{
    trim_chars_end(trim_chars_start(s))
}

/// The number of leading characters that are not white space.
pub open spec fn word_len(s: Seq<char>) -> nat
    decreases s.len(),
{
    if s.len() > 0 && !white_space(s[0]) {
        1 + word_len(s.skip(1))
    } else {
        0
    }
}

pub proof fn lemma_word_len(s: Seq<char>)
    ensures
        word_len(s) <= s.len(),
        s.len() > 0 && !white_space(s[0]) ==> word_len(s) > 0,
    decreases s.len(),
{
    if s.len() > 0 {
        lemma_word_len(s.skip(1));
    }
}

pub proof fn lemma_trim_start_len(s: Seq<char>)
    ensures
        trim_start(s).len() <= s.len(),
        trim_start(s).len() > 0 ==> !white_space(trim_start(s)[0]),
    decreases s.len(),
{
    if s.len() > 0 && white_space(s[0]) {
        lemma_trim_start_len(s.skip(1));
    }
}

/// The maximal runs of characters that are not white space.
pub open spec fn words(s: Seq<char>) -> Seq<Seq<char>>
    decreases s.len(),
{
    proof {
        lemma_trim_start_len(s);
        lemma_word_len(trim_start(s));
    }
    let t = trim_start(s);
    if t.len() == 0 {
        seq![]
    } else {
        let n = word_len(t) as int;
        seq![t.take(n)] + words(t.skip(n))
    }
}

fn leading_word(s: &[char]) -> (n: usize)
    ensures
        n == word_len(s@),
        n <= s@.len(),
{
    let mut i: usize = 0;
    assert(s@.skip(0) =~= s@);
    while i < s.len() && !is_white_space(s[i])
        invariant
            i <= s@.len(),
            word_len(s@) == i + word_len(s@.skip(i as int)),
        decreases s@.len() - i,
    {
        assert(s@.skip(i as int).skip(1) =~= s@.skip(i + 1));
        i += 1;
    }
    i
}

pub fn words_of(s: &[char]) -> (out: Vec<Vec<char>>)
    ensures
        views(out@) == words(s@),
{
    let mut out: Vec<Vec<char>> = Vec::new();
    let mut rest: &[char] = s;
    loop
        invariant
            words(s@) == views(out@) + words(rest@),
        decreases rest@.len(),
    {
        let t = trim_chars_start(rest);
        proof {
            lemma_trim_start_len(rest@);
            lemma_word_len(t@);
        }
        if t.len() == 0 {
            assert(views(out@) + words(rest@) =~= views(out@));
            return out;
        }
        let n = leading_word(t);
        let ghost before = views(out@);
        let word = slice_subrange(t, 0, n);
        let piece = copy_of(word);
        out.push(piece);
        let next = slice_subrange(t, n, t.len());
        assert(word@ =~= t@.take(n as int));
        assert(next@ =~= t@.skip(n as int));
        assert(views(out@) =~= before.push(word@));
        assert(before + (seq![word@] + words(next@)) =~= before.push(word@) + words(next@));
        rest = next;
    }
}

// ---------------------------------------------------------------------
// Lines
// ---------------------------------------------------------------------

/// A line ending in a carriage return loses it.
pub open spec fn without_cr(s: Seq<char>) -> Seq<char> {
    if s.len() > 0 && s.last() == '\r' {
        s.drop_last()
    } else {
        s
    }
}

/// The lines of a text. A line ends in a line feed, or a carriage return and
/// a line feed; the end of the text also ends a line that is not empty.
pub open spec fn lines(s: Seq<char>) -> Seq<Seq<char>>
    decreases s.len(),
{
    proof {
        lemma_find_from(s, seq!['\n'], 0);
    }
    if s.len() == 0 {
        seq![]
    } else {
        match find(s, seq!['\n']) {
            Some(i) => seq![without_cr(s.take(i))] + lines(s.skip(i + 1)),
            None => seq![s],
        }
    }
}

pub fn lines_of(s: &[char]) -> (out: Vec<Vec<char>>)
    ensures
        views(out@) == lines(s@),
{
    let mut out: Vec<Vec<char>> = Vec::new();
    let mut rest: &[char] = s;
    let feed: [char; 1] = ['\n'];
    assert(feed@ =~= seq!['\n']);
    while rest.len() > 0
        invariant
            feed@ == seq!['\n'],
            lines(s@) == views(out@) + lines(rest@),
        decreases rest@.len(),
    {
        let ghost before = views(out@);
        match split_chars_once(rest, &feed) {
            Some((a, b)) => {
                proof {
                    lemma_find_from(rest@, seq!['\n'], 0);
                }
                let line = if a.len() > 0 && a[a.len() - 1] == '\r' {
                    slice_subrange(a, 0, a.len() - 1)
                } else {
                    a
                };
                assert(line@ =~= without_cr(a@));
                let piece = copy_of(line);
                out.push(piece);
                assert(views(out@) =~= before.push(line@));
                assert(before + (seq![line@] + lines(b@)) =~= before.push(line@) + lines(b@));
                rest = b;
            },
            None => {
                let piece = copy_of(rest);
                out.push(piece);
                assert(views(out@) =~= before.push(rest@));
                assert(before + seq![rest@] =~= before.push(rest@));
                return out;
            },
        }
    }
    assert(views(out@) + lines(rest@) =~= views(out@));
    out
}

// ---------------------------------------------------------------------
// Letter case
// ---------------------------------------------------------------------

/// ASCII capitals become small letters.
pub open spec fn lower(s: Seq<char>) -> Seq<char> {
    s.map_values(|c: char| ascii_lower(c))
}

/// Equality up to the case of ASCII letters.
pub fn same_ignoring_case(a: &[char], b: &[char]) -> (r: bool)
    ensures
        r == (lower(a@) == lower(b@)),
{
    if a.len() != b.len() {
        assert(lower(a@).len() != lower(b@).len());
        return false;
    }
    for i in 0..a.len()
        invariant
            a@.len() == b@.len(),
            forall|j: int| 0 <= j < i ==> lower(a@)[j] == lower(b@)[j],
    {
        if to_ascii_lower(a[i]) != to_ascii_lower(b[i]) {
            assert(lower(a@)[i as int] != lower(b@)[i as int]);
            return false;
        }
    }
    assert(lower(a@) =~= lower(b@));
    true
}

// ---------------------------------------------------------------------
// Decimal numbers
// ---------------------------------------------------------------------

/// Whether every character is a decimal digit.
pub open spec fn all_digits(s: Seq<char>) -> bool {
    forall|i: int| 0 <= i < s.len() ==> is_digit(#[trigger] s[i])
}

/// Value of a run of decimal digits.
pub open spec fn digits_value(s: Seq<char>) -> nat
    decreases s.len(),
{
    if s.len() == 0 {
        0
    } else {
        digits_value(s.drop_last()) * 10 + digit_value(s.last())
    }
}

/// The digits after an optional plus sign.
pub open spec fn unsigned_digits(s: Seq<char>) -> Seq<char> {
    if s.len() > 0 && s[0] == '+' {
        s.skip(1)
    } else {
        s
    }
}

/// The number that a text spells: an optional plus sign and at least one
/// decimal digit, with a value of at most `max`.
pub open spec fn parse_number(s: Seq<char>, max: nat) -> Option<nat> {
    let digits = unsigned_digits(s);
    if digits.len() > 0 && all_digits(digits) && digits_value(digits) <= max {
        Some(digits_value(digits))
    } else {
        None
    }
}

/// A longer run of digits is worth at least as much.
pub proof fn lemma_digits_value_grows(s: Seq<char>, i: int)
    requires
        0 <= i <= s.len(),
    ensures
        digits_value(s.take(i)) <= digits_value(s),
    decreases s.len() - i,
{
    if i < s.len() {
        lemma_digits_value_grows(s, i + 1);
        assert(s.take(i + 1).drop_last() =~= s.take(i));
    } else {
        assert(s.take(i) =~= s);
    }
}

pub fn number_of(s: &[char], max: u64) -> (r: Option<u64>)
    ensures
        match r {
            Some(n) => parse_number(s@, max as nat) == Some(n as nat),
            None => parse_number(s@, max as nat) is None,
        },
{
    let start: usize = if s.len() > 0 && s[0] == '+' {
        1
    } else {
        0
    };
    let digits = slice_subrange(s, start, s.len());
    assert(digits@ =~= unsigned_digits(s@));
    if digits.len() == 0 {
        return None;
    }
    let mut value: u128 = 0;
    for i in 0..digits.len()
        invariant
            digits@ == unsigned_digits(s@),
            value <= max,
            value == digits_value(digits@.take(i as int)),
            forall|j: int| 0 <= j < i ==> is_digit(#[trigger] digits@[j]),
    {
        let c = digits[i];
        if c < '0' || c > '9' {
            assert(!is_digit(digits@[i as int]));
            return None;
        }
        assert(digits@.take(i + 1).drop_last() =~= digits@.take(i as int));
        value = value * 10 + (c as u128 - '0' as u128);
        if value > max as u128 {
            proof {
                lemma_digits_value_grows(digits@, i + 1);
            }
            return None;
        }
    }
    assert(digits@.take(digits@.len() as int) =~= digits@);
    Some(value as u64)
}

/// The decimal notation of a number.
pub open spec fn decimal(n: nat) -> Seq<char>
    decreases n,
{
    if n < 10 {
        seq![digit_char(n)]
    } else {
        decimal(n / 10).push(digit_char(n % 10))
    }
}

pub fn decimal_of(n: u64) -> (out: String)
    ensures
        out@ == decimal(n as nat),
    decreases n,
{
    let mut out = if n < 10 {
        String::new()
    } else {
        decimal_of(n / 10)
    };
    out.push((48 + (n % 10) as u8) as char);
    assert(n < 10 ==> n % 10 == n);
    out
}

// ---------------------------------------------------------------------
// Laws
// ---------------------------------------------------------------------

/// A character that stands nowhere in a text is not found there.
pub proof fn lemma_not_found(s: Seq<char>, c: char)
    requires
        !s.contains(c),
    ensures
        find(s, seq![c]) is None,
{
    lemma_find_from(s, seq![c], 0);
    if let Some(k) = find(s, seq![c]) {
        assert(s.subrange(k, k + 1)[0] == c);
        assert(s[k] == c);
    }
}

/// A character is found behind a text that lacks it.
pub proof fn lemma_found_behind(a: Seq<char>, c: char, b: Seq<char>)
    requires
        !a.contains(c),
    ensures
        find(a + seq![c] + b, seq![c]) == Some(a.len() as int),
        (a + seq![c] + b).take(a.len() as int) == a,
        (a + seq![c] + b).skip(a.len() as int + 1) == b,
{
    let s = a + seq![c] + b;
    let n = a.len() as int;
    assert(s.subrange(n, n + 1) =~= seq![c]);
    assert forall|j: int| 0 <= j < n implies !#[trigger] found_at(s, seq![c], j) by {
        if found_at(s, seq![c], j) {
            assert(s.subrange(j, j + 1)[0] == c);
            assert(a[j] == c);
        }
    }
    lemma_find_is(s, seq![c], n);
    assert(s.take(n) =~= a);
    assert(s.skip(n + 1) =~= b);
}

/// A text has at least one piece.
pub proof fn lemma_split_len(s: Seq<char>, pat: Seq<char>)
    requires
        pat.len() > 0,
    ensures
        split(s, pat).len() >= 1,
{
    lemma_find_from(s, pat, 0);
}

/// Joined pieces begin with the first one.
pub proof fn lemma_join_front(parts: Seq<Seq<char>>, sep: Seq<char>)
    requires
        parts.len() >= 2,
    ensures
        join(parts, sep) == parts[0] + sep + join(parts.skip(1), sep),
    decreases parts.len(),
{
    if parts.len() == 2 {
        assert(parts.drop_last() =~= seq![parts[0]]);
        assert(parts.skip(1) =~= seq![parts[1]]);
        assert(join(parts.drop_last(), sep) == parts[0]);
        assert(join(parts.skip(1), sep) == parts[1]);
    } else {
        lemma_join_front(parts.drop_last(), sep);
        assert(parts.drop_last().skip(1) =~= parts.skip(1).drop_last());
        assert(join(parts, sep) =~= parts[0] + sep + join(parts.skip(1), sep));
    }
}

/// Joined pieces hold no character that neither the pieces nor the separator
/// hold.
pub proof fn lemma_join_lacks(parts: Seq<Seq<char>>, sep: Seq<char>, c: char)
    requires
        !sep.contains(c),
        forall|i: int| 0 <= i < parts.len() ==> !(#[trigger] parts[i]).contains(c),
    ensures
        !join(parts, sep).contains(c),
    decreases parts.len(),
{
    if parts.len() >= 2 {
        let front = parts.drop_last();
        assert forall|i: int| 0 <= i < front.len() implies !(#[trigger] front[i]).contains(c) by {
            assert(front[i] == parts[i]);
        }
        lemma_join_lacks(front, sep, c);
        let a = join(front, sep);
        let b = parts[parts.len() - 1];
        let s = join(parts, sep);
        if s.contains(c) {
            let k = choose|k: int| 0 <= k < s.len() && s[k] == c;
            if k < a.len() {
                assert(a[k] == c);
            } else if k < a.len() + sep.len() {
                assert(sep[k - a.len()] == c);
            } else {
                assert(b[k - a.len() - sep.len()] == c);
            }
        }
    }
}

/// Digits hold no other character.
pub proof fn lemma_digits_lack(s: Seq<char>, c: char)
    requires
        all_digits(s),
        !is_digit(c),
    ensures
        !s.contains(c),
{
    if s.contains(c) {
        let k = choose|k: int| 0 <= k < s.len() && s[k] == c;
        assert(is_digit(s[k]));
    }
}

/// The pieces between occurrences of a character do not hold it.
pub proof fn lemma_split_lacks(s: Seq<char>, c: char)
    ensures
        forall|i: int|
            0 <= i < split(s, seq![c]).len() ==> !(#[trigger] split(s, seq![c])[i]).contains(c),
    decreases s.len(),
{
    lemma_find_from(s, seq![c], 0);
    let pieces = split(s, seq![c]);
    match find(s, seq![c]) {
        Some(k) => {
            lemma_split_lacks(s.skip(k + 1), c);
            let rest = split(s.skip(k + 1), seq![c]);
            assert forall|i: int| 0 <= i < pieces.len() implies !(#[trigger] pieces[i]).contains(
                c,
            ) by {
                if i > 0 {
                    assert(pieces[i] == rest[i - 1]);
                } else if s.take(k).contains(c) {
                    let j = choose|j: int| 0 <= j < k && s.take(k)[j] == c;
                    assert(s.subrange(j, j + 1) =~= seq![c]);
                    assert(found_at(s, seq![c], j));
                }
            }
        },
        None => {
            if s.contains(c) {
                let j = choose|j: int| 0 <= j < s.len() && s[j] == c;
                assert(s.subrange(j, j + 1) =~= seq![c]);
                assert(found_at(s, seq![c], j));
            }
        },
    }
}

/// Splitting at a character undoes joining with it, for pieces that do not
/// hold it themselves.
pub proof fn law_split_undoes_join(parts: Seq<Seq<char>>, c: char)
    requires
        parts.len() > 0,
        forall|i: int| 0 <= i < parts.len() ==> !(#[trigger] parts[i]).contains(c),
    ensures
        split(join(parts, seq![c]), seq![c]) == parts,
    decreases parts.len(),
{
    if parts.len() == 1 {
        lemma_not_found(parts[0], c);
        assert(split(parts[0], seq![c]) =~= parts);
    } else {
        let rest = parts.skip(1);
        assert forall|i: int| 0 <= i < rest.len() implies !(#[trigger] rest[i]).contains(c) by {
            assert(rest[i] == parts[i + 1]);
        }
        lemma_join_front(parts, seq![c]);
        lemma_found_behind(parts[0], c, join(rest, seq![c]));
        law_split_undoes_join(rest, c);
        assert(seq![parts[0]] + rest =~= parts);
    }
}

/// Joining undoes splitting, whatever the text.
pub proof fn law_join_undoes_split(s: Seq<char>, pat: Seq<char>)
    requires
        pat.len() > 0,
    ensures
        join(split(s, pat), pat) == s,
    decreases s.len(),
{
    lemma_find_from(s, pat, 0);
    if let Some(i) = find(s, pat) {
        let rest = s.skip(i + pat.len());
        law_join_undoes_split(rest, pat);
        lemma_split_len(rest, pat);
        lemma_join_front(split(s, pat), pat);
        assert(split(s, pat).skip(1) =~= split(rest, pat));
        assert(s.take(i) + pat + rest =~= s) by {
            assert(s.subrange(i, i + pat.len()) == pat);
        }
    }
}

/// The decimal notation of a number is made of digits, has no leading zero
/// unless the number is zero, and is worth the number.
pub proof fn lemma_decimal(n: nat)
    ensures
        decimal(n).len() >= 1,
        all_digits(decimal(n)),
        n > 0 ==> decimal(n)[0] != '0',
        digits_value(decimal(n)) == n,
        n < 10 ==> decimal(n).len() == 1,
        10 <= n < 100 ==> decimal(n).len() == 2,
        100 <= n < 1000 ==> decimal(n).len() == 3,
    decreases n,
{
    if n < 10 {
        assert(decimal(n).drop_last() =~= seq![]);
        assert(digits_value(seq![]) == 0);
    } else {
        lemma_decimal(n / 10);
        assert(decimal(n).drop_last() =~= decimal(n / 10));
    }
}

/// A run of digits that does not begin with a zero is not worth nothing.
proof fn lemma_digits_positive(s: Seq<char>)
    requires
        s.len() > 0,
        all_digits(s),
        s[0] != '0',
    ensures
        digits_value(s) >= 1,
    decreases s.len(),
{
    assert(is_digit(s[0]));
    if s.len() > 1 {
        let front = s.drop_last();
        assert forall|i: int| 0 <= i < front.len() implies is_digit(#[trigger] front[i]) by {
            assert(front[i] == s[i]);
        }
        lemma_digits_positive(front);
    } else {
        assert(s.drop_last() =~= seq![]);
        assert(digits_value(seq![]) == 0);
    }
}

/// Digits without a leading zero are the decimal notation of their value.
pub proof fn lemma_decimal_of_digits(s: Seq<char>)
    requires
        s.len() > 0,
        all_digits(s),
        s.len() > 1 ==> s[0] != '0',
    ensures
        decimal(digits_value(s)) == s,
    decreases s.len(),
{
    let front = s.drop_last();
    assert(is_digit(s.last())) by {
        assert(is_digit(s[s.len() - 1]));
    }
    let d = digit_value(s.last());
    assert(digit_char(d) == s.last());
    if s.len() == 1 {
        assert(front =~= seq![]);
        assert(digits_value(seq![]) == 0);
        assert(decimal(d) =~= s);
    } else {
        assert forall|i: int| 0 <= i < front.len() implies is_digit(#[trigger] front[i]) by {
            assert(front[i] == s[i]);
        }
        lemma_decimal_of_digits(front);
        lemma_digits_positive(front);
        let v = digits_value(front);
        assert((v * 10 + d) / 10 == v && (v * 10 + d) % 10 == d);
        assert(decimal(v * 10 + d) =~= s);
    }
}

/// Reading the decimal notation of a number gives the number back, if it is
/// not too large.
pub proof fn law_number_round_trip(n: nat, max: nat)
    ensures
        parse_number(decimal(n), max) == (if n <= max {
            Some(n)
        } else {
            None
        }),
{
    lemma_decimal(n);
    assert(is_digit(decimal(n)[0]));
}

/// Trimming the end of a text cuts off white space only, and all of it.
pub proof fn lemma_trim_end(s: Seq<char>)
    ensures
        trim_end(s).is_prefix_of(s),
        forall|i: int| trim_end(s).len() <= i < s.len() ==> white_space(#[trigger] s[i]),
        trim_end(s).len() > 0 ==> !white_space(trim_end(s).last()),
    decreases s.len(),
{
    if s.len() > 0 && white_space(s.last()) {
        let front = s.drop_last();
        lemma_trim_end(front);
        assert(trim_end(s) =~= s.take(trim_end(s).len() as int));
        assert forall|i: int| trim_end(s).len() <= i < s.len() implies white_space(
            #[trigger] s[i],
        ) by {
            if i < front.len() {
                assert(white_space(front[i]));
            }
        }
    } else {
        assert(s =~= s.take(s.len() as int));
    }
}

/// Trimming the start of a text cuts off white space only, and all of it.
pub proof fn lemma_trim_start(s: Seq<char>)
    ensures
        trim_start(s).len() <= s.len(),
        trim_start(s) == s.skip(s.len() - trim_start(s).len()),
        trim_start(s).len() > 0 ==> !white_space(trim_start(s)[0]),
    decreases s.len(),
{
    if s.len() > 0 && white_space(s[0]) {
        lemma_trim_start(s.skip(1));
        assert(trim_start(s) =~= s.skip(s.len() - trim_start(s).len()));
    } else {
        assert(s.skip(0) =~= s);
    }
}

/// A trimmed text is a stretch of the text, and neither begins nor ends in
/// white space.
pub proof fn lemma_trim(s: Seq<char>)
    ensures
        exists|a: int, b: int| 0 <= a <= b <= s.len() && trim(s) == #[trigger] s.subrange(a, b),
        trim(s).len() > 0 ==> !white_space(trim(s)[0]) && !white_space(trim(s).last()),
{
    let t = trim_start(s);
    lemma_trim_start(s);
    lemma_trim_end(t);
    let a = s.len() - t.len();
    let b = a + trim(s).len();
    assert(trim(s) =~= t.take(trim(s).len() as int));
    assert(trim(s) =~= s.subrange(a, b));
    if trim(s).len() > 0 {
        assert(trim(s)[0] == t[0]);
    }
}

/// Whether every character is white space.
pub open spec fn all_white(s: Seq<char>) -> bool {
    forall|i: int| 0 <= i < s.len() ==> white_space(#[trigger] s[i])
}

/// Whether no character is white space.
pub open spec fn none_white(s: Seq<char>) -> bool {
    forall|i: int| 0 <= i < s.len() ==> !white_space(#[trigger] s[i])
}

/// White space before a text is dropped by trimming its start.
proof fn lemma_trim_start_gap(gap: Seq<char>, s: Seq<char>)
    requires
        all_white(gap),
    ensures
        trim_start(gap + s) == trim_start(s),
    decreases gap.len(),
{
    if gap.len() == 0 {
        assert(gap + s =~= s);
    } else {
        let less = gap.skip(1);
        assert((gap + s).skip(1) =~= less + s);
        assert forall|i: int| 0 <= i < less.len() implies white_space(#[trigger] less[i]) by {
            assert(less[i] == gap[i + 1]);
        }
        assert(white_space(gap[0]));
        lemma_trim_start_gap(less, s);
    }
}

/// White space behind a text is dropped by trimming its end.
proof fn lemma_trim_end_gap(s: Seq<char>, gap: Seq<char>)
    requires
        all_white(gap),
    ensures
        trim_end(s + gap) == trim_end(s),
    decreases gap.len(),
{
    if gap.len() == 0 {
        assert(s + gap =~= s);
    } else {
        let less = gap.drop_last();
        assert((s + gap).drop_last() =~= s + less);
        assert forall|i: int| 0 <= i < less.len() implies white_space(#[trigger] less[i]) by {
            assert(less[i] == gap[i]);
        }
        assert(white_space(gap[gap.len() - 1]));
        lemma_trim_end_gap(s, less);
    }
}

/// Trimming drops the white space around a text and nothing else.
pub proof fn law_trim(before: Seq<char>, core: Seq<char>, after: Seq<char>)
    requires
        all_white(before),
        all_white(after),
        core.len() > 0 ==> !white_space(core[0]) && !white_space(core.last()),
    ensures
        trim(before + core + after) == core,
{
    assert(before + core + after =~= before + (core + after));
    lemma_trim_start_gap(before, core + after);
    if core.len() > 0 {
        assert((core + after)[0] == core[0]);
        lemma_trim_end_gap(core, after);
    } else {
        assert(core + after =~= after + core);
        lemma_trim_start_gap(after, core);
        assert(trim_start(core) =~= core);
    }
}

/// A run without white space is a word up to the next white space.
proof fn lemma_word_len_is(w: Seq<char>, tail: Seq<char>)
    requires
        none_white(w),
        tail.len() > 0 ==> white_space(tail[0]),
    ensures
        word_len(w + tail) == w.len(),
    decreases w.len(),
{
    if w.len() == 0 {
        assert(w + tail =~= tail);
    } else {
        let less = w.skip(1);
        assert((w + tail).skip(1) =~= less + tail);
        assert forall|i: int| 0 <= i < less.len() implies !white_space(#[trigger] less[i]) by {
            assert(less[i] == w[i + 1]);
        }
        assert(!white_space(w[0]));
        lemma_word_len_is(less, tail);
    }
}

/// The words of a text: a run without white space, ended by white space or
/// the end of the text, is the first word, whatever white space stands before
/// it, and the words of the rest follow. White space alone holds none.
pub proof fn law_words(gap: Seq<char>, w: Seq<char>, tail: Seq<char>)
    requires
        all_white(gap),
        none_white(w),
        tail.len() > 0 ==> white_space(tail[0]),
    ensures
        w.len() > 0 ==> words(gap + w + tail) == seq![w] + words(tail),
        words(gap).len() == 0,
{
    assert(gap + Seq::<char>::empty() =~= gap);
    lemma_trim_start_gap(gap, Seq::empty());
    if w.len() > 0 {
        let s = gap + w + tail;
        assert(s =~= gap + (w + tail));
        lemma_trim_start_gap(gap, w + tail);
        assert(!white_space(w[0]));
        assert((w + tail)[0] == w[0]);
        lemma_word_len_is(w, tail);
        assert((w + tail).take(w.len() as int) =~= w);
        assert((w + tail).skip(w.len() as int) =~= tail);
    }
}

/// White space before a text changes none of its words.
pub proof fn law_words_skip_white(gap: Seq<char>, s: Seq<char>)
    requires
        all_white(gap),
    ensures
        words(gap + s) == words(s),
{
    lemma_trim_start_gap(gap, s);
}

/// Words joined by single spaces are the words of the result.
pub proof fn law_words_undo_join(ws: Seq<Seq<char>>)
    requires
        forall|i: int| 0 <= i < ws.len() ==> (#[trigger] ws[i]).len() > 0 && none_white(ws[i]),
    ensures
        words(join(ws, seq![' '])) == ws,
    decreases ws.len(),
{
    let none = Seq::<char>::empty();
    if ws.len() == 0 {
        law_words(none, none, none);
        assert(words(join(ws, seq![' '])) =~= ws);
    } else if ws.len() == 1 {
        assert(none + ws[0] + none =~= ws[0]);
        law_words(none, ws[0], none);
        assert(words(none).len() == 0);
        assert(seq![ws[0]] + words(none) =~= ws);
    } else {
        let rest = ws.skip(1);
        assert forall|i: int| 0 <= i < rest.len() implies (#[trigger] rest[i]).len() > 0
            && none_white(rest[i]) by {
            assert(rest[i] == ws[i + 1]);
        }
        law_words_undo_join(rest);
        lemma_join_front(ws, seq![' ']);
        let tail = seq![' '] + join(rest, seq![' ']);
        assert(join(ws, seq![' ']) =~= none + ws[0] + tail);
        law_words(none, ws[0], tail);
        law_words_skip_white(seq![' '], join(rest, seq![' ']));
        assert(seq![ws[0]] + rest =~= ws);
    }
}

/// The lines of a text: what stands before the first line feed is the first
/// line, less a carriage return at its end, and the lines behind it follow. A
/// text without a line feed is one line, unless it is empty.
pub proof fn law_lines(first: Seq<char>, rest: Seq<char>)
    requires
        !first.contains('\n'),
    ensures
        lines(first + seq!['\n'] + rest) == seq![
            if first.len() > 0 && first.last() == '\r' {
                first.take(first.len() - 1)
            } else {
                first
            },
        ] + lines(rest),
        lines(first) == (if first.len() == 0 {
            seq![]
        } else {
            seq![first]
        }),
{
    lemma_found_behind(first, '\n', rest);
    lemma_not_found(first, '\n');
    if first.len() > 0 {
        assert(first.drop_last() =~= first.take(first.len() - 1));
    }
}

/// Lines that each end in a line feed are the lines of the text they make up.
pub proof fn law_lines_undo_join(ls: Seq<Seq<char>>)
    requires
        forall|i: int|
            0 <= i < ls.len() ==> !(#[trigger] ls[i]).contains('\n') && (ls[i].len() > 0
                ==> ls[i].last() != '\r'),
    ensures
        ls.len() > 0 ==> lines(join(ls, seq!['\n']).push('\n')) == ls,
    decreases ls.len(),
{
    let feed = seq!['\n'];
    let none = Seq::<char>::empty();
    if ls.len() == 1 {
        assert(join(ls, feed).push('\n') =~= ls[0] + feed + none);
        law_lines(ls[0], none);
        law_lines(none, none);
        assert(seq![ls[0]] + lines(none) =~= ls);
    } else if ls.len() > 1 {
        let rest = ls.skip(1);
        assert forall|i: int| 0 <= i < rest.len() implies !(#[trigger] rest[i]).contains('\n') && (
        rest[i].len() > 0 ==> rest[i].last() != '\r') by {
            assert(rest[i] == ls[i + 1]);
        }
        law_lines_undo_join(rest);
        lemma_join_front(ls, feed);
        assert(join(ls, feed).push('\n') =~= ls[0] + feed + join(rest, feed).push('\n'));
        law_lines(ls[0], join(rest, feed).push('\n'));
        assert(seq![ls[0]] + rest =~= ls);
    }
}

/// Splitting goes piece by piece: what stands before the first separator is
/// the first piece, and the pieces of the rest follow. A text without the
/// separator is one piece.
pub proof fn law_split(first: Seq<char>, c: char, rest: Seq<char>)
    requires
        !first.contains(c),
    ensures
        split(first, seq![c]) == seq![first],
        split(first + seq![c] + rest, seq![c]) == seq![first] + split(rest, seq![c]),
        split_once(first, seq![c]) is None,
        split_once(first + seq![c] + rest, seq![c]) == Some((first, rest)),
{
    lemma_found_behind(first, c, rest);
    lemma_not_found(first, c);
}

/// Two texts with the separator between them split as each does.
pub proof fn law_split_concat(a: Seq<char>, c: char, b: Seq<char>)
    ensures
        split(a + seq![c] + b, seq![c]) == split(a, seq![c]) + split(b, seq![c]),
    decreases a.len(),
{
    lemma_find_from(a, seq![c], 0);
    match find(a, seq![c]) {
        None => {
            if a.contains(c) {
                let k = choose|k: int| 0 <= k < a.len() && a[k] == c;
                assert(a.subrange(k, k + 1) =~= seq![c]);
                assert(found_at(a, seq![c], k));
            }
            law_split(a, c, b);
        },
        Some(k) => {
            let first = a.take(k);
            let rest = a.skip(k + 1);
            assert(a.subrange(k, k + 1)[0] == c);
            assert(a =~= first + seq![c] + rest);
            assert(!first.contains(c)) by {
                if first.contains(c) {
                    let j = choose|j: int| 0 <= j < first.len() && first[j] == c;
                    assert(a.subrange(j, j + 1) =~= seq![c]);
                    assert(found_at(a, seq![c], j));
                }
            }
            law_split_concat(rest, c, b);
            law_split(first, c, rest);
            law_split(first, c, rest + seq![c] + b);
            assert(a + seq![c] + b =~= first + seq![c] + (rest + seq![c] + b));
            assert(seq![first] + (split(rest, seq![c]) + split(b, seq![c])) =~= seq![first] + split(
                rest,
                seq![c],
            ) + split(b, seq![c]));
        },
    }
}

/// Splitting at a longer separator undoes joining with it, for pieces that do
/// not hold its first character.
pub proof fn law_split_undoes_long_join(parts: Seq<Seq<char>>, pat: Seq<char>)
    requires
        parts.len() > 0,
        pat.len() > 0,
        forall|i: int| 0 <= i < parts.len() ==> !(#[trigger] parts[i]).contains(pat[0]),
    ensures
        split(join(parts, pat), pat) == parts,
    decreases parts.len(),
{
    let first = parts[0];
    if parts.len() == 1 {
        lemma_find_from(first, pat, 0);
        if let Some(k) = find(first, pat) {
            assert(first.subrange(k, k + pat.len())[0] == pat[0]);
            assert(first[k] == pat[0]);
        }
        assert(split(first, pat) =~= parts);
    } else {
        let rest = parts.skip(1);
        assert forall|i: int| 0 <= i < rest.len() implies !(#[trigger] rest[i]).contains(
            pat[0],
        ) by {
            assert(rest[i] == parts[i + 1]);
        }
        lemma_join_front(parts, pat);
        law_split_undoes_long_join(rest, pat);
        let tail = join(rest, pat);
        let s = join(parts, pat);
        let n = first.len() as int;
        assert(s.subrange(n, n + pat.len()) =~= pat);
        assert forall|j: int| 0 <= j < n implies !#[trigger] found_at(s, pat, j) by {
            if found_at(s, pat, j) {
                assert(s.subrange(j, j + pat.len())[0] == pat[0]);
                assert(first[j] == pat[0]);
            }
        }
        lemma_find_is(s, pat, n);
        assert(s.take(n) =~= first);
        assert(s.skip(n + pat.len()) =~= tail);
        assert(seq![first] + rest =~= parts);
    }
}

/// How numbers are read: digit by digit from the left, each worth ten times
/// the next; a plus sign before them changes nothing; what is above the limit
/// is refused, and so is everything that is no digit, and nothing at all.
pub proof fn law_number_reading(s: Seq<char>, d: char, max: nat)
    requires
        all_digits(s),
        is_digit(d),
        s.len() > 0,
    ensures
        parse_number(seq![d], 9) == Some((d as int - '0' as int) as nat),
        parse_number(s, max) matches Some(v) ==> parse_number(s.push(d), max) == (if v * 10 + (
        d as int - '0' as int) <= max {
            Some((v * 10 + (d as int - '0' as int)) as nat)
        } else {
            None
        }),
        parse_number(s, max) is None ==> parse_number(s.push(d), max) is None,
        parse_number(seq!['+'] + s, max) == parse_number(s, max),
        parse_number(seq![], max) is None,
        parse_number(seq!['+'], max) is None,
{
    let one = seq![d];
    let more = s.push(d);
    assert(one.drop_last() =~= seq![]);
    assert(digits_value(seq![]) == 0);
    assert(all_digits(one));
    assert(more.drop_last() =~= s);
    assert forall|i: int| 0 <= i < more.len() implies is_digit(#[trigger] more[i]) by {
        if i < s.len() {
            assert(is_digit(s[i]));
        }
    }
    assert(is_digit(s[0]));
    assert(more[0] == s[0]);
    assert((seq!['+'] + s).skip(1) =~= s);
    assert(seq!['+'].skip(1) =~= seq![]);
}

/// A text with a character in it that is neither a digit nor a plus sign at
/// its start is no number.
pub proof fn law_no_number(s: Seq<char>, i: int, max: nat)
    requires
        0 <= i < s.len(),
        !is_digit(s[i]),
        i > 0 || s[0] != '+',
    ensures
        parse_number(s, max) is None,
{
    let digits = unsigned_digits(s);
    if s[0] == '+' {
        assert(digits[i - 1] == s[i]);
    }
}

/// Splitting at a longer separator goes piece by piece: pieces that do not
/// hold its first character come out first, then those of the rest.
pub proof fn law_split_long_front(parts: Seq<Seq<char>>, pat: Seq<char>, rest: Seq<char>)
    requires
        parts.len() > 0,
        pat.len() > 0,
        forall|i: int| 0 <= i < parts.len() ==> !(#[trigger] parts[i]).contains(pat[0]),
    ensures
        split(join(parts, pat) + pat + rest, pat) == parts + split(rest, pat),
    decreases parts.len(),
{
    let first = parts[0];
    let tail = if parts.len() == 1 {
        rest
    } else {
        join(parts.skip(1), pat) + pat + rest
    };
    let s = join(parts, pat) + pat + rest;
    if parts.len() > 1 {
        lemma_join_front(parts, pat);
    }
    assert(s =~= first + pat + tail);
    let n = first.len() as int;
    assert(s.subrange(n, n + pat.len()) =~= pat);
    assert forall|j: int| 0 <= j < n implies !#[trigger] found_at(s, pat, j) by {
        if found_at(s, pat, j) {
            assert(s.subrange(j, j + pat.len())[0] == pat[0]);
            assert(first[j] == pat[0]);
        }
    }
    lemma_find_is(s, pat, n);
    assert(s.take(n) =~= first);
    assert(s.skip(n + pat.len()) =~= tail);
    assert(split(s, pat) == seq![first] + split(tail, pat));
    if parts.len() == 1 {
        assert(seq![first] =~= parts);
    } else {
        let others = parts.skip(1);
        assert forall|i: int| 0 <= i < others.len() implies !(#[trigger] others[i]).contains(
            pat[0],
        ) by {
            assert(others[i] == parts[i + 1]);
        }
        law_split_long_front(others, pat, rest);
        assert(seq![first] + (others + split(rest, pat)) =~= parts + split(rest, pat));
    }
}

/// The characters that count as white space in ASCII: tab to carriage return
/// and the space. Beyond it, those with the Unicode property.
pub proof fn law_white_space(c: char)
    ensures
        (c as u32) < 128 ==> (white_space(c) <==> 9 <= c as u32 <= 13 || c as u32 == 32),
        (c as u32) >= 128 ==> (white_space(c) <==> {
            ||| c as u32 == 0x85
            ||| c as u32 == 0xa0
            ||| c as u32 == 0x1680
            ||| 0x2000 <= c as u32 <= 0x200a
            ||| 0x2028 <= c as u32 <= 0x2029
            ||| c as u32 == 0x202f
            ||| c as u32 == 0x205f
            ||| c as u32 == 0x3000
        }),
{
}

/// The control characters are those below the space, and from 127 to 159.
pub proof fn law_control(c: char)
    ensures
        control(c) <==> (c as u32) < 32 || 127 <= c as u32 <= 159,
{
}

/// Lower case changes the 26 capitals only, each to the small letter 32
/// places on, and doing it twice changes nothing more.
pub proof fn law_ascii_lower(c: char)
    ensures
        65 <= c as u32 <= 90 ==> ascii_lower(c) as u32 == c as u32 + 32,
        !(65 <= c as u32 <= 90) ==> ascii_lower(c) == c,
        ascii_lower(ascii_lower(c)) == ascii_lower(c),
{
}

/// Lower case works character by character.
pub proof fn law_lower(s: Seq<char>, i: int)
    ensures
        lower(s).len() == s.len(),
        0 <= i < s.len() ==> lower(s)[i] == ascii_lower(s[i]),
{
}

/// Decimal notation: a number below ten is its digit, and any other ends in
/// its last digit, behind the notation of the rest.
pub proof fn law_decimal(n: nat, d: nat)
    requires
        d < 10,
    ensures
        decimal(d).len() == 1,
        decimal(d)[0] as nat == 48 + d,
        n > 0 ==> decimal(10 * n + d) == decimal(n) + decimal(d),
{
    assert((10 * n + d) / 10 == n);
    assert((10 * n + d) % 10 == d);
    if n > 0 {
        assert(decimal(10 * n + d) =~= decimal(n) + decimal(d));
    }
}

/// Joining: one part is itself, and a further part goes behind the separator.
pub proof fn law_join(parts: Seq<Seq<char>>, part: Seq<char>, sep: Seq<char>)
    ensures
        join(Seq::empty(), sep) == Seq::<char>::empty(),
        join(seq![part], sep) == part,
        parts.len() > 0 ==> join(parts.push(part), sep) == join(parts, sep) + sep + part,
{
    assert(parts.push(part).drop_last() =~= parts);
}

} // verus!

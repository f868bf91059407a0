//! Text operations on characters, with the meaning that `str` documents for
//! the operation of the same name.

use vstd::prelude::*;
use vstd::utf8;

verus! {

/// The characters with the Unicode property `White_Space`.
pub open spec fn is_space(c: char) -> bool {
    let u = c as u32;
    ||| 0x9 <= u <= 0xd
    ||| u == 0x20
    ||| u == 0x85
    ||| u == 0xa0
    ||| u == 0x1680
    ||| 0x2000 <= u <= 0x200a
    ||| u == 0x2028
    ||| u == 0x2029
    ||| u == 0x202f
    ||| u == 0x205f
    ||| u == 0x3000
}

/// The text without its leading white space.
pub open spec fn trim_start(s: Seq<char>) -> Seq<char>
    decreases s.len(),
{
    if s.len() > 0 && is_space(s[0]) {
        trim_start(s.drop_first())
    } else {
        s
    }
}

/// The text without its trailing white space.
pub open spec fn trim_end(s: Seq<char>) -> Seq<char>
    decreases s.len(),
{
    if s.len() > 0 && is_space(s.last()) {
        trim_end(s.drop_last())
    } else {
        s
    }
}

/// The text without the white space around it.
pub open spec fn trimmed(s: Seq<char>) -> Seq<char> {
    trim_end(trim_start(s))
}

/// The text without the characters `c` that it starts with.
pub open spec fn without_leading(s: Seq<char>, c: char) -> Seq<char>
    decreases s.len(),
{
    if s.len() > 0 && s[0] == c {
        without_leading(s.drop_first(), c)
    } else {
        s
    }
}

/// A line without one carriage return at its end.
pub open spec fn without_return(line: Seq<char>) -> Seq<char> {
    if line.len() > 0 && line.last() == '\r' {
        line.drop_last()
    } else {
        line
    }
}

/// The position of the first line feed at or after `from`, or the length.
pub open spec fn line_end(s: Seq<char>, from: int) -> int
    decreases s.len() - from,
{
    if 0 <= from < s.len() && s[from] != '\n' {
        line_end(s, from + 1)
    } else {
        from
    }
}

/// The lines of a text: each ends with a line feed, or a carriage return and a
/// line feed, neither of which belongs to it; the last may lack its ending.
pub open spec fn lines(s: Seq<char>) -> Seq<Seq<char>>
    decreases s.len(),
{
    let end = line_end(s, 0);
    if s.len() == 0 {
        seq![]
    } else if end >= s.len() {
        seq![s]
    } else {
        proof {
            lemma_line_end(s, 0);
        }
        seq![without_return(s.take(end))] + lines(s.skip(end + 1))
    }
}

/// The position of the first white space at or after `from`, or the length.
pub open spec fn word_end(s: Seq<char>, from: int) -> int
    decreases s.len() - from,
{
    if 0 <= from < s.len() && !is_space(s[from]) {
        word_end(s, from + 1)
    } else {
        from
    }
}

/// The first run of characters that are no white space, if there is one.
pub open spec fn first_word(s: Seq<char>) -> Option<Seq<char>> {
    let rest = trim_start(s);
    if rest.len() == 0 {
        None
    } else {
        Some(rest.take(word_end(rest, 0)))
    }
}

/// What follows the first word.
pub open spec fn after_first_word(s: Seq<char>) -> Seq<char> {
    let rest = trim_start(s);
    rest.skip(word_end(rest, 0))
}

/// The decimal digit of a number below ten.
pub open spec fn digit(n: nat) -> char {
    (('0' as u32) + n) as char
}

/// A number in decimal notation, without leading zeros.
pub open spec fn decimal(n: nat) -> Seq<char>
    decreases n,
{
    if n < 10 {
        seq![digit(n)]
    } else {
        decimal(n / 10).push(digit(n % 10))
    }
}

/// Whether a character is one of `0` to `9`.
pub open spec fn is_digit(c: char) -> bool {
    '0' as u32 <= c as u32 <= '9' as u32
}

/// Whether every character is one of `0` to `9`.
pub open spec fn all_digits(s: Seq<char>) -> bool {
    forall|i: int| 0 <= i < s.len() ==> is_digit(#[trigger] s[i])
}

/// The value of a sequence of decimal digits.
pub open spec fn digits_value(s: Seq<char>) -> nat
    decreases s.len(),
{
    if s.len() == 0 {
        0
    } else {
        (digits_value(s.drop_last()) * 10 + (s.last() as u32 - '0' as u32)) as nat
    }
}

/// The number that a text denotes: decimal digits, at least one, with an
/// optional plus sign before them.
pub open spec fn unsigned_value(s: Seq<char>) -> Option<nat> {
    let digits = if s.len() > 0 && s[0] == '+' {
        s.drop_first()
    } else {
        s
    };
    if digits.len() > 0 && all_digits(digits) {
        Some(digits_value(digits))
    } else {
        None
    }
}

/// The lower-case hexadecimal digit of a number below sixteen.
pub open spec fn hex_digit(n: int) -> char {
    if n < 10 {
        (('0' as u32) + n) as char
    } else {
        (('a' as u32) + n - 10) as char
    }
}

/// Bytes in lower-case hexadecimal notation, two digits each.
pub open spec fn hex(bytes: Seq<u8>) -> Seq<char> {
    Seq::new(
        2 * bytes.len(),
        |i: int| hex_digit(if i % 2 == 0 { bytes[i / 2] as int / 16 } else { bytes[i / 2] as int % 16 }),
    )
}

/// An ASCII letter in upper case; any other character as it is.
pub open spec fn ascii_upper(c: char) -> char {
    if 'a' as u32 <= c as u32 <= 'z' as u32 {
        ((c as u32) - 32) as char
    } else {
        c
    }
}

/// An ASCII letter in lower case; any other character as it is.
pub open spec fn ascii_lower(c: char) -> char {
    if 'A' as u32 <= c as u32 <= 'Z' as u32 {
        ((c as u32) + 32) as char
    } else {
        c
    }
}

/// The text with its ASCII letters in upper case.
pub open spec fn upper_text(s: Seq<char>) -> Seq<char> {
    s.map_values(|c: char| ascii_upper(c))
}

/// The text with its ASCII letters in lower case.
pub open spec fn lower_text(s: Seq<char>) -> Seq<char> {
    s.map_values(|c: char| ascii_lower(c))
}

/// The end of `lines`' first line lies within the text.
pub proof fn lemma_line_end(s: Seq<char>, from: int)
    requires
        0 <= from <= s.len(),
    ensures
        from <= line_end(s, from) <= s.len(),
        line_end(s, from) < s.len() ==> s[line_end(s, from)] == '\n',
        forall|i: int| from <= i < line_end(s, from) ==> s[i] != '\n',
    decreases s.len() - from,
{
    if from < s.len() && s[from] != '\n' {
        lemma_line_end(s, from + 1);
    }
}

/// Texts with the same UTF-8 encoding are the same.
pub proof fn lemma_encode_injective(a: Seq<char>, b: Seq<char>)
    ensures
        utf8::encode_utf8(a) == utf8::encode_utf8(b) <==> a == b,
{
    utf8::encode_utf8_decode_utf8(a);
    utf8::encode_utf8_decode_utf8(b);
}

/// Bytes have nothing deeper to view.
pub broadcast proof fn lemma_bytes_deep_view(v: Vec<u8>)
    ensures
        #[trigger] v.deep_view() == v@,
{
    assert(v.deep_view() =~= v@);
}

/// The characters of a text.
pub fn chars_of(s: &str) -> (v: Vec<char>)
    ensures
        v@ == s@,
{
    let mut v: Vec<char> = Vec::new();
    for c in it: s.chars()
        invariant
            it.seq() == s@,
            v@ == s@.take(it.index()),
    {
        v.push(c);
        assert(s@.take(it.index() + 1) == s@.take(it.index()).push(c));
    }
    assert(s@.take(s@.len() as int) == s@);
    v
}

/// The text of some characters.
pub fn string_of(v: &[char]) -> (s: String)
    ensures
        s@ == v@,
{
    let mut s = String::new();
    let n = v.len();
    let mut i: usize = 0;
    while i < n
        invariant
            i <= n,
            n == v@.len(),
            s@ == v@.take(i as int),
        decreases n - i,
    {
        s.push(v[i]);
        assert(v@.take(i + 1) == v@.take(i as int).push(v@[i as int]));
        i = i + 1;
    }
    assert(v@.take(n as int) == v@);
    s
}

/// Whether two byte sequences are equal.
pub fn bytes_eq(a: &[u8], b: &[u8]) -> (r: bool)
    ensures
        r == (a@ == b@),
{
    if a.len() != b.len() {
        return false;
    }
    let n = a.len();
    let mut i: usize = 0;
    while i < n
        invariant
            i <= n,
            n == a@.len(),
            n == b@.len(),
            a@.take(i as int) == b@.take(i as int),
        decreases n - i,
    {
        if a[i] != b[i] {
            return false;
        }
        assert(a@.take(i + 1) == a@.take(i as int).push(a@[i as int]));
        assert(b@.take(i + 1) == b@.take(i as int).push(b@[i as int]));
        i = i + 1;
    }
    assert(a@.take(n as int) == a@);
    assert(b@.take(n as int) == b@);
    true
}

/// Whether two texts are equal.
pub fn text_eq(a: &str, b: &str) -> (r: bool)
    ensures
        r == (a@ == b@),
{
    proof {
        lemma_encode_injective(a@, b@);
    }
    bytes_eq(a.as_bytes(), b.as_bytes())
}

/// Whether a character is white space.
pub fn space(c: char) -> (r: bool)
    ensures
        r == is_space(c),
{
    let u: u32 = c as u32;
    (0x9 <= u && u <= 0xd) || u == 0x20 || u == 0x85 || u == 0xa0 || u == 0x1680 || (0x2000 <= u
        && u <= 0x200a) || u == 0x2028 || u == 0x2029 || u == 0x202f || u == 0x205f || u == 0x3000
}

/// Every character of a trimmed text's inside is kept: trimming takes white
/// space from the two ends only.
proof fn lemma_trim_start(s: Seq<char>, i: int)
    requires
        0 <= i <= s.len(),
        forall|k: int| 0 <= k < i ==> is_space(s[k]),
        i == s.len() || !is_space(s[i]),
    ensures
        trim_start(s) == s.skip(i),
    decreases i,
{
    if i > 0 {
        let t = s.drop_first();
        assert forall|k: int| 0 <= k < i - 1 implies is_space(t[k]) by {
            assert(t[k] == s[k + 1]);
        }
        lemma_trim_start(t, i - 1);
        assert(t.skip(i - 1) == s.skip(i));
    } else {
        assert(s.skip(0) == s);
    }
}

proof fn lemma_trim_end(s: Seq<char>, j: int)
    requires
        0 <= j <= s.len(),
        forall|k: int| j <= k < s.len() ==> is_space(s[k]),
        j == 0 || !is_space(s[j - 1]),
    ensures
        trim_end(s) == s.take(j),
    decreases s.len() - j,
{
    if j < s.len() {
        let t = s.drop_last();
        lemma_trim_end(t, j);
        assert(t.take(j) == s.take(j));
    } else {
        assert(s.take(j) == s);
    }
}

/// The characters without the white space around them.
pub fn trim_chars(v: &[char]) -> (r: Vec<char>)
    ensures
        r@ == trimmed(v@),
{
    let n = v.len();
    let mut i: usize = 0;
    while i < n && space(v[i])
        invariant
            i <= n,
            n == v@.len(),
            forall|k: int| 0 <= k < i ==> is_space(v@[k]),
        decreases n - i,
    {
        i = i + 1;
    }
    let mut j: usize = n;
    while j > i && space(v[j - 1])
        invariant
            i <= j <= n,
            n == v@.len(),
            forall|k: int| j <= k < n ==> is_space(v@[k]),
        decreases j,
    {
        j = j - 1;
    }
    proof {
        lemma_trim_start(v@, i as int);
        let t = v@.skip(i as int);
        assert forall|k: int| j - i <= k < t.len() implies is_space(t[k]) by {
            assert(t[k] == v@[k + i]);
        }
        if j > i {
            assert(t[j - i - 1] == v@[j - 1]);
        }
        lemma_trim_end(t, j - i);
        assert(t.take(j - i) == v@.subrange(i as int, j as int));
    }
    vstd::slice::slice_to_vec(vstd::slice::slice_subrange(v, i, j))
}

/// The text without the white space around it.
pub fn trim(s: &str) -> (r: String)
    ensures
        r@ == trimmed(s@),
{
    let v = chars_of(s);
    let t = trim_chars(v.as_slice());
    string_of(t.as_slice())
}

/// Whether a character occurs in the text.
pub fn contains_char(s: &str, c: char) -> (r: bool)
    ensures
        r == s@.contains(c),
{
    let v = chars_of(s);
    let n = v.len();
    let mut i: usize = 0;
    while i < n
        invariant
            i <= n,
            n == v@.len(),
            v@ == s@,
            forall|k: int| 0 <= k < i ==> v@[k] != c,
        decreases n - i,
    {
        if v[i] == c {
            return true;
        }
        i = i + 1;
    }
    false
}

/// Whether the characters start with others.
pub fn chars_start_with(v: &[char], prefix: &[char]) -> (r: bool)
    ensures
        r == prefix@.is_prefix_of(v@),
{
    if prefix.len() > v.len() {
        return false;
    }
    let n = prefix.len();
    let mut i: usize = 0;
    while i < n
        invariant
            i <= n,
            n == prefix@.len(),
            n <= v@.len(),
            forall|k: int| 0 <= k < i ==> v@[k] == prefix@[k],
        decreases n - i,
    {
        if v[i] != prefix[i] {
            assert(v@.take(n as int)[i as int] != prefix@[i as int]);
            return false;
        }
        i = i + 1;
    }
    assert(v@.take(n as int) == prefix@);
    true
}

/// Whether the text starts with another.
pub fn starts_with(s: &str, prefix: &str) -> (r: bool)
    ensures
        r == prefix@.is_prefix_of(s@),
{
    let v = chars_of(s);
    let p = chars_of(prefix);
    chars_start_with(v.as_slice(), p.as_slice())
}

/// Whether the text ends with another.
pub fn ends_with(s: &str, suffix: &str) -> (r: bool)
    ensures
        r == suffix@.is_suffix_of(s@),
{
    let v = chars_of(s);
    let p = chars_of(suffix);
    if p.len() > v.len() {
        return false;
    }
    let d = v.len() - p.len();
    let n = p.len();
    let mut i: usize = 0;
    while i < n
        invariant
            i <= n,
            n == p@.len(),
            d + n == v.len(),
            v@ == s@,
            p@ == suffix@,
            forall|k: int| 0 <= k < i ==> v@[d + k] == p@[k],
        decreases n - i,
    {
        if v[d + i] != p[i] {
            assert(v@.subrange(d as int, v@.len() as int)[i as int] != p@[i as int]);
            return false;
        }
        i = i + 1;
    }
    assert(v@.subrange(d as int, v@.len() as int) == p@);
    true
}

/// Two texts one after the other.
pub fn concat(a: &str, b: &str) -> (r: String)
    ensures
        r@ == a@ + b@,
{
    let mut r = a.to_owned();
    r.append(b);
    r
}

/// Three texts one after the other.
pub fn concat3(a: &str, b: &str, c: &str) -> (r: String)
    ensures
        r@ == a@ + b@ + c@,
{
    let mut r = a.to_owned();
    r.append(b);
    r.append(c);
    r
}

fn upper_char(c: char) -> (r: char)
    ensures
        r == ascii_upper(c),
{
    if 'a' as u32 <= c as u32 && c as u32 <= 'z' as u32 {
        ((c as u8) - 32) as char
    } else {
        c
    }
}

/// The text with its ASCII letters in upper case.
pub fn to_upper(s: &str) -> (r: String)
    ensures
        r@ == upper_text(s@),
{
    let v = chars_of(s);
    let mut r = String::new();
    let n = v.len();
    let mut i: usize = 0;
    while i < n
        invariant
            i <= n,
            n == v@.len(),
            v@ == s@,
            r@ == upper_text(s@).take(i as int),
        decreases n - i,
    {
        r.push(upper_char(v[i]));
        assert(upper_text(s@).take(i + 1) == upper_text(s@).take(i as int).push(ascii_upper(v@[i as int])));
        i = i + 1;
    }
    assert(upper_text(s@).take(n as int) == upper_text(s@));
    r
}

fn lower_char(c: char) -> (r: char)
    ensures
        r == ascii_lower(c),
{
    if 'A' as u32 <= c as u32 && c as u32 <= 'Z' as u32 {
        ((c as u8) + 32) as char
    } else {
        c
    }
}

/// The text with its ASCII letters in lower case.
pub fn to_lower(s: &str) -> (r: String)
    ensures
        r@ == lower_text(s@),
{
    let v = chars_of(s);
    let mut r = String::new();
    let n = v.len();
    let mut i: usize = 0;
    while i < n
        invariant
            i <= n,
            n == v@.len(),
            v@ == s@,
            r@ == lower_text(s@).take(i as int),
        decreases n - i,
    {
        r.push(lower_char(v[i]));
        assert(lower_text(s@).take(i + 1) == lower_text(s@).take(i as int).push(ascii_lower(v@[i as int])));
        i = i + 1;
    }
    assert(lower_text(s@).take(n as int) == lower_text(s@));
    r
}

/// The lines of a text.
pub fn split_lines(s: &str) -> (r: Vec<String>)
    ensures
        r.deep_view() == lines(s@),
{
    let v = chars_of(s);
    let n = v.len();
    let mut r: Vec<String> = Vec::new();
    let mut start: usize = 0;
    assert(v@.skip(0) == v@);
    while start < n
        invariant
            start <= n,
            n == v@.len(),
            v@ == s@,
            lines(s@) == r.deep_view() + lines(v@.skip(start as int)),
        decreases n - start,
    {
        let ghost rest = v@.skip(start as int);
        let mut end: usize = start;
        while end < n && v[end] != '\n'
            invariant
                start <= end <= n,
                n == v@.len(),
                rest == v@.skip(start as int),
                line_end(rest, 0) == line_end(rest, end - start),
            decreases n - end,
        {
            assert(rest[end - start] == v@[end as int]);
            end = end + 1;
        }
        let ghost before = r.deep_view();
        if end == n {
            r.push(string_of(vstd::slice::slice_subrange(v.as_slice(), start, n)));
            proof {
                assert(line_end(rest, 0) == rest.len());
                assert(v@.subrange(start as int, n as int) == rest);
                assert(r.deep_view() == before.push(rest));
                assert(lines(rest) == seq![rest]);
                assert(v@.skip(n as int).len() == 0);
                assert(lines(v@.skip(n as int)) == Seq::<Seq<char>>::empty());
                assert(lines(s@) == r.deep_view() + lines(v@.skip(n as int)));
            }
            start = n;
        } else {
            assert(rest[end - start] == '\n');
            assert(line_end(rest, 0) == end - start);
            let stop: usize = if end > start && v[end - 1] == '\r' {
                end - 1
            } else {
                end
            };
            r.push(string_of(vstd::slice::slice_subrange(v.as_slice(), start, stop)));
            proof {
                let line = rest.take(end - start);
                assert(line == v@.subrange(start as int, end as int));
                if end > start {
                    assert(line.last() == v@[end - 1]);
                    assert(line.drop_last() == v@.subrange(start as int, end - 1));
                }
                assert(without_return(line) == v@.subrange(start as int, stop as int));
                assert(r.deep_view() == before.push(without_return(line)));
                assert(rest.skip(end - start + 1) == v@.skip(end + 1));
                assert(lines(rest) == seq![without_return(line)] + lines(v@.skip(end + 1)));
                assert(lines(s@) == r.deep_view() + lines(v@.skip(end + 1)));
            }
            start = end + 1;
        }
    }
    assert(v@.skip(n as int).len() == 0);
    assert(lines(v@.skip(n as int)) == Seq::<Seq<char>>::empty());
    assert(r.deep_view() + Seq::<Seq<char>>::empty() == r.deep_view());
    r
}

/// The position after the white space that starts at `from`.
fn skip_space(v: &[char], from: usize) -> (i: usize)
    requires
        from <= v@.len(),
    ensures
        from <= i <= v@.len(),
        trim_start(v@.skip(from as int)) == v@.skip(i as int),
{
    let n = v.len();
    let mut i: usize = from;
    while i < n && space(v[i])
        invariant
            from <= i <= n,
            n == v@.len(),
            forall|k: int| from <= k < i ==> is_space(v@[k]),
        decreases n - i,
    {
        i = i + 1;
    }
    proof {
        let t = v@.skip(from as int);
        assert forall|k: int| 0 <= k < i - from implies is_space(t[k]) by {
            assert(t[k] == v@[k + from]);
        }
        if i < n {
            assert(t[i - from] == v@[i as int]);
        }
        lemma_trim_start(t, i - from);
        assert(t.skip(i - from) == v@.skip(i as int));
    }
    i
}

/// The first word of a text and what follows it.
pub fn split_word(s: &str) -> (r: Option<(String, String)>)
    ensures
        r is Some <==> first_word(s@) is Some,
        r matches Some((word, rest)) ==> word@ == first_word(s@)->0 && rest@ == after_first_word(
            s@,
        ),
{
    let v = chars_of(s);
    let n = v.len();
    assert(v@.skip(0) == v@);
    let start = skip_space(v.as_slice(), 0);
    if start == n {
        return None;
    }
    let ghost rest = v@.skip(start as int);
    let mut end: usize = start;
    while end < n && !space(v[end])
        invariant
            start <= end <= n,
            n == v@.len(),
            rest == v@.skip(start as int),
            word_end(rest, 0) == word_end(rest, end - start),
        decreases n - end,
    {
        assert(rest[end - start] == v@[end as int]);
        end = end + 1;
    }
    proof {
        if end < n {
            assert(rest[end - start] == v@[end as int]);
        }
        assert(word_end(rest, 0) == end - start);
        assert(rest.take(end - start) == v@.subrange(start as int, end as int));
        assert(rest.skip(end - start) == v@.subrange(end as int, n as int));
    }
    let word = string_of(vstd::slice::slice_subrange(v.as_slice(), start, end));
    let after = string_of(vstd::slice::slice_subrange(v.as_slice(), end, n));
    Some((word, after))
}

/// The text without the characters `c` that it starts with.
pub fn trim_leading(s: &str, c: char) -> (r: String)
    ensures
        r@ == without_leading(s@, c),
{
    let v = chars_of(s);
    let n = v.len();
    let mut i: usize = 0;
    assert(v@.skip(0) == v@);
    while i < n && v[i] == c
        invariant
            i <= n,
            n == v@.len(),
            v@ == s@,
            without_leading(s@, c) == without_leading(v@.skip(i as int), c),
        decreases n - i,
    {
        assert(v@.skip(i as int)[0] == v@[i as int]);
        assert(v@.skip(i as int).drop_first() == v@.skip(i + 1));
        i = i + 1;
    }
    proof {
        if i < n {
            assert(v@.skip(i as int)[0] == v@[i as int]);
        }
        assert(v@.skip(i as int) == v@.subrange(i as int, n as int));
    }
    string_of(vstd::slice::slice_subrange(v.as_slice(), i, n))
}

fn digit_char(n: u8) -> (c: char)
    requires
        n < 10,
    ensures
        c == digit(n as nat),
{
    (48 + n) as char
}

/// A number in decimal notation.
pub fn decimal_text(n: u128) -> (r: String)
    ensures
        r@ == decimal(n as nat),
    decreases n,
{
    if n < 10 {
        let mut r = String::new();
        r.push(digit_char(n as u8));
        assert(r@ == seq![digit(n as nat)]);
        r
    } else {
        let mut r = decimal_text(n / 10);
        r.push(digit_char((n % 10) as u8));
        r
    }
}

fn digit_of(c: char) -> (d: Option<u8>)
    ensures
        d is Some <==> is_digit(c),
        d matches Some(v) ==> v < 10 && v == c as u32 - '0' as u32,
{
    if '0' as u32 <= c as u32 && c as u32 <= '9' as u32 {
        Some(c as u8 - 48)
    } else {
        None
    }
}

/// The number that a text denotes, where it is at most `max`.
pub fn parse_unsigned(s: &str, max: u64) -> (r: Option<u64>)
    ensures
        r == (match unsigned_value(s@) {
            Some(value) => if value <= max {
                Some(value as u64)
            } else {
                None::<u64>
            },
            None => None::<u64>,
        }),
{
    let v = chars_of(s);
    let n = v.len();
    let start: usize = if n > 0 && v[0] == '+' {
        1
    } else {
        0
    };
    let ghost digits = v@.skip(start as int);
    proof {
        if start == 1 {
            assert(digits == s@.drop_first());
        } else {
            assert(digits == s@);
        }
    }
    if start == n {
        return None;
    }
    let mut value: u64 = 0;
    let mut over = false;
    let mut i: usize = start;
    assert(digits.take(0) == Seq::<char>::empty());
    while i < n
        invariant
            start <= i <= n,
            n == v@.len(),
            digits == v@.skip(start as int),
            digits.len() == n - start,
            v@ == s@,
            unsigned_value(s@) == (if digits.len() > 0 && all_digits(digits) {
                Some(digits_value(digits))
            } else {
                None::<nat>
            }),
            forall|k: int| 0 <= k < i - start ==> is_digit(#[trigger] digits[k]),
            !over ==> value == digits_value(digits.take(i - start)) && value <= max,
            over ==> digits_value(digits.take(i - start)) > max,
        decreases n - i,
    {
        assert(digits[i - start] == v@[i as int]);
        let ghost now = digits.take(i - start);
        let ghost next = digits.take(i - start + 1);
        assert(next.drop_last() == now);
        assert(next.last() == digits[i - start]);
        match digit_of(v[i]) {
            None => {
                return None;
            },
            Some(d) => {
                assert(digits_value(next) == digits_value(now) * 10 + d);
                if !over {
                    let wide: u128 = (value as u128) * 10 + (d as u128);
                    if wide > max as u128 {
                        over = true;
                    } else {
                        value = wide as u64;
                    }
                }
            },
        }
        i = i + 1;
    }
    assert(digits.take(n - start) == digits);
    if over {
        None
    } else {
        Some(value)
    }
}

fn hex_char(n: u8) -> (c: char)
    requires
        n < 16,
    ensures
        c == hex_digit(n as int),
{
    if n < 10 {
        (48 + n) as char
    } else {
        (97 + (n - 10)) as char
    }
}

/// Bytes in lower-case hexadecimal notation.
pub fn hex_text(bytes: &[u8]) -> (r: String)
    ensures
        r@ == hex(bytes@),
{
    let mut r = String::new();
    let n = bytes.len();
    let mut i: usize = 0;
    while i < n
        invariant
            i <= n,
            n == bytes@.len(),
            r@ == hex(bytes@.take(i as int)),
        decreases n - i,
    {
        let b = bytes[i];
        r.push(hex_char(b / 16));
        r.push(hex_char(b % 16));
        proof {
            let now = bytes@.take(i as int);
            let next = bytes@.take(i + 1);
            assert forall|k: int| 0 <= k < 2 * (i + 1) implies r@[k] == hex(next)[k] by {
                if k < 2 * i {
                    assert(r@[k] == hex(now)[k]);
                    assert(now[k / 2] == next[k / 2]);
                }
            }
            assert(r@ == hex(next));
        }
        i = i + 1;
    }
    assert(bytes@.take(n as int) == bytes@);
    r
}

/// The longest beginning of a text whose encoding has at most `max` bytes.
pub open spec fn fitted(s: Seq<char>, max: int) -> Seq<char>
    decreases s.len(),
{
    if s.len() == 0 || utf8::encode_utf8(s).len() <= max {
        s
    } else {
        fitted(s.drop_last(), max)
    }
}

/// A character adds the bytes of its own encoding.
proof fn lemma_encoded_last(s: Seq<char>)
    requires
        s.len() > 0,
    ensures
        utf8::encode_utf8(s).len() == utf8::encode_utf8(s.drop_last()).len() + utf8::encode_scalar(
            s.last() as u32,
        ).len(),
    decreases s.len(),
{
    reveal_with_fuel(utf8::encode_utf8, 2);
    if s.len() > 1 {
        let rest = s.drop_first();
        lemma_encoded_last(rest);
        assert(rest.drop_last() == s.drop_last().drop_first());
    }
}

/// The number of bytes of a character's encoding.
fn width(c: char) -> (n: usize)
    ensures
        n == utf8::encode_scalar(c as u32).len(),
{
    let u: u32 = c as u32;
    if u <= 0x7F {
        1
    } else if u <= 0x7FF {
        2
    } else if u <= 0xFFFF {
        proof {
            utf8::char_is_scalar(c);
        }
        3
    } else {
        4
    }
}

/// Drops characters from the end of a text until its encoding has at most
/// `max` bytes.
pub fn fit(s: String, max: usize) -> (r: String)
    ensures
        r@ == fitted(s@, max as int),
        utf8::encode_utf8(r@).len() <= max,
        utf8::encode_utf8(s@).len() <= max ==> r@ == s@,
{
    let mut size = s.as_str().as_bytes().len();
    if size <= max {
        return s;
    }
    let mut chars = chars_of(s.as_str());
    while size > max
        invariant
            size == utf8::encode_utf8(chars@).len(),
            fitted(chars@, max as int) == fitted(s@, max as int),
        decreases chars.len(),
    {
        proof {
            if chars@.len() == 0 {
                assert(utf8::encode_utf8(chars@).len() == 0);
            }
            lemma_encoded_last(chars@);
        }
        let ghost before = chars@;
        if let Some(c) = chars.pop() {
            assert(chars@ == before.drop_last());
            size = size - width(c);
        }
    }
    string_of(chars.as_slice())
}

/// Which characters are white space: the space and the controls from the tab
/// to the carriage return, and outside ASCII the next line control, the
/// no-break spaces, the typographic spaces and the separators.
pub proof fn law_white_space(c: char)
    ensures
        c as u32 <= 0x7f ==> (is_space(c) <==> c == ' ' || c == '\t' || c == '\n' || c as u32
            == 0xb || c as u32 == 0xc || c == '\r'),
        c as u32 > 0x7f ==> (is_space(c) <==> seq![
            0x85u32,
            0xa0,
            0x1680,
            0x2028,
            0x2029,
            0x202f,
            0x205f,
            0x3000,
        ].contains(c as u32) || 0x2000 <= c as u32 <= 0x200a),
{
    let others = seq![0x85u32, 0xa0, 0x1680, 0x2028, 0x2029, 0x202f, 0x205f, 0x3000];
    assert(others[0] == 0x85 && others[1] == 0xa0 && others[2] == 0x1680 && others[3] == 0x2028);
    assert(others[4] == 0x2029 && others[5] == 0x202f && others[6] == 0x205f && others[7]
        == 0x3000);
}

proof fn lemma_space_before(a: Seq<char>, s: Seq<char>)
    requires
        forall|i: int| 0 <= i < a.len() ==> is_space(#[trigger] a[i]),
        s.len() > 0 ==> !is_space(s[0]),
    ensures
        trim_start(a + s) == s,
    decreases a.len(),
{
    let all = a + s;
    if a.len() == 0 {
        assert(all == s);
    } else {
        assert(all[0] == a[0]);
        let rest = a.drop_first();
        assert forall|i: int| 0 <= i < rest.len() implies is_space(#[trigger] rest[i]) by {
            assert(rest[i] == a[i + 1]);
        }
        lemma_space_before(rest, s);
        assert(all.drop_first() == rest + s);
    }
}

proof fn lemma_space_behind(s: Seq<char>, b: Seq<char>)
    requires
        forall|i: int| 0 <= i < b.len() ==> is_space(#[trigger] b[i]),
        s.len() > 0 ==> !is_space(s.last()),
    ensures
        trim_end(s + b) == s,
    decreases b.len(),
{
    let all = s + b;
    if b.len() == 0 {
        assert(all == s);
    } else {
        assert(all.last() == b[b.len() - 1]);
        let rest = b.drop_last();
        assert forall|i: int| 0 <= i < rest.len() implies is_space(#[trigger] rest[i]) by {
            assert(rest[i] == b[i]);
        }
        lemma_space_behind(s, rest);
        assert(all.drop_last() == s + rest);
    }
}

/// White space around a text, and nothing else, is trimmed.
pub proof fn law_trimming_takes_white_space_only(a: Seq<char>, t: Seq<char>, b: Seq<char>)
    requires
        forall|i: int| 0 <= i < a.len() ==> is_space(#[trigger] a[i]),
        forall|i: int| 0 <= i < b.len() ==> is_space(#[trigger] b[i]),
        t.len() > 0 ==> !is_space(t[0]) && !is_space(t.last()),
    ensures
        trimmed(a + t + b) == t,
{
    if t.len() == 0 {
        let all = a + t + b;
        assert forall|i: int| 0 <= i < all.len() implies is_space(#[trigger] all[i]) by {
            if i < a.len() {
                assert(all[i] == a[i]);
            } else {
                assert(all[i] == b[i - a.len()]);
            }
        }
        lemma_space_before(all, t);
        assert(all + t == all);
        assert(trim_end(t) == t);
    } else {
        assert(a + t + b == a + (t + b));
        assert((t + b)[0] == t[0]);
        lemma_space_before(a, t + b);
        lemma_space_behind(t, b);
    }
}

proof fn lemma_word_end(w: Seq<char>, rest: Seq<char>, i: int)
    requires
        forall|k: int| 0 <= k < w.len() ==> !is_space(#[trigger] w[k]),
        rest.len() > 0 ==> is_space(rest[0]),
        0 <= i <= w.len(),
    ensures
        word_end(w + rest, i) == w.len(),
    decreases w.len() - i,
{
    let all = w + rest;
    if i < w.len() {
        assert(all[i] == w[i]);
        lemma_word_end(w, rest, i + 1);
    } else if rest.len() > 0 {
        assert(all[i] == rest[0]);
    }
}

/// The first word of a text is what stands behind its leading white space, up
/// to the next.
pub proof fn law_first_word(a: Seq<char>, w: Seq<char>, rest: Seq<char>)
    requires
        forall|i: int| 0 <= i < a.len() ==> is_space(#[trigger] a[i]),
        forall|k: int| 0 <= k < w.len() ==> !is_space(#[trigger] w[k]),
        rest.len() > 0 ==> is_space(rest[0]),
    ensures
        w.len() > 0 ==> first_word(a + w + rest) == Some(w),
        w.len() > 0 ==> after_first_word(a + w + rest) == rest,
        first_word(a) is None,
{
    lemma_space_before(a, seq![]);
    assert(a + Seq::<char>::empty() == a);
    if w.len() > 0 {
        let s = w + rest;
        assert(a + w + rest == a + s);
        assert(s[0] == w[0]);
        lemma_space_before(a, s);
        lemma_word_end(w, rest, 0);
        assert(s.take(w.len() as int) == w);
        assert(s.skip(w.len() as int) == rest);
    }
}

/// A number in decimal notation denotes that number, also behind a plus sign,
/// and starts with no zero unless it is one.
pub proof fn law_decimal_is_read_back(n: nat)
    ensures
        unsigned_value(decimal(n)) == Some(n),
        unsigned_value(seq!['+'] + decimal(n)) == Some(n),
        all_digits(decimal(n)),
        n > 0 ==> decimal(n)[0] != '0',
        decimal(0) == seq!['0'],
{
    lemma_decimal(n);
    let d = decimal(n);
    assert(is_digit(d[0]));
    assert((seq!['+'] + d).drop_first() == d);
}

proof fn lemma_decimal(n: nat)
    ensures
        decimal(n).len() > 0,
        all_digits(decimal(n)),
        digits_value(decimal(n)) == n,
        n > 0 ==> decimal(n)[0] != '0',
    decreases n,
{
    let d = decimal(n);
    if n < 10 {
        assert(d.drop_last() == Seq::<char>::empty());
        assert(digits_value(d.drop_last()) == 0);
        assert(digit(n) as u32 == 48 + n);
    } else {
        lemma_decimal(n / 10);
        let front = decimal(n / 10);
        assert(d.drop_last() == front);
        assert(digit(n % 10) as u32 == 48 + n % 10);
        assert(d[0] == front[0]);
        assert forall|i: int| 0 <= i < d.len() implies is_digit(#[trigger] d[i]) by {
            if i < front.len() {
                assert(d[i] == front[i]);
            }
        }
    }
}

/// A text with anything but digits behind an optional plus sign, or with no
/// digit, denotes no number.
pub proof fn law_other_texts_denote_no_number(s: Seq<char>, k: int)
    requires
        s.len() == 0 || s == seq!['+'] || 0 <= k < s.len() && !('0' as u32 <= s[k] as u32
            <= '9' as u32) && (k > 0 || s[k] != '+'),
    ensures
        unsigned_value(s) is None,
{
    if s.len() > 0 && s[0] == '+' {
        let rest = s.drop_first();
        if s != seq!['+'] && k > 0 {
            assert(rest[k - 1] == s[k]);
            assert(!is_digit(rest[k - 1]));
        } else if s == seq!['+'] {
            assert(rest.len() == 0);
        }
    } else if s.len() > 0 {
        assert(!is_digit(s[k]));
    }
}

/// Changing the case of ASCII letters changes nothing else: a letter becomes
/// the other form of the same letter, and any other character stays.
pub proof fn law_case_of_letters(s: Seq<char>)
    ensures
        upper_text(s).len() == s.len(),
        lower_text(s).len() == s.len(),
        forall|i: int|
            0 <= i < s.len() ==> {
                let c = (#[trigger] s[i]) as u32;
                let u = upper_text(s)[i] as u32;
                let l = lower_text(s)[i] as u32;
                &&& 0x61 <= c <= 0x7a ==> u + 32 == c && l == c
                &&& 0x41 <= c <= 0x5a ==> u == c && l == c + 32
                &&& !(0x61 <= c <= 0x7a) && !(0x41 <= c <= 0x5a) ==> u == c && l == c
            },
{
}

/// The beginning of a text that fits is one, and the longest one.
pub proof fn law_fitted_is_the_longest_that_fits(s: Seq<char>, max: int)
    requires
        0 <= max,
    ensures
        fitted(s, max).len() <= s.len(),
        fitted(s, max) == s.take(fitted(s, max).len() as int),
        utf8::encode_utf8(fitted(s, max)).len() <= max,
        fitted(s, max).len() < s.len() ==> utf8::encode_utf8(
            s.take(fitted(s, max).len() as int + 1),
        ).len() > max,
    decreases s.len(),
{
    if s.len() == 0 || utf8::encode_utf8(s).len() <= max {
        assert(s == s.take(s.len() as int));
        if s.len() == 0 {
            assert(utf8::encode_utf8(s).len() == 0);
        }
    } else {
        let t = s.drop_last();
        law_fitted_is_the_longest_that_fits(t, max);
        let k = fitted(t, max).len() as int;
        assert(t.take(k) == s.take(k));
        if k < t.len() {
            assert(t.take(k + 1) == s.take(k + 1));
        } else {
            assert(s.take(k + 1) == s);
        }
    }
}

/// What is left of a text without leading characters of a kind starts with
/// none of them, and they are all that is missing.
pub proof fn law_without_leading(stars: Seq<char>, bare: Seq<char>, c: char)
    requires
        forall|i: int| 0 <= i < stars.len() ==> #[trigger] stars[i] == c,
        bare.len() > 0 ==> bare[0] != c,
    ensures
        without_leading(stars + bare, c) == bare,
    decreases stars.len(),
{
    let all = stars + bare;
    if stars.len() == 0 {
        assert(all == bare);
    } else {
        let rest = stars.drop_first();
        assert(all[0] == stars[0]);
        assert forall|i: int| 0 <= i < rest.len() implies #[trigger] rest[i] == c by {
            assert(rest[i] == stars[i + 1]);
        }
        law_without_leading(rest, bare, c);
        assert(all.drop_first() == rest + bare);
    }
}

/// The lines of a text are what stands between its line feeds: a line in front
/// of the others, with or without a carriage return at its end, is the first of
/// them.
pub proof fn law_lines_stand_between_line_feeds(first: Seq<char>, rest: Seq<char>)
    requires
        !first.contains('\n'),
    ensures
        (first.len() == 0 || first.last() != '\r') ==> lines(first.push('\n') + rest) == seq![first]
            + lines(rest),
        lines(first.push('\r').push('\n') + rest) == seq![first] + lines(rest),
        first.len() > 0 ==> lines(first) == seq![first],
        lines(Seq::<char>::empty()) == Seq::<Seq<char>>::empty(),
{
    lemma_line_end_at(first, 0);
    lemma_first_line(first, rest);
    let longer = first.push('\r');
    assert(!longer.contains('\n')) by {
        if longer.contains('\n') {
            let i = choose|i: int| 0 <= i < longer.len() && longer[i] == '\n';
            assert(first[i] == '\n');
        }
    }
    lemma_first_line(longer, rest);
    assert(longer.drop_last() == first);
}

proof fn lemma_line_end_at(s: Seq<char>, from: int)
    requires
        !s.contains('\n'),
        0 <= from <= s.len(),
    ensures
        line_end(s, from) == s.len(),
{
    lemma_line_end(s, from);
}

proof fn lemma_first_line(first: Seq<char>, rest: Seq<char>)
    requires
        !first.contains('\n'),
    ensures
        lines(first.push('\n') + rest) == seq![without_return(first)] + lines(rest),
{
    let s = first.push('\n') + rest;
    let n = first.len() as int;
    lemma_line_end(s, 0);
    assert(s[n] == '\n');
    assert forall|i: int| 0 <= i < n implies s[i] != '\n' by {
        assert(s[i] == first[i]);
    }
    assert(line_end(s, 0) == n);
    assert(s.take(n) == first);
    assert(s.skip(n + 1) == rest);
}

/// A text has a first word unless it is white space: white space, the word and
/// what is left, in this order, are the text.
pub proof fn law_words_make_up_a_text(s: Seq<char>)
    ensures
        first_word(s) matches Some(w) ==> {
            let a = s.take(s.len() - w.len() - after_first_word(s).len());
            &&& s == a + w + after_first_word(s)
            &&& forall|i: int| 0 <= i < a.len() ==> is_space(#[trigger] a[i])
            &&& w.len() > 0
            &&& forall|k: int| 0 <= k < w.len() ==> !is_space(#[trigger] w[k])
            &&& after_first_word(s).len() > 0 ==> is_space(after_first_word(s)[0])
        },
        first_word(s) is None ==> forall|i: int| 0 <= i < s.len() ==> is_space(#[trigger] s[i]),
{
    lemma_trimmed_front(s);
    let t = trim_start(s);
    if t.len() > 0 {
        lemma_word_runs(t, 0);
        let e = word_end(t, 0);
        let w = t.take(e);
        let a = s.take(s.len() - t.len());
        assert(t == w + t.skip(e));
        assert(s == a + w + t.skip(e));
    }
}

proof fn lemma_trimmed_front(s: Seq<char>)
    ensures
        trim_start(s).len() <= s.len(),
        trim_start(s) == s.skip(s.len() - trim_start(s).len()),
        forall|i: int| 0 <= i < s.len() - trim_start(s).len() ==> is_space(#[trigger] s[i]),
        trim_start(s).len() > 0 ==> !is_space(trim_start(s)[0]),
    decreases s.len(),
{
    if s.len() > 0 && is_space(s[0]) {
        let rest = s.drop_first();
        lemma_trimmed_front(rest);
        assert(trim_start(s) == trim_start(rest));
        assert forall|i: int| 0 <= i < s.len() - trim_start(s).len() implies is_space(
            #[trigger] s[i],
        ) by {
            if i > 0 {
                assert(rest[i - 1] == s[i]);
            }
        }
        assert(rest.skip(rest.len() - trim_start(s).len()) == s.skip(
            s.len() - trim_start(s).len(),
        ));
    } else {
        assert(s.skip(0) == s);
    }
}

proof fn lemma_word_runs(s: Seq<char>, from: int)
    requires
        0 <= from <= s.len(),
    ensures
        from <= word_end(s, from) <= s.len(),
        forall|i: int| from <= i < word_end(s, from) ==> !is_space(#[trigger] s[i]),
        word_end(s, from) < s.len() ==> is_space(s[word_end(s, from)]),
    decreases s.len() - from,
{
    if from < s.len() && !is_space(s[from]) {
        lemma_word_runs(s, from + 1);
    }
}

/// Zeros in front of a number do not change it.
pub proof fn law_leading_zeros_count_for_nothing(n: nat)
    ensures
        unsigned_value(seq!['0'] + decimal(n)) == Some(n),
{
    lemma_decimal(n);
    let d = decimal(n);
    let s = seq!['0'] + d;
    lemma_leading_zero(d);
    assert forall|i: int| 0 <= i < s.len() implies is_digit(#[trigger] s[i]) by {
        if i > 0 {
            assert(s[i] == d[i - 1]);
        }
    }
}

proof fn lemma_leading_zero(d: Seq<char>)
    ensures
        digits_value(seq!['0'] + d) == digits_value(d),
    decreases d.len(),
{
    let s = seq!['0'] + d;
    if d.len() == 0 {
        assert(s.drop_last() == Seq::<char>::empty());
        assert(digits_value(s.drop_last()) == 0);
    } else {
        lemma_leading_zero(d.drop_last());
        assert(s.drop_last() == seq!['0'] + d.drop_last());
    }
}

/// Each byte is written as two hexadecimal digits in lower case, the higher one
/// first.
pub proof fn law_hex_writes_two_digits_a_byte(bytes: Seq<u8>, i: int)
    requires
        0 <= i < bytes.len(),
    ensures
        hex(bytes).len() == 2 * bytes.len(),
        ({
            let high = bytes[i] as int / 16;
            let low = bytes[i] as int % 16;
            &&& hex(bytes)[2 * i] as int == if high < 10 { 0x30 + high } else { 0x57 + high }
            &&& hex(bytes)[2 * i + 1] as int == if low < 10 { 0x30 + low } else { 0x57 + low }
        }),
{
    let high = bytes[i] as int / 16;
    let low = bytes[i] as int % 16;
    assert((2 * i) % 2 == 0 && (2 * i) / 2 == i);
    assert((2 * i + 1) % 2 == 1 && (2 * i + 1) / 2 == i);
    assert(hex(bytes)[2 * i] == hex_digit(high));
    assert(hex(bytes)[2 * i + 1] == hex_digit(low));
}

/// Trimming leaves everything from the first to the last character that is not
/// white space.
pub proof fn law_trimming_keeps_the_rest(s: Seq<char>, k: int)
    requires
        0 <= k < s.len(),
        !is_space(s[k]),
    ensures
        trimmed(s).contains(s[k]),
        !is_space(trimmed(s)[0]),
        !is_space(trimmed(s).last()),
{
    lemma_trimmed_front(s);
    let t = trim_start(s);
    let skipped = s.len() - t.len();
    assert(t[k - skipped] == s[k]);
    lemma_trimmed_back(t);
    let u = trim_end(t);
    assert(u[k - skipped] == s[k]) by {
        if k - skipped >= u.len() {
            assert(is_space(t[k - skipped]));
        }
    }
    assert(u[0] == t[0]);
}

proof fn lemma_trimmed_back(s: Seq<char>)
    ensures
        trim_end(s).len() <= s.len(),
        trim_end(s) == s.take(trim_end(s).len() as int),
        forall|i: int| trim_end(s).len() <= i < s.len() ==> is_space(#[trigger] s[i]),
        trim_end(s).len() > 0 ==> !is_space(trim_end(s).last()),
    decreases s.len(),
{
    if s.len() > 0 && is_space(s.last()) {
        let front = s.drop_last();
        lemma_trimmed_back(front);
        assert forall|i: int| trim_end(s).len() <= i < s.len() implies is_space(
            #[trigger] s[i],
        ) by {
            if i < front.len() {
                assert(front[i] == s[i]);
            }
        }
        assert(front.take(trim_end(s).len() as int) == s.take(trim_end(s).len() as int));
    } else {
        assert(s.take(s.len() as int) == s);
    }
}

/// A number ends where its digits end: what is read of a number, something that
/// is no digit and a rest determines the number and the rest.
pub proof fn law_numbers_end_with_their_digits(
    a: nat,
    b: nat,
    rest: Seq<char>,
    other: Seq<char>,
    mark: char,
)
    requires
        !('0' as u32 <= mark as u32 <= '9' as u32),
        decimal(a) + seq![mark] + rest == decimal(b) + seq![mark] + other,
    ensures
        a == b,
        rest == other,
{
    law_decimal_is_read_back(a);
    law_decimal_is_read_back(b);
    let x = decimal(a);
    let y = decimal(b);
    let s = x + seq![mark] + rest;
    let t = y + seq![mark] + other;
    assert(s[x.len() as int] == mark);
    assert(t[y.len() as int] == mark);
    if x.len() < y.len() {
        assert(t[x.len() as int] == y[x.len() as int]);
        assert(is_digit(y[x.len() as int]));
    }
    if y.len() < x.len() {
        assert(s[y.len() as int] == x[y.len() as int]);
        assert(is_digit(x[y.len() as int]));
    }
    assert(s.take(x.len() as int) == x);
    assert(t.take(y.len() as int) == y);
    assert(s.skip(x.len() as int + 1) == rest);
    assert(t.skip(y.len() as int + 1) == other);
}

/// A text begins with an ASCII character where its encoding begins with that
/// byte.
pub proof fn law_first_bytes_are_first_characters(s: Seq<char>, c: char)
    requires
        (c as u32) < 0x80,
        s.len() > 0,
    ensures
        utf8::encode_utf8(s).len() > 0,
        utf8::encode_utf8(s)[0] == c as u8 <==> s[0] == c,
{
    let scalar = s[0] as u32;
    utf8::char_is_scalar(s[0]);
    let first = utf8::encode_scalar(scalar);
    assert(utf8::encode_utf8(s) == first + utf8::encode_utf8(s.drop_first()));
    assert(utf8::encode_utf8(s)[0] == first[0]);
    if utf8::has_width_1_encoding(scalar) {
        assert(scalar <= 0x7f ==> (scalar & 0x7F) as u8 == scalar) by (bit_vector);
        utf8::char_u32_cast(s[0], scalar);
        utf8::char_u32_cast(c, c as u32);
    } else {
        let b = first[0];
        assert(0xC0u8 | ((scalar >> 6) & 0x1F) as u8 >= 0xC0) by (bit_vector);
        assert(0xE0u8 | ((scalar >> 12) & 0xF) as u8 >= 0xC0) by (bit_vector);
        assert(0xF0u8 | ((scalar >> 18) & 0x7) as u8 >= 0xC0) by (bit_vector);
        assert(b >= 0xC0);
    }
}

} // verus!

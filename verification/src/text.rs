use vstd::prelude::*;

verus! {

/// Appends one character to a string.
///
/// Trusted: calls `String::push`, whose documentation states that it appends the given
/// `char` to the end of the string; the contract claims exactly that of the view. The
/// call panics only when the string's byte length would pass `isize::MAX`; a `char` takes at
/// most four bytes, so the bound below leaves that out.
#[verifier::external_body]
pub(crate) fn push_char(s: &mut String, c: char)
    requires
        4 * old(s)@.len() + 4 <= isize::MAX,
    ensures
        final(s)@ == old(s)@.push(c),
{
    s.push(c);
}

/// The ASCII digit character for a value below ten.
pub open spec fn digit_char(d: nat) -> char {
    (d + 48) as char
}

/// Decimal notation of a natural number, most significant digit first, no leading zeros.
pub open spec fn decimal_chars(n: nat) -> Seq<char>
    decreases n,
{
    if n < 10 {
        seq![digit_char(n)]
    } else {
        decimal_chars(n / 10).push(digit_char(n % 10))
    }
}

/// Lower-case hexadecimal notation of `n`, padded with zeros to at least `width` digits.
pub open spec fn hex_chars(n: nat, width: nat) -> Seq<char>
    decreases width, n,
{
    if n < 16 && width <= 1 {
        seq![hex_digit(n)]
    } else {
        hex_chars(n / 16, if width > 0 { (width - 1) as nat } else { 0 }).push(hex_digit(n % 16))
    }
}

pub open spec fn hex_digit(d: nat) -> char {
    if d < 10 {
        (d + 48) as char
    } else {
        (d + 87) as char
    }
}

/// The one-character text of a hexadecimal digit (lower case).
pub fn hex_digit_text(d: u8) -> (t: &'static str)
    requires
        d < 16,
    ensures
        t@ == seq![hex_digit(d as nat)],
{
    proof {
        reveal_strlit("0");
        reveal_strlit("1");
        reveal_strlit("2");
        reveal_strlit("3");
        reveal_strlit("4");
        reveal_strlit("5");
        reveal_strlit("6");
        reveal_strlit("7");
        reveal_strlit("8");
        reveal_strlit("9");
        reveal_strlit("a");
        reveal_strlit("b");
        reveal_strlit("c");
        reveal_strlit("d");
        reveal_strlit("e");
        reveal_strlit("f");
    }
    match d {
        0 => "0",
        1 => "1",
        2 => "2",
        3 => "3",
        4 => "4",
        5 => "5",
        6 => "6",
        7 => "7",
        8 => "8",
        9 => "9",
        10 => "a",
        11 => "b",
        12 => "c",
        13 => "d",
        14 => "e",
        _ => "f",
    }
}

/// A string holding the characters of `cs`.
pub fn string_of(cs: &[char]) -> (s: String)
    ensures
        s@ == cs@,
{
    let _bytes = char_slice_bytes(cs);
    let mut s = String::new();
    push_chars(&mut s, cs);
    assert(s@ =~= cs@);
    s
}

/// Characters of a string slice, in order.
pub fn chars_of(s: &str) -> (v: Vec<char>)
    ensures
        v@ == s@,
{
    let mut v: Vec<char> = Vec::new();
    for c in it: s.chars()
        invariant
            v@ == it.seq().take(it.index() as int),
            it.seq() == s@,
    {
        v.push(c);
    }
    v
}

/// Bytes a slice of characters occupies.
///
/// Trusted: calls `std::mem::size_of_val`, which gives the size of the slice in bytes: its
/// length times the four bytes every `char` takes. No slice occupies more than `isize::MAX`
/// bytes.
#[verifier::external_body]
fn char_slice_bytes(cs: &[char]) -> (n: usize)
    ensures
        n == 4 * cs@.len(),
        n <= isize::MAX,
{
    std::mem::size_of_val(cs)
}

/// Appends every character of `cs` to `s`.
pub fn push_chars(s: &mut String, cs: &[char])
    requires
        4 * (old(s)@.len() + cs@.len()) <= isize::MAX,
    ensures
        final(s)@ == old(s)@ + cs@,
{
    let ghost start = s@;
    let mut i: usize = 0;
    while i < cs.len()
        invariant
            i <= cs@.len(),
            s@ == start + cs@.take(i as int),
            4 * (start.len() + cs@.len()) <= isize::MAX,
        decreases cs@.len() - i,
    {
        push_char(s, cs[i]);
        assert(cs@.take(i + 1) =~= cs@.take(i as int).push(cs@[i as int]));
        i = i + 1;
    }
    assert(cs@.take(cs@.len() as int) =~= cs@);
}

/// The characters of a byte string, each byte read as the character with that code.
pub open spec fn bytes_as_chars(b: Seq<u8>) -> Seq<char> {
    b.map_values(|x: u8| x as char)
}

/// Builds a string whose characters are the given bytes read as Latin-1 code points.
pub fn string_from_bytes(b: &[u8]) -> (s: String)
    requires
        4 * b@.len() <= isize::MAX,
    ensures
        s@ == bytes_as_chars(b@),
{
    let mut s = String::new();
    let mut i: usize = 0;
    while i < b.len()
        invariant
            i <= b@.len(),
            s@ == bytes_as_chars(b@.take(i as int)),
            4 * b@.len() <= isize::MAX,
        decreases b@.len() - i,
    {
        push_char(&mut s, b[i] as char);
        assert(bytes_as_chars(b@.take(i + 1)) =~= bytes_as_chars(b@.take(i as int)).push(
            b@[i as int] as char,
        ));
        i = i + 1;
    }
    assert(b@.take(b@.len() as int) =~= b@);
    s
}

/// Appends the decimal text of `n` to `s`.
pub fn push_decimal(s: &mut String, n: u64)
    ensures
        final(s)@ == old(s)@ + decimal_chars(n as nat),
    decreases n,
{
    if n >= 10 {
        push_decimal(s, n / 10);
    }
    let c = ((n % 10) as u8 + 48) as char;
    push_str(s, hex_digit_text((n % 10) as u8));
    proof {
        assert(c == digit_char((n % 10) as nat));
        if n >= 10 {
            assert(decimal_chars(n as nat) == decimal_chars((n / 10) as nat).push(c));
        } else {
            assert(decimal_chars(n as nat) == seq![c]);
        }
        assert(final(s)@ =~= old(s)@ + decimal_chars(n as nat));
    }
}

/// Decimal text of an unsigned number.
pub fn decimal(n: u64) -> (s: String)
    ensures
        s@ == decimal_chars(n as nat),
{
    let mut s = String::new();
    push_decimal(&mut s, n);
    assert(s@ =~= decimal_chars(n as nat));
    s
}

/// Appends a string slice to a string.
pub fn push_str(s: &mut String, t: &str)
    ensures
        final(s)@ == old(s)@ + t@,
{
    s.append(t);
}

/// Whether a character is white space in Unicode's sense (as `char::is_whitespace` has it).
pub open spec fn is_space(c: char) -> bool {
    ||| c == ' ' || c == '\t' || c == '\n' || c == '\r' || c == '\x0B' || c == '\x0C'
    ||| c == '\u{85}' || c == '\u{A0}' || c == '\u{1680}'
    ||| ('\u{2000}' <= c && c <= '\u{200A}')
    ||| c == '\u{2028}' || c == '\u{2029}' || c == '\u{202F}' || c == '\u{205F}' || c == '\u{3000}'
}

pub fn space(c: char) -> (b: bool)
    ensures
        b == is_space(c),
{
    c == ' ' || c == '\t' || c == '\n' || c == '\r' || c == '\x0B' || c == '\x0C' || c == '\u{85}'
        || c == '\u{A0}' || c == '\u{1680}' || ('\u{2000}' <= c && c <= '\u{200A}') || c
        == '\u{2028}' || c == '\u{2029}' || c == '\u{202F}' || c == '\u{205F}' || c == '\u{3000}'
}

/// The text without white space at either end.
/// Where the run of white space that starts at `i` ends.
pub open spec fn skip_spaces(s: Seq<char>, i: int) -> int
    decreases s.len() - i,
{
    if 0 <= i < s.len() && is_space(s[i]) {
        skip_spaces(s, i + 1)
    } else {
        i
    }
}

/// Where the run of white space that ends at `j` starts, going no lower than `a`.
pub open spec fn skip_spaces_back(s: Seq<char>, a: int, j: int) -> int
    decreases j - a,
{
    if j > a && 0 < j <= s.len() && is_space(s[j - 1]) {
        skip_spaces_back(s, a, j - 1)
    } else {
        j
    }
}

/// `s` without white space at its start and end.
pub open spec fn trimmed(s: Seq<char>) -> Seq<char> {
    let a = skip_spaces(s, 0);
    s.subrange(a, skip_spaces_back(s, a, s.len() as int))
}

pub fn trim(s: &[char]) -> (r: Vec<char>)
    ensures
        r@ == trimmed(s@),
        exists|a: int, b: int|
            0 <= a <= b <= s@.len() && r@ == s@.subrange(a, b) && (forall|k: int|
                0 <= k < a ==> is_space(#[trigger] s@[k])) && (forall|k: int|
                b <= k < s@.len() ==> is_space(#[trigger] s@[k])) && (a < b ==> !is_space(s@[a])
                && !is_space(s@[b - 1])),
{
    let mut a: usize = 0;
    while a < s.len() && space(s[a])
        invariant
            a <= s@.len(),
            forall|k: int| 0 <= k < a ==> is_space(#[trigger] s@[k]),
            skip_spaces(s@, 0) == skip_spaces(s@, a as int),
        decreases s@.len() - a,
    {
        a = a + 1;
    }
    let mut b: usize = s.len();
    while b > a && space(s[b - 1])
        invariant
            a <= b <= s@.len(),
            forall|k: int| b <= k < s@.len() ==> is_space(#[trigger] s@[k]),
            a == skip_spaces(s@, 0),
            skip_spaces_back(s@, a as int, s@.len() as int) == skip_spaces_back(s@, a as int, b as int),
        decreases b,
    {
        b = b - 1;
    }
    let mut r: Vec<char> = Vec::new();
    let mut i: usize = a;
    while i < b
        invariant
            a <= i <= b,
            b <= s@.len(),
            r@ == s@.subrange(a as int, i as int),
        decreases b - i,
    {
        r.push(s[i]);
        i = i + 1;
        assert(r@ =~= s@.subrange(a as int, i as int));
    }
    r
}

/// The words found in `s` so far, and the word being read at its end.
pub open spec fn split_state(s: Seq<char>) -> (Seq<Seq<char>>, Seq<char>)
    decreases s.len(),
{
    if s.len() == 0 {
        (Seq::empty(), Seq::empty())
    } else {
        let (done, cur) = split_state(s.drop_last());
        if is_space(s.last()) {
            if cur.len() > 0 {
                (done.push(cur), Seq::empty())
            } else {
                (done, Seq::empty())
            }
        } else {
            (done, cur.push(s.last()))
        }
    }
}

/// The words of a text: its maximal runs of characters that are not white space, in order.
pub open spec fn words_of(s: Seq<char>) -> Seq<Seq<char>> {
    let (done, cur) = split_state(s);
    if cur.len() > 0 {
        done.push(cur)
    } else {
        done
    }
}

/// The characters of each word.
pub open spec fn word_views(words: Seq<Vec<char>>) -> Seq<Seq<char>> {
    words.map_values(|w: Vec<char>| w@)
}

/// The words of a text: its maximal runs of characters that are not white space, in order.
pub fn split_whitespace(s: &[char]) -> (words: Vec<Vec<char>>)
    ensures
        word_views(words@) == words_of(s@),
        forall|i: int| 0 <= i < words@.len() ==> (#[trigger] words@[i])@.len() > 0,
        forall|i: int, k: int|
            0 <= i < words@.len() && 0 <= k < words@[i]@.len() ==> !is_space(#[trigger] words@[i]@[k]),
{
    let mut words: Vec<Vec<char>> = Vec::new();
    let mut current: Vec<char> = Vec::new();
    let mut i: usize = 0;
    while i < s.len()
        invariant
            i <= s@.len(),
            forall|j: int| 0 <= j < words@.len() ==> (#[trigger] words@[j])@.len() > 0,
            forall|j: int, k: int|
                0 <= j < words@.len() && 0 <= k < words@[j]@.len() ==> !is_space(#[trigger] words@[j]@[k]),
            forall|k: int| 0 <= k < current@.len() ==> !is_space(#[trigger] current@[k]),
            split_state(s@.take(i as int)) == (word_views(words@), current@),
        decreases s@.len() - i,
    {
        let c = s[i];
        proof {
            assert(s@.take(i + 1).drop_last() =~= s@.take(i as int));
        }
        let ghost before = words@;
        if space(c) {
            if current.len() > 0 {
                words.push(current);
                current = Vec::new();
                proof {
                    assert(word_views(words@) =~= word_views(before).push(words@.last()@));
                }
            }
            proof {
                assert(current@ =~= Seq::<char>::empty());
            }
        } else {
            current.push(c);
        }
        i = i + 1;
    }
    proof {
        assert(s@.take(s@.len() as int) =~= s@);
    }
    if current.len() > 0 {
        let ghost before = words@;
        words.push(current);
        proof {
            assert(word_views(words@) =~= word_views(before).push(words@.last()@));
        }
    }
    words
}

proof fn lemma_words_space_end(s: Seq<char>, c: char)
    requires
        is_space(c),
    ensures
        words_of(s.push(c)) == words_of(s),
{
    assert(s.push(c).drop_last() =~= s);
}

proof fn lemma_split_spaces_front(p: Seq<char>, u: Seq<char>)
    requires
        forall|k: int| 0 <= k < p.len() ==> is_space(#[trigger] p[k]),
    ensures
        split_state(p + u) == split_state(u),
    decreases p.len() + u.len(),
{
    if u.len() == 0 {
        assert(p + u =~= p);
        if p.len() > 0 {
            lemma_split_spaces_front(p.drop_last(), u);
            assert(p.drop_last() + u =~= p.drop_last());
            assert(split_state(Seq::<char>::empty()) == (Seq::<Seq<char>>::empty(), Seq::<char>::empty()));
        }
    } else {
        lemma_split_spaces_front(p, u.drop_last());
        assert((p + u).drop_last() =~= p + u.drop_last());
        assert((p + u).last() == u.last());
    }
}

proof fn lemma_split_progress(s: Seq<char>, i: int)
    requires
        0 <= i < s.len(),
        !is_space(s[i]),
    ensures
        split_state(s).0.len() > 0 || split_state(s).1.len() > 0,
    decreases s.len(),
{
    if i < s.len() - 1 {
        lemma_split_progress(s.drop_last(), i);
    }
}

/// A text with a character that is not white space has a word.
pub proof fn lemma_words_nonempty(t: Seq<char>)
    requires
        t.len() > 0,
        !is_space(t[0]),
    ensures
        words_of(t).len() > 0,
{
    lemma_split_progress(t, 0);
}

/// White space around a text does not change its words.
pub proof fn lemma_words_trimmed(p: Seq<char>, t: Seq<char>, q: Seq<char>)
    requires
        forall|k: int| 0 <= k < p.len() ==> is_space(#[trigger] p[k]),
        forall|k: int| 0 <= k < q.len() ==> is_space(#[trigger] q[k]),
    ensures
        words_of(p + t + q) == words_of(t),
    decreases q.len(),
{
    if q.len() == 0 {
        assert(p + t + q =~= p + t);
        lemma_split_spaces_front(p, t);
    } else {
        lemma_words_trimmed(p, t, q.drop_last());
        assert(p + t + q =~= (p + t + q.drop_last()).push(q.last()));
        lemma_words_space_end(p + t + q.drop_last(), q.last());
    }
}

/// Whether the characters spell exactly the given text.
pub fn same_text(a: &[char], b: &str) -> (r: bool)
    ensures
        r == (a@ == b@),
{
    let bc = chars_of(b);
    if a.len() != bc.len() {
        return false;
    }
    let mut i: usize = 0;
    while i < a.len()
        invariant
            a@.len() == bc@.len(),
            bc@ == b@,
            i <= a@.len(),
            forall|k: int| 0 <= k < i ==> a@[k] == bc@[k],
        decreases a@.len() - i,
    {
        if a[i] != bc[i] {
            return false;
        }
        i = i + 1;
    }
    assert(a@ =~= bc@);
    true
}


pub open spec fn is_digit(c: char) -> bool {
    '0' <= c && c <= '9'
}

/// The value of a string of decimal digits.
pub open spec fn digits_nat(s: Seq<char>) -> nat
    decreases s.len(),
{
    if s.len() == 0 {
        0
    } else {
        digits_nat(s.drop_last()) * 10 + (s.last() as nat - 48) as nat
    }
}

/// The number that `usize`'s `from_str` reads from a text: an optional `+`, then one or more
/// decimal digits, of value at most `limit`.
pub open spec fn unsigned_digits(s: Seq<char>) -> Seq<char> {
    if s.len() > 0 && s[0] == '+' { s.skip(1) } else { s }
}

pub open spec fn all_digits(d: Seq<char>) -> bool {
    forall|k: int| 0 <= k < d.len() ==> is_digit(#[trigger] d[k])
}

pub open spec fn parsed_unsigned(s: Seq<char>, limit: nat) -> Option<nat> {
    let d = unsigned_digits(s);
    if d.len() > 0 && all_digits(d) && digits_nat(d) <= limit {
        Some(digits_nat(d))
    } else {
        None
    }
}

proof fn lemma_digits_monotone(d: Seq<char>, i: int)
    requires
        0 <= i <= d.len(),
        forall|k: int| 0 <= k < d.len() ==> is_digit(#[trigger] d[k]),
    ensures
        digits_nat(d.take(i)) <= digits_nat(d),
    decreases d.len() - i,
{
    if i < d.len() {
        lemma_digits_monotone(d, i + 1);
        assert(d.take(i + 1).drop_last() =~= d.take(i));
        assert(digits_nat(d.take(i + 1)) >= digits_nat(d.take(i)));
    } else {
        assert(d.take(i) =~= d);
    }
}

/// Reads an unsigned number the way `str::parse::<usize>` does (at most `limit`).
pub fn parse_unsigned(s: &[char], limit: usize) -> (r: Option<usize>)
    ensures
        r matches Some(v) ==> parsed_unsigned(s@, limit as nat) == Some(v as nat),
        r is None ==> parsed_unsigned(s@, limit as nat) is None,
{
    let start: usize = if s.len() > 0 && s[0] == '+' { 1 } else { 0 };
    let ghost d = unsigned_digits(s@);
    proof {
        assert(d =~= s@.skip(start as int));
    }
    if start >= s.len() {
        return None;
    }
    let mut value: usize = 0;
    let mut i: usize = start;
    while i < s.len()
        invariant
            start <= i <= s@.len(),
            d == s@.skip(start as int),
            d == unsigned_digits(s@),
            forall|k: int| 0 <= k < i - start ==> is_digit(#[trigger] d[k]),
            value as nat == digits_nat(d.take(i - start)),
            value <= limit,
        decreases s@.len() - i,
    {
        let c = s[i];
        if !('0' <= c && c <= '9') {
            proof {
                assert(!is_digit(d[i - start]));
                assert(!all_digits(d));
            }
            return None;
        }
        let digit = (c as u32 - 48) as usize;
        proof {
            assert(d.take(i + 1 - start).drop_last() =~= d.take(i - start));
            assert(d.take(i + 1 - start).last() == c);
        }
        if digit > limit || value > (limit - digit) / 10 {
            proof {
                let n = digits_nat(d.take(i + 1 - start));
                assert(n == value * 10 + digit);
                assert(n > limit) by (nonlinear_arith)
                    requires
                        n == value * 10 + digit,
                        digit > limit || value > (limit - digit) / 10,
                ;
                if all_digits(d) {
                    lemma_digits_monotone(d, i + 1 - start);
                }
            }
            return None;
        }
        value = value * 10 + digit;
        i = i + 1;
    }
    proof {
        assert(d.take(i - start) =~= d);
    }
    Some(value)
}

} // verus!

//! Text as sequences of characters: building, splitting and reading numbers.

use vstd::prelude::*;

verus! {

/// `String::push` appends one character at the end and changes nothing else.
pub assume_specification[ String::push ](s: &mut String, ch: char)
    ensures
        final(s)@ == old(s)@.push(ch),
;

/// The texts that a list of strings holds.
pub open spec fn texts(v: Seq<String>) -> Seq<Seq<char>> {
    Seq::new(v.len(), |i: int| v[i]@)
}

/// The characters of `s`, in order.
pub fn chars_of(s: &str) -> (out: Vec<char>)
    ensures
        out@ == s@,
{
    let mut out: Vec<char> = Vec::new();
    for c in it: s.chars()
        invariant
            out@ == it.seq().take(it.index() as int),
            it.seq() == s@,
    {
        out.push(c);
    }
    out
}

/// The text made of the characters `from..to` of `chars`.
pub fn text_of(chars: &Vec<char>, from: usize, to: usize) -> (out: String)
    requires
        from <= to <= chars@.len(),
    ensures
        out@ == chars@.subrange(from as int, to as int),
{
    let mut out = String::new();
    let mut i: usize = from;
    while i < to
        invariant
            from <= i <= to <= chars@.len(),
            out@ == chars@.subrange(from as int, i as int),
        decreases to - i,
    {
        out.push(chars[i]);
        i += 1;
        assert(chars@.subrange(from as int, i as int) == chars@.subrange(from as int, i - 1).push(
            chars@[i - 1],
        ));
    }
    out
}

/// Whether two texts hold the same characters.
pub fn str_eq(a: &str, b: &str) -> (r: bool)
    ensures
        r == (a@ == b@),
{
    let x = a.to_owned();
    let y = b.to_owned();
    x == y
}

/// `a` followed by `b`.
pub fn join2(a: &str, b: &str) -> (out: String)
    ensures
        out@ == a@ + b@,
{
    let mut out = a.to_owned();
    out.append(b);
    out
}

/// `a`, `b` and `c`, one after the other.
pub fn join3(a: &str, b: &str, c: &str) -> (out: String)
    ensures
        out@ == a@ + b@ + c@,
{
    let mut out = a.to_owned();
    out.append(b);
    out.append(c);
    out
}

/// The parts with `sep` between each two of them.
pub open spec fn joined(parts: Seq<Seq<char>>, sep: Seq<char>) -> Seq<char>
    decreases parts.len(),
{
    if parts.len() == 0 {
        Seq::empty()
    } else if parts.len() == 1 {
        parts[0]
    } else {
        joined(parts.drop_last(), sep) + sep + parts.last()
    }
}

/// Joins a list of strings with a separator.
pub fn join_list(parts: &Vec<String>, sep: &str) -> (out: String)
    ensures
        out@ == joined(texts(parts@), sep@),
{
    let mut out = String::new();
    let mut i: usize = 0;
    while i < parts.len()
        invariant
            i <= parts@.len(),
            out@ == joined(texts(parts@).take(i as int), sep@),
        decreases parts@.len() - i,
    {
        if i > 0 {
            out.append(sep);
        }
        out.append(parts[i].as_str());
        proof {
            let t = texts(parts@).take(i + 1);
            assert(t.drop_last() == texts(parts@).take(i as int));
            assert(t.last() == parts@[i as int]@);
            if i == 0 {
                assert(out@ == t[0]);
            }
        }
        i += 1;
    }
    assert(texts(parts@).take(i as int) == texts(parts@));
    out
}

/// The character of a decimal digit.
pub open spec fn digit_char(d: nat) -> char {
    (48 + d) as char
}

/// A number in decimal, without leading zeros.
pub open spec fn decimal_text(n: nat) -> Seq<char>
    decreases n,
{
    if n < 10 {
        seq![digit_char(n)]
    } else {
        decimal_text(n / 10).push(digit_char(n % 10))
    }
}

/// A whole number in decimal, with a minus sign where it is negative.
pub open spec fn signed_text(n: int) -> Seq<char> {
    if n < 0 {
        seq!['-'] + decimal_text((-n) as nat)
    } else {
        decimal_text(n as nat)
    }
}

/// Writes `n` in decimal.
pub fn decimal(n: u64) -> (out: String)
    ensures
        out@ == decimal_text(n as nat),
    decreases n,
{
    let mut out = if n < 10 {
        String::new()
    } else {
        decimal(n / 10)
    };
    let d: u8 = (n % 10) as u8;
    out.push((48 + d) as char);
    if n < 10 {
        assert(out@ == seq![digit_char(n as nat)]);
    }
    out
}

/// Writes `n` in decimal, with its sign.
pub fn signed_decimal(n: i32) -> (out: String)
    ensures
        out@ == signed_text(n as int),
{
    if n < 0 {
        let mut out = String::new();
        out.push('-');
        let magnitude: i64 = -(n as i64);
        out.append(decimal(magnitude as u64).as_str());
        assert(out@ == seq!['-'] + decimal_text((-n) as nat));
        out
    } else {
        decimal(n as u64)
    }
}

/// `n` spaces.
pub open spec fn spaces(n: nat) -> Seq<char> {
    Seq::new(n, |i: int| ' ')
}

/// `s` with spaces behind it up to `width` characters; a longer text is left as it is.
pub open spec fn padded(s: Seq<char>, width: nat) -> Seq<char> {
    if s.len() >= width {
        s
    } else {
        s + spaces((width - s.len()) as nat)
    }
}

/// Pads `s` with spaces on the right up to `width` characters.
pub fn pad_right(s: &str, width: usize) -> (out: String)
    ensures
        out@ == padded(s@, width as nat),
{
    let mut out = s.to_owned();
    let mut len: usize = s.unicode_len();
    let ghost start = len as int;
    while len < width
        invariant
            start <= len,
            len <= width || len == start,
            start == s@.len(),
            out@ == s@ + spaces((len - start) as nat),
        decreases width - len,
    {
        out.push(' ');
        len += 1;
        assert(out@ == s@ + spaces((len - start) as nat));
    }
    out
}

/// The place of the first `c` at or after `from`, if there is one.
pub open spec fn first_at(s: Seq<char>, c: char, from: int) -> Option<int>
    decreases s.len() - from,
{
    if from < 0 || from >= s.len() {
        None
    } else if s[from] == c {
        Some(from)
    } else {
        first_at(s, c, from + 1)
    }
}

/// What `first_at` finds is the first one, and it finds one wherever there is one.
pub proof fn lemma_first_at(s: Seq<char>, c: char, from: int)
    requires
        0 <= from,
    ensures
        first_at(s, c, from) matches Some(i) ==> from <= i < s.len() && s[i] == c && forall|j: int|
            from <= j < i ==> s[j] != c,
        first_at(s, c, from) is None ==> forall|j: int| from <= j < s.len() ==> s[j] != c,
    decreases s.len() - from,
{
    if from < s.len() && s[from] != c {
        lemma_first_at(s, c, from + 1);
    }
}

/// Finds the first `c` at or after `from`.
pub fn find_char(chars: &Vec<char>, c: char, from: usize) -> (r: Option<usize>)
    ensures
        match r {
            Some(i) => first_at(chars@, c, from as int) == Some(i as int) && from <= i
                < chars@.len() && chars@[i as int] == c,
            None => first_at(chars@, c, from as int) is None,
        },
{
    let mut i: usize = from;
    while i < chars.len()
        invariant
            from <= i,
            first_at(chars@, c, from as int) == first_at(chars@, c, i as int),
        decreases chars@.len() - i,
    {
        if chars[i] == c {
            return Some(i);
        }
        i += 1;
    }
    None
}

/// The place of the last `c`, if there is one.
pub open spec fn last_at(s: Seq<char>, c: char) -> Option<int>
    decreases s.len(),
{
    if s.len() == 0 {
        None
    } else if s.last() == c {
        Some(s.len() - 1)
    } else {
        last_at(s.drop_last(), c)
    }
}

/// Finds the last `c` among the first `len` characters.
pub fn find_last_char(chars: &Vec<char>, c: char, len: usize) -> (r: Option<usize>)
    requires
        len <= chars@.len(),
    ensures
        match r {
            Some(i) => last_at(chars@.take(len as int), c) == Some(i as int) && i < len
                && chars@[i as int] == c,
            None => last_at(chars@.take(len as int), c) is None,
        },
{
    let mut n: usize = len;
    while n > 0
        invariant
            n <= len <= chars@.len(),
            last_at(chars@.take(len as int), c) == last_at(chars@.take(n as int), c),
        decreases n,
    {
        assert(chars@.take(n as int).last() == chars@[n - 1]);
        assert(chars@.take(n as int).drop_last() == chars@.take(n - 1));
        if chars[n - 1] == c {
            return Some(n - 1);
        }
        n -= 1;
    }
    None
}

/// Whether `prefix` stands at the start of `s`.
pub fn has_prefix(s: &str, prefix: &str) -> (r: bool)
    ensures
        r == prefix@.is_prefix_of(s@),
{
    let a = chars_of(s);
    let b = chars_of(prefix);
    if b.len() > a.len() {
        return false;
    }
    let mut i: usize = 0;
    while i < b.len()
        invariant
            i <= b@.len() <= a@.len(),
            a@ == s@,
            b@ == prefix@,
            forall|j: int| 0 <= j < i ==> a@[j] == b@[j],
        decreases b@.len() - i,
    {
        if a[i] != b[i] {
            assert(s@.subrange(0, prefix@.len() as int)[i as int] != prefix@[i as int]);
            return false;
        }
        i += 1;
    }
    assert(s@.subrange(0, prefix@.len() as int) == prefix@);
    true
}

/// The characters that Unicode calls white space.
pub open spec fn is_space(c: char) -> bool {
    let n = c as u32;
    ||| 9 <= n <= 13
    ||| n == 32
    ||| n == 0x85
    ||| n == 0xa0
    ||| n == 0x1680
    ||| 0x2000 <= n <= 0x200a
    ||| n == 0x2028
    ||| n == 0x2029
    ||| n == 0x202f
    ||| n == 0x205f
    ||| n == 0x3000
}

/// Whether `c` is white space.
pub fn is_space_char(c: char) -> (r: bool)
    ensures
        r == is_space(c),
{
    let n: u32 = c as u32;
    (9 <= n && n <= 13) || n == 32 || n == 0x85 || n == 0xa0 || n == 0x1680 || (0x2000 <= n && n
        <= 0x200a) || n == 0x2028 || n == 0x2029 || n == 0x202f || n == 0x205f || n == 0x3000
}

/// How many white-space characters `s` starts with.
pub open spec fn space_run(s: Seq<char>) -> nat
    decreases s.len(),
{
    if s.len() > 0 && is_space(s[0]) {
        1 + space_run(s.skip(1))
    } else {
        0
    }
}

/// How many characters `s` starts with that are not white space.
pub open spec fn word_run(s: Seq<char>) -> nat
    decreases s.len(),
{
    if s.len() > 0 && !is_space(s[0]) {
        1 + word_run(s.skip(1))
    } else {
        0
    }
}

pub proof fn lemma_runs(s: Seq<char>)
    ensures
        space_run(s) <= s.len(),
        word_run(s) <= s.len(),
    decreases s.len(),
{
    if s.len() > 0 {
        lemma_runs(s.skip(1));
    }
}

/// The words of `s`: what stands between stretches of white space.
pub open spec fn words(s: Seq<char>) -> Seq<Seq<char>>
    decreases s.len(),
{
    let t = s.skip(space_run(s) as int);
    let n = word_run(t) as int;
    if space_run(s) >= s.len() || n <= 0 || n > t.len() {
        Seq::empty()
    } else {
        seq![t.take(n)] + words(t.skip(n))
    }
}

/// Splits `s` at white space.
pub fn split_words(s: &str) -> (out: Vec<String>)
    ensures
        texts(out@) == words(s@),
{
    let chars = chars_of(s);
    let mut out: Vec<String> = Vec::new();
    let mut i: usize = 0;
    assert(s@.skip(0) == s@);
    assert(texts(out@) + words(s@) == words(s@));
    while i < chars.len()
        invariant
            chars@ == s@,
            i <= chars@.len(),
            words(s@) == texts(out@) + words(s@.skip(i as int)),
        decreases chars@.len() - i,
    {
        let ghost rest = s@.skip(i as int);
        let mut a: usize = i;
        proof {
            lemma_runs(rest);
        }
        while a < chars.len() && is_space_char(chars[a])
            invariant
                chars@ == s@,
                i <= a <= chars@.len(),
                rest == s@.skip(i as int),
                space_run(rest) == (a - i) + space_run(s@.skip(a as int)),
            decreases chars@.len() - a,
        {
            assert(s@.skip(a as int).skip(1) == s@.skip(a + 1));
            a += 1;
        }
        assert(space_run(s@.skip(a as int)) == 0);
        let ghost t = s@.skip(a as int);
        assert(rest.skip(space_run(rest) as int) == t);
        let mut b: usize = a;
        while b < chars.len() && !is_space_char(chars[b])
            invariant
                chars@ == s@,
                a <= b <= chars@.len(),
                t == s@.skip(a as int),
                word_run(t) == (b - a) + word_run(s@.skip(b as int)),
            decreases chars@.len() - b,
        {
            assert(s@.skip(b as int).skip(1) == s@.skip(b + 1));
            b += 1;
        }
        assert(word_run(s@.skip(b as int)) == 0);
        if b == a {
            assert(a == chars@.len());
            assert(words(rest) == Seq::<Seq<char>>::empty());
            assert(words(s@) == texts(out@));
            return out;
        }
        let ghost before = out@;
        out.push(text_of(&chars, a, b));
        proof {
            assert(t.take(b - a) == s@.subrange(a as int, b as int));
            assert(t.skip(b - a) == s@.skip(b as int));
            assert(words(rest) == seq![t.take(b - a)] + words(s@.skip(b as int)));
            assert(texts(out@) == texts(before) + seq![t.take(b - a)]);
            assert(texts(before) + (seq![t.take(b - a)] + words(s@.skip(b as int))) == (texts(
                before,
            ) + seq![t.take(b - a)]) + words(s@.skip(b as int)));
        }
        i = b;
    }
    assert(words(s@.skip(i as int)) == Seq::<Seq<char>>::empty());
    assert(texts(out@) + Seq::<Seq<char>>::empty() == texts(out@));
    out
}

/// `s` without the white space at its start and at its end.
pub open spec fn trimmed(s: Seq<char>) -> Seq<char>
    decreases s.len(),
{
    if s.len() > 0 && is_space(s[0]) {
        trimmed(s.skip(1))
    } else if s.len() > 0 && is_space(s.last()) {
        trimmed(s.drop_last())
    } else {
        s
    }
}

/// The range of `chars[from..to]` that is left without white space at either end.
pub fn trim_range(chars: &Vec<char>, from: usize, to: usize) -> (r: (usize, usize))
    requires
        from <= to <= chars@.len(),
    ensures
        from <= r.0 <= r.1 <= to,
        chars@.subrange(r.0 as int, r.1 as int) == trimmed(
            chars@.subrange(from as int, to as int),
        ),
{
    let mut a: usize = from;
    let mut b: usize = to;
    let ghost whole = chars@.subrange(from as int, to as int);
    while a < b && is_space_char(chars[a])
        invariant
            from <= a <= b <= to <= chars@.len(),
            trimmed(whole) == trimmed(chars@.subrange(a as int, b as int)),
        decreases b - a,
    {
        assert(chars@.subrange(a as int, b as int).skip(1) == chars@.subrange(a + 1, b as int));
        a += 1;
    }
    while a < b && is_space_char(chars[b - 1])
        invariant
            from <= a <= b <= to <= chars@.len(),
            a < b ==> !is_space(chars@[a as int]),
            trimmed(whole) == trimmed(chars@.subrange(a as int, b as int)),
        decreases b - a,
    {
        assert(chars@.subrange(a as int, b as int).drop_last() == chars@.subrange(
            a as int,
            b - 1,
        ));
        b -= 1;
    }
    (a, b)
}

/// A line without the carriage return that ends it.
pub open spec fn without_cr(line: Seq<char>) -> Seq<char> {
    if line.len() > 0 && line.last() == '\r' {
        line.drop_last()
    } else {
        line
    }
}

/// The lines of `s`. A line ends at a line feed, with or without a carriage return before it;
/// the last line needs no line feed.
pub open spec fn lines(s: Seq<char>) -> Seq<Seq<char>>
    decreases s.len(),
{
    if s.len() == 0 {
        Seq::empty()
    } else {
        match first_at(s, '\n', 0) {
            Some(i) => if 0 <= i < s.len() {
                seq![without_cr(s.take(i))] + lines(s.skip(i + 1))
            } else {
                Seq::empty()
            },
            None => seq![s],
        }
    }
}

/// `first_at` on a suffix, in the places of the whole.
pub proof fn lemma_first_at_skip(s: Seq<char>, c: char, k: int, from: int)
    requires
        0 <= k <= s.len(),
        0 <= from,
    ensures
        first_at(s.skip(k), c, from) == match first_at(s, c, k + from) {
            Some(i) => Some(i - k),
            None => None,
        },
    decreases s.len() - k - from,
{
    if from < s.skip(k).len() && s.skip(k)[from] != c {
        lemma_first_at_skip(s, c, k, from + 1);
    }
}

/// Splits `s` into lines.
pub fn split_lines(s: &str) -> (out: Vec<String>)
    ensures
        texts(out@) == lines(s@),
{
    let chars = chars_of(s);
    let mut out: Vec<String> = Vec::new();
    let mut i: usize = 0;
    assert(s@.skip(0) == s@);
    assert(texts(out@) + lines(s@) == lines(s@));
    while i < chars.len()
        invariant
            chars@ == s@,
            i <= chars@.len(),
            lines(s@) == texts(out@) + lines(s@.skip(i as int)),
        decreases chars@.len() - i,
    {
        let ghost rest = s@.skip(i as int);
        let ghost before = out@;
        proof {
            lemma_first_at_skip(s@, '\n', i as int, 0);
        }
        match find_char(&chars, '\n', i) {
            Some(j) => {
                let end: usize = if j > i && chars[j - 1] == '\r' {
                    j - 1
                } else {
                    j
                };
                let line = text_of(&chars, i, end);
                proof {
                    assert(rest.take(j - i) == s@.subrange(i as int, j as int));
                    assert(line@ == without_cr(rest.take(j - i)));
                    assert(rest.skip(j - i + 1) == s@.skip(j + 1));
                }
                out.push(line);
                proof {
                    let l = seq![without_cr(rest.take(j - i))];
                    assert(texts(out@) == texts(before) + l);
                    assert(texts(before) + (l + lines(s@.skip(j + 1))) == (texts(before) + l)
                        + lines(s@.skip(j + 1)));
                }
                i = j + 1;
            },
            None => {
                out.push(text_of(&chars, i, chars.len()));
                proof {
                    assert(s@.subrange(i as int, s@.len() as int) == rest);
                    assert(texts(out@) == texts(before) + seq![rest]);
                }
                return out;
            },
        }
    }
    assert(texts(out@) + Seq::<Seq<char>>::empty() == texts(out@));
    out
}

/// Whether `c` is one of `0` to `9`.
pub open spec fn is_digit(c: char) -> bool {
    48 <= c as u32 <= 57
}

/// Whether every character of `s` is a digit.
pub open spec fn all_digits(s: Seq<char>) -> bool {
    forall|i: int| 0 <= i < s.len() ==> is_digit(#[trigger] s[i])
}

/// The number that a row of digits writes.
pub open spec fn digits_value(s: Seq<char>) -> nat
    decreases s.len(),
{
    if s.len() == 0 {
        0
    } else {
        digits_value(s.drop_last()) * 10 + ((s.last() as u32 - 48) as nat)
    }
}

pub proof fn lemma_digits_value_grows(s: Seq<char>, i: int)
    requires
        0 <= i <= s.len(),
    ensures
        digits_value(s.take(i)) <= digits_value(s),
    decreases s.len(),
{
    if i < s.len() {
        lemma_digits_value_grows(s.drop_last(), i);
        assert(s.drop_last().take(i) == s.take(i));
    } else {
        assert(s.take(i) == s);
    }
}

/// The number that `s` writes in decimal, where it is a row of at least one digit and at most
/// `max`.
pub open spec fn digits_number(s: Seq<char>, max: nat) -> Option<nat> {
    if s.len() > 0 && all_digits(s) && digits_value(s) <= max {
        Some(digits_value(s))
    } else {
        None
    }
}

/// Reads `chars[from..to]` as a decimal number of at most `max`.
pub fn read_digits(chars: &Vec<char>, from: usize, to: usize, max: u64) -> (r: Option<u64>)
    requires
        from <= to <= chars@.len(),
    ensures
        match r {
            Some(n) => digits_number(chars@.subrange(from as int, to as int), max as nat) == Some(
                n as nat,
            ),
            None => digits_number(chars@.subrange(from as int, to as int), max as nat) is None,
        },
{
    let ghost s = chars@.subrange(from as int, to as int);
    if from == to {
        return None;
    }
    let mut acc: u128 = 0;
    let mut i: usize = from;
    while i < to
        invariant
            from <= i <= to <= chars@.len(),
            from < to,
            s == chars@.subrange(from as int, to as int),
            acc == digits_value(s.take(i - from)),
            acc <= max,
            all_digits(s.take(i - from)),
        decreases to - i,
    {
        let n: u32 = chars[i] as u32;
        assert(s[i - from] == chars@[i as int]);
        if n < 48 || n > 57 {
            assert(!is_digit(s[i - from]));
            return None;
        }
        acc = acc * 10 + (n - 48) as u128;
        proof {
            let t = s.take(i - from + 1);
            assert(t.drop_last() == s.take(i - from));
            assert(t.last() == s[i - from]);
            assert forall|k: int| 0 <= k < t.len() implies is_digit(#[trigger] t[k]) by {
                if k < i - from {
                    assert(s.take(i - from)[k] == t[k]);
                }
            }
            lemma_digits_value_grows(s, i - from + 1);
        }
        if acc > max as u128 {
            return None;
        }
        i += 1;
    }
    assert(s.take(to - from) == s);
    Some(acc as u64)
}

/// The number that `s` writes, with or without a plus sign before it, where it is at most `max`.
pub open spec fn unsigned_number(s: Seq<char>, max: nat) -> Option<nat> {
    if s.len() > 0 && s[0] == '+' {
        digits_number(s.skip(1), max)
    } else {
        digits_number(s, max)
    }
}

/// Reads `s` as an unsigned decimal number of at most `max`.
pub fn read_unsigned(s: &str, max: u64) -> (r: Option<u64>)
    ensures
        match r {
            Some(n) => unsigned_number(s@, max as nat) == Some(n as nat),
            None => unsigned_number(s@, max as nat) is None,
        },
{
    let chars = chars_of(s);
    if chars.len() > 0 && chars[0] == '+' {
        assert(s@.skip(1) == chars@.subrange(1, chars@.len() as int));
        read_digits(&chars, 1, chars.len(), max)
    } else {
        assert(s@ == chars@.subrange(0, chars@.len() as int));
        read_digits(&chars, 0, chars.len(), max)
    }
}

/// The number that `s` writes, with or without a sign, where a 32-bit integer holds it.
pub open spec fn signed_number(s: Seq<char>) -> Option<int> {
    if s.len() > 0 && s[0] == '-' {
        match digits_number(s.skip(1), 0x8000_0000) {
            Some(n) => Some(-(n as int)),
            None => None,
        }
    } else {
        match unsigned_number(s, 0x7fff_ffff) {
            Some(n) => Some(n as int),
            None => None,
        }
    }
}

/// Reads `chars[from..to]` as a signed decimal number of 32 bits.
pub fn read_signed(chars: &Vec<char>, from: usize, to: usize) -> (r: Option<i32>)
    requires
        from <= to <= chars@.len(),
    ensures
        match r {
            Some(n) => signed_number(chars@.subrange(from as int, to as int)) == Some(n as int),
            None => signed_number(chars@.subrange(from as int, to as int)) is None,
        },
{
    let ghost s = chars@.subrange(from as int, to as int);
    if from < to && chars[from] == '-' {
        assert(s.skip(1) == chars@.subrange(from + 1, to as int));
        match read_digits(chars, from + 1, to, 0x8000_0000) {
            Some(n) => {
                let m: i64 = -(n as i64);
                Some(m as i32)
            },
            None => None,
        }
    } else if from < to && chars[from] == '+' {
        assert(s.skip(1) == chars@.subrange(from + 1, to as int));
        match read_digits(chars, from + 1, to, 0x7fff_ffff) {
            Some(n) => Some(n as i32),
            None => None,
        }
    } else {
        match read_digits(chars, from, to, 0x7fff_ffff) {
            Some(n) => Some(n as i32),
            None => None,
        }
    }
}

} // verus!

//! Text as sequences of characters.

use vstd::prelude::*;

verus! {

/// `String::push` appends a character to the end of the string.
pub assume_specification[ String::push ](s: &mut String, c: char)
    ensures
        final(s)@ == old(s)@.push(c),
;

/// The characters of a string.
pub fn chars_of(s: &str) -> (r: Vec<char>)
    ensures
        r@ == s@,
{
    let mut r: Vec<char> = Vec::new();
    for c in it: s.chars()
        invariant
            it.seq() == s@,
            r@ == s@.take(it.index() as int),
    {
        r.push(c);
        assert(s@.take(it.index() + 1) =~= s@.take(it.index() as int).push(s@[it.index() as int]));
    }
    assert(s@.take(s@.len() as int) =~= s@);
    r
}

/// The string of some characters.
pub fn string_of(chars: &Vec<char>) -> (r: String)
    ensures
        r@ == chars@,
{
    let mut r = String::new();
    let mut k: usize = 0;
    while k < chars.len()
        invariant
            k <= chars@.len(),
            r@ == chars@.take(k as int),
        decreases chars@.len() - k,
    {
        r.push(chars[k]);
        k += 1;
        assert(chars@.take(k as int) =~= chars@.take(k - 1).push(chars@[k - 1]));
    }
    assert(chars@.take(k as int) =~= chars@);
    r
}

/// A decimal digit.
pub open spec fn digit(k: int) -> char {
    (48 + k) as char
}

/// A number in decimal notation.
pub open spec fn decimal(n: nat) -> Seq<char>
    decreases n,
{
    if n < 10 {
        seq![digit(n as int)]
    } else {
        decimal(n / 10).push(digit((n % 10) as int))
    }
}

fn digit_of(k: u64) -> (r: char)
    requires
        k < 10,
    ensures
        r == digit(k as int),
{
    (48u8 + k as u8) as char
}

/// Append a number in decimal notation.
pub fn push_decimal(out: &mut String, n: u64)
    ensures
        final(out)@ == old(out)@ + decimal(n as nat),
    decreases n,
{
    if n < 10 {
        out.push(digit_of(n));
        assert(out@ =~= old(out)@ + decimal(n as nat));
    } else {
        push_decimal(out, n / 10);
        let ghost before = out@;
        out.push(digit_of(n % 10));
        assert(out@ =~= old(out)@ + decimal(n as nat));
    }
}

// ── Lines ─────────────────────────────────────────────────────────────────

/// The position of the first line feed from `i` on, or the end.
pub open spec fn line_end(s: Seq<char>, i: int) -> int
    decreases s.len() - i,
{
    if i >= s.len() || s[i] == '\n' {
        i
    } else {
        line_end(s, i + 1)
    }
}

/// Text without a carriage return at its end.
pub open spec fn strip_cr(s: Seq<char>) -> Seq<char> {
    if s.len() > 0 && s.last() == '\r' {
        s.drop_last()
    } else {
        s
    }
}

/// The lines of a text from position `i` on. A line ends with a line feed, or with a carriage
/// return and a line feed; the last line may lack its ending.
pub open spec fn lines_from(s: Seq<char>, i: int) -> Seq<Seq<char>>
    decreases s.len() - i,
    when 0 <= i
    via lines_from_decreases
{
    if i >= s.len() {
        Seq::empty()
    } else {
        let e = line_end(s, i);
        if e < s.len() {
            seq![strip_cr(s.subrange(i, e))] + lines_from(s, e + 1)
        } else {
            seq![s.subrange(i, e)]
        }
    }
}

#[via_fn]
proof fn lines_from_decreases(s: Seq<char>, i: int) {
    if i < s.len() {
        lemma_line_end(s, i);
    }
}

/// The lines of a text.
pub open spec fn lines(s: Seq<char>) -> Seq<Seq<char>> {
    lines_from(s, 0)
}

pub proof fn lemma_line_end(s: Seq<char>, i: int)
    requires
        0 <= i <= s.len(),
    ensures
        i <= line_end(s, i) <= s.len(),
        line_end(s, i) < s.len() ==> s[line_end(s, i)] == '\n',
        forall|k: int| i <= k < line_end(s, i) ==> s[k] != '\n',
    decreases s.len() - i,
{
    if i < s.len() && s[i] != '\n' {
        lemma_line_end(s, i + 1);
    }
}

/// The texts that a list holds.
pub open spec fn texts(v: Seq<Vec<char>>) -> Seq<Seq<char>> {
    Seq::new(v.len(), |i: int| v[i]@)
}

/// A part of a text.
pub fn part_of(s: &Vec<char>, from: usize, to: usize) -> (r: Vec<char>)
    requires
        from <= to <= s@.len(),
    ensures
        r@ == s@.subrange(from as int, to as int),
{
    let mut r: Vec<char> = Vec::new();
    let mut k: usize = from;
    while k < to
        invariant
            from <= k <= to <= s@.len(),
            r@ == s@.subrange(from as int, k as int),
        decreases to - k,
    {
        r.push(s[k]);
        k += 1;
        assert(s@.subrange(from as int, k as int) =~= s@.subrange(from as int, k - 1).push(s@[k - 1]));
    }
    r
}

/// The lines of a text.
pub fn lines_of(s: &Vec<char>) -> (r: Vec<Vec<char>>)
    ensures
        texts(r@) == lines(s@),
{
    let mut r: Vec<Vec<char>> = Vec::new();
    let mut i: usize = 0;
    assert(texts(r@) + lines_from(s@, 0) =~= lines(s@));
    while i < s.len()
        invariant
            i <= s@.len(),
            texts(r@) + lines_from(s@, i as int) == lines(s@),
        decreases s@.len() - i,
    {
        let mut e: usize = i;
        proof {
            lemma_line_end(s@, i as int);
        }
        while e < s.len() && s[e] != '\n'
            invariant
                i <= e <= line_end(s@, i as int) <= s@.len(),
                line_end(s@, i as int) < s@.len() ==> s@[line_end(s@, i as int)] == '\n',
                line_end(s@, e as int) == line_end(s@, i as int),
            decreases s@.len() - e,
        {
            e += 1;
            proof {
                lemma_line_end(s@, e as int);
            }
        }
        assert(e == line_end(s@, i as int));
        let ghost before = texts(r@);
        let ghost rest = lines_from(s@, i as int);
        if e < s.len() {
            let stop: usize = if e > i && s[e - 1] == '\r' {
                e - 1
            } else {
                e
            };
            let line = part_of(s, i, stop);
            let ghost text = line@;
            assert(text =~= strip_cr(s@.subrange(i as int, e as int)));
            r.push(line);
            proof {
                assert(texts(r@) =~= before.push(text));
                assert(texts(r@) + lines_from(s@, e + 1) =~= before + rest);
            }
            i = e + 1;
        } else {
            let line = part_of(s, i, e);
            let ghost text = line@;
            r.push(line);
            proof {
                assert(texts(r@) =~= before.push(text));
                assert(lines_from(s@, e as int) =~= Seq::empty());
                assert(texts(r@) + lines_from(s@, e as int) =~= before + rest);
            }
            i = e;
        }
    }
    assert(texts(r@) + lines_from(s@, i as int) =~= texts(r@));
    r
}

/// Texts put together with a separator between them.
pub open spec fn joined(parts: Seq<Seq<char>>, separator: char) -> Seq<char>
    decreases parts.len(),
{
    if parts.len() == 0 {
        Seq::empty()
    } else if parts.len() == 1 {
        parts[0]
    } else {
        joined(parts.drop_last(), separator).push(separator) + parts.last()
    }
}

/// All texts have length `w`.
pub open spec fn uniform(parts: Seq<Seq<char>>, w: int) -> bool {
    forall|k: int| 0 <= k < parts.len() ==> #[trigger] parts[k].len() == w
}

/// Where the characters of equally long parts come to stand.
proof fn lemma_joined_chars(parts: Seq<Seq<char>>, separator: char, w: int)
    requires
        parts.len() > 0,
        w >= 0,
        uniform(parts, w),
    ensures
        joined(parts, separator).len() == parts.len() * (w + 1) - 1,
        forall|k: int, x: int|
            0 <= k < parts.len() && 0 <= x < w ==> joined(parts, separator)[k * (w + 1) + x]
                == #[trigger] parts[k][x],
        forall|k: int|
            0 <= k < parts.len() - 1 ==> #[trigger] joined(parts, separator)[k * (w + 1) + w]
                == separator,
    decreases parts.len(),
{
    let n = parts.len() as int;
    let all = joined(parts, separator);
    assert(parts[n - 1].len() == w);
    if n == 1 {
        assert(all == parts[0]);
        assert(1 * (w + 1) == w + 1);
        assert forall|k: int, x: int| 0 <= k < n && 0 <= x < w implies all[k * (w + 1) + x]
            == #[trigger] parts[k][x] by {
            assert(k == 0);
        }
    } else {
        let less = parts.drop_last();
        assert forall|k: int| 0 <= k < less.len() implies #[trigger] less[k].len() == w by {
            assert(less[k] == parts[k]);
        }
        lemma_joined_chars(less, separator, w);
        let part = joined(less, separator);
        assert(all == part.push(separator) + parts[n - 1]);
        assert(n * (w + 1) == (n - 1) * (w + 1) + (w + 1)) by (nonlinear_arith);
        assert forall|k: int, x: int| 0 <= k < n && 0 <= x < w implies all[k * (w + 1) + x]
            == #[trigger] parts[k][x] by {
            if k < n - 1 {
                assert(less[k][x] == parts[k][x]);
                assert(part[k * (w + 1) + x] == less[k][x]);
                assert(0 <= k * (w + 1) <= (n - 2) * (w + 1)) by (nonlinear_arith)
                    requires
                        0 <= k <= n - 2,
                        w >= 0,
                ;
                assert((n - 1) * (w + 1) == (n - 2) * (w + 1) + (w + 1)) by (nonlinear_arith);
            }
        }
        assert forall|k: int| 0 <= k < n - 1 implies #[trigger] all[k * (w + 1) + w]
            == separator by {
            assert((n - 1) * (w + 1) == (n - 2) * (w + 1) + (w + 1)) by (nonlinear_arith);
            if k < n - 2 {
                assert(part[k * (w + 1) + w] == separator);
                assert(0 <= k * (w + 1) <= (n - 3) * (w + 1)) by (nonlinear_arith)
                    requires
                        0 <= k <= n - 3,
                        w >= 0,
                ;
                assert((n - 2) * (w + 1) == (n - 3) * (w + 1) + (w + 1)) by (nonlinear_arith);
            }
        }
    }
}

/// The texts have no line feeds or carriage returns.
pub open spec fn plain(parts: Seq<Seq<char>>) -> bool {
    forall|k: int, x: int|
        0 <= k < parts.len() && 0 <= x < parts[k].len() ==> #[trigger] parts[k][x] != '\n'
            && parts[k][x] != '\r'
}

proof fn lemma_lines_joined_from(parts: Seq<Seq<char>>, w: int, k: int)
    requires
        w > 0,
        uniform(parts, w),
        plain(parts),
        0 <= k < parts.len(),
    ensures
        lines_from(joined(parts, '\n'), k * (w + 1)) == parts.skip(k),
    decreases parts.len() - k,
{
    let n = parts.len() as int;
    let all = joined(parts, '\n');
    lemma_joined_chars(parts, '\n', w);
    let p = k * (w + 1);
    assert(parts[k].len() == w);
    assert(0 <= p) by (nonlinear_arith)
        requires
            p == k * (w + 1),
            0 <= k,
            0 < w,
    ;
    assert(p + w + 1 <= n * (w + 1)) by (nonlinear_arith)
        requires
            p == k * (w + 1),
            0 <= k < n,
            0 < w,
    ;
    lemma_line_end(all, p);
    let e = line_end(all, p);
    assert(e >= p + w) by {
        if e < p + w {
            assert(parts[k][e - p] != '\n');
            assert(all[k * (w + 1) + (e - p)] == parts[k][e - p]);
        }
    }
    let line = all.subrange(p, p + w);
    assert(line =~= parts[k]) by {
        assert forall|x: int| 0 <= x < w implies line[x] == parts[k][x] by {
            assert(all[k * (w + 1) + x] == parts[k][x]);
        }
    }
    assert(parts[k][w - 1] != '\r');
    if k < n - 1 {
        assert(all[k * (w + 1) + w] == '\n');
        assert(e == p + w);
        assert(strip_cr(line) == line);
        assert((k + 1) * (w + 1) == p + w + 1) by (nonlinear_arith)
            requires
                p == k * (w + 1),
        ;
        lemma_lines_joined_from(parts, w, k + 1);
        assert(p + w + 1 < all.len()) by (nonlinear_arith)
            requires
                p == k * (w + 1),
                0 <= k < n - 1,
                0 < w,
                all.len() == n * (w + 1) - 1,
        ;
        assert(lines_from(all, p) =~= seq![parts[k]] + parts.skip(k + 1));
        assert(parts.skip(k) =~= seq![parts[k]] + parts.skip(k + 1));
    } else {
        assert(all.len() == p + w) by (nonlinear_arith)
            requires
                p == k * (w + 1),
                k == n - 1,
                all.len() == n * (w + 1) - 1,
        ;
        assert(lines_from(all, p) =~= seq![parts[k]]);
        assert(parts.skip(k) =~= seq![parts[k]]);
    }
}

/// Equally long, nonempty lines are found again in the text that joins them.
pub proof fn lemma_lines_joined(parts: Seq<Seq<char>>, w: int)
    requires
        w > 0,
        parts.len() > 0,
        uniform(parts, w),
        plain(parts),
    ensures
        lines(joined(parts, '\n')) == parts,
{
    lemma_lines_joined_from(parts, w, 0);
    assert(0 * (w + 1) == 0);
    assert(parts.skip(0) =~= parts);
}

// ── White space ───────────────────────────────────────────────────────────

/// The character has the Unicode property White_Space.
pub open spec fn is_space(c: char) -> bool {
    let n = c as int;
    ||| 9 <= n <= 13
    ||| n == 0x20 || n == 0x85 || n == 0xa0 || n == 0x1680
    ||| 0x2000 <= n <= 0x200a
    ||| n == 0x2028 || n == 0x2029 || n == 0x202f || n == 0x205f || n == 0x3000
}

/// Whether a character is white space.
pub fn char_is_space(c: char) -> (r: bool)
    ensures
        r == is_space(c),
{
    let n = c as u32;
    (9 <= n && n <= 13) || n == 0x20 || n == 0x85 || n == 0xa0 || n == 0x1680 || (0x2000 <= n && n
        <= 0x200a) || n == 0x2028 || n == 0x2029 || n == 0x202f || n == 0x205f || n == 0x3000
}

/// A text without the white space that it starts with.
pub open spec fn trim_start(s: Seq<char>) -> Seq<char>
    decreases s.len(),
{
    if s.len() > 0 && is_space(s[0]) {
        trim_start(s.skip(1))
    } else {
        s
    }
}

/// A text without the white space that it ends with.
pub open spec fn trim_end(s: Seq<char>) -> Seq<char>
    decreases s.len(),
{
    if s.len() > 0 && is_space(s.last()) {
        trim_end(s.drop_last())
    } else {
        s
    }
}

/// A text without white space at either end.
pub open spec fn trim(s: Seq<char>) -> Seq<char> {
    trim_end(trim_start(s))
}

/// The text without white space at either end.
pub fn trimmed(s: &Vec<char>) -> (r: Vec<char>)
    ensures
        r@ == trim(s@),
{
    let mut from: usize = 0;
    assert(s@.skip(0) =~= s@);
    while from < s.len() && char_is_space(s[from])
        invariant
            from <= s@.len(),
            trim_start(s@.skip(from as int)) == trim_start(s@),
        decreases s@.len() - from,
    {
        assert(s@.skip(from as int).skip(1) =~= s@.skip(from + 1));
        from += 1;
    }
    let ghost t = s@.skip(from as int);
    assert(trim_start(s@) == t);
    let mut to: usize = s.len();
    assert(s@.subrange(from as int, to as int) =~= t);
    while to > from && char_is_space(s[to - 1])
        invariant
            from <= to <= s@.len(),
            trim_end(s@.subrange(from as int, to as int)) == trim_end(t),
        decreases to - from,
    {
        assert(s@.subrange(from as int, to as int).drop_last() =~= s@.subrange(
            from as int,
            to - 1,
        ));
        to -= 1;
    }
    part_of(s, from, to)
}

/// The first character after white space is `c`.
pub open spec fn first_is(s: Seq<char>, c: char) -> bool {
    trim_start(s).len() > 0 && trim_start(s)[0] == c
}

/// Whether the first character after white space is `c`.
pub fn has_first(s: &Vec<char>, c: char) -> (r: bool)
    ensures
        r == first_is(s@, c),
{
    let mut from: usize = 0;
    assert(s@.skip(0) =~= s@);
    while from < s.len() && char_is_space(s[from])
        invariant
            from <= s@.len(),
            trim_start(s@.skip(from as int)) == trim_start(s@),
        decreases s@.len() - from,
    {
        assert(s@.skip(from as int).skip(1) =~= s@.skip(from + 1));
        from += 1;
    }
    assert(trim_start(s@) == s@.skip(from as int));
    from < s.len() && s[from] == c
}

/// The text starts with a prefix.
pub open spec fn has_prefix(s: Seq<char>, prefix: Seq<char>) -> bool {
    s.len() >= prefix.len() && s.take(prefix.len() as int) == prefix
}

/// Whether a text starts with a prefix.
pub fn starts_with(s: &Vec<char>, prefix: &str) -> (r: bool)
    ensures
        r == has_prefix(s@, prefix@),
{
    let p = chars_of(prefix);
    if s.len() < p.len() {
        return false;
    }
    let mut k: usize = 0;
    while k < p.len()
        invariant
            k <= p@.len() <= s@.len(),
            p@ == prefix@,
            forall|j: int| 0 <= j < k ==> s@[j] == p@[j],
        decreases p@.len() - k,
    {
        if s[k] != p[k] {
            assert(s@.take(p@.len() as int)[k as int] != p@[k as int]);
            return false;
        }
        k += 1;
    }
    assert(s@.take(p@.len() as int) =~= p@);
    true
}

/// Whether two texts are the same.
pub fn same_text(a: &str, b: &str) -> (r: bool)
    ensures
        r == (a@ == b@),
{
    let (x, y) = (chars_of(a), chars_of(b));
    if x.len() != y.len() {
        return false;
    }
    let mut k: usize = 0;
    while k < x.len()
        invariant
            x@ == a@,
            y@ == b@,
            k <= x@.len(),
            x@.len() == y@.len(),
            forall|j: int| 0 <= j < k ==> x@[j] == y@[j],
        decreases x@.len() - k,
    {
        if x[k] != y[k] {
            assert(a@[k as int] != b@[k as int]);
            return false;
        }
        k += 1;
    }
    assert(x@ =~= y@);
    true
}

/// Whether a character is in a text.
pub fn has_char(s: &Vec<char>, c: char) -> (r: bool)
    ensures
        r == s@.contains(c),
{
    let mut k: usize = 0;
    while k < s.len()
        invariant
            k <= s@.len(),
            forall|j: int| 0 <= j < k ==> s@[j] != c,
        decreases s@.len() - k,
    {
        if s[k] == c {
            assert(s@[k as int] == c);
            return true;
        }
        k += 1;
    }
    false
}

// ── Numbers ───────────────────────────────────────────────────────────────

/// The number that decimal digits stand for.
pub open spec fn digits_value(s: Seq<char>) -> int
    decreases s.len(),
{
    if s.len() == 0 {
        0
    } else {
        10 * digits_value(s.drop_last()) + (s.last() as int - 48)
    }
}

/// All characters are decimal digits.
pub open spec fn all_digits(s: Seq<char>) -> bool {
    forall|k: int| 0 <= k < s.len() ==> '0' <= #[trigger] s[k] <= '9'
}

/// The digits of a number that may have a sign before them.
pub open spec fn unsigned_part(s: Seq<char>) -> Seq<char> {
    if s.len() > 0 && s[0] == '+' {
        s.skip(1)
    } else {
        s
    }
}

/// The 32-bit number that a text stands for: digits, with or without a plus sign before them.
pub open spec fn u32_value(s: Seq<char>) -> Option<int> {
    let d = unsigned_part(s);
    if d.len() > 0 && all_digits(d) && digits_value(d) <= u32::MAX {
        Some(digits_value(d))
    } else {
        None
    }
}

proof fn lemma_digits_grow(s: Seq<char>, k: int)
    requires
        0 <= k <= s.len(),
        all_digits(s),
    ensures
        0 <= digits_value(s.take(k)) <= digits_value(s),
    decreases s.len() - k,
{
    if k < s.len() {
        lemma_digits_grow(s, k + 1);
        assert(s.take(k + 1).drop_last() =~= s.take(k));
        assert('0' <= s[k] <= '9');
        lemma_digits_nonnegative(s.take(k));
    } else {
        assert(s.take(k) =~= s);
        lemma_digits_nonnegative(s);
    }
}

proof fn lemma_digits_nonnegative(s: Seq<char>)
    requires
        all_digits(s),
    ensures
        0 <= digits_value(s),
    decreases s.len(),
{
    if s.len() > 0 {
        assert('0' <= s[s.len() - 1] <= '9');
        lemma_digits_nonnegative(s.drop_last());
    }
}

/// The number that a digit stands for.
fn digit_value(c: char) -> (r: Option<u32>)
    ensures
        match r {
            Some(v) => '0' <= c <= '9' && v == c as int - 48,
            None => !('0' <= c <= '9'),
        },
{
    let n = c as u32;
    if 48 <= n && n <= 57 {
        Some(n - 48)
    } else {
        None
    }
}

/// The 32-bit number that a text stands for.
pub fn parse_u32(text: &str) -> (r: Option<u32>)
    ensures
        match r {
            Some(n) => u32_value(text@) == Some(n as int),
            None => u32_value(text@) is None,
        },
{
    let s = chars_of(text);
    let start: usize = if s.len() > 0 && s[0] == '+' {
        1
    } else {
        0
    };
    let d = part_of(&s, start, s.len());
    assert(d@ =~= unsigned_part(s@));
    if d.len() == 0 {
        return None;
    }
    let mut n: u32 = 0;
    let mut k: usize = 0;
    assert(d@.take(0) =~= Seq::<char>::empty());
    while k < d.len()
        invariant
            k <= d@.len(),
            d@ == unsigned_part(text@),
            forall|j: int| 0 <= j < k ==> '0' <= #[trigger] d@[j] <= '9',
            n == digits_value(d@.take(k as int)),
        decreases d@.len() - k,
    {
        let digit = match digit_value(d[k]) {
            Some(v) => v,
            None => {
                assert(!('0' <= d@[k as int] <= '9'));
                return None;
            },
        };
        let next: u64 = n as u64 * 10 + digit as u64;
        proof {
            assert(d@.take(k + 1).drop_last() =~= d@.take(k as int));
            assert(next == digits_value(d@.take(k + 1)));
        }
        if next > u32::MAX as u64 {
            proof {
                if all_digits(d@) {
                    lemma_digits_grow(d@, k + 1);
                }
            }
            return None;
        }
        n = next as u32;
        k += 1;
    }
    assert(d@.take(k as int) =~= d@);
    Some(n)
}

// ── Laws ──────────────────────────────────────────────────────────────────

/// A number in decimal is made of digits, starts with a zero only if it is zero, and is read back
/// as it was written.
pub proof fn law_decimal_is_read_back(n: nat)
    ensures
        decimal(n).len() > 0,
        all_digits(decimal(n)),
        n > 0 ==> decimal(n)[0] != '0',
        digits_value(decimal(n)) == n,
        u32_value(decimal(n)) == (if n <= u32::MAX {
            Some(n as int)
        } else {
            None
        }),
    decreases n,
{
    if n >= 10 {
        law_decimal_is_read_back(n / 10);
        let before = decimal(n / 10);
        assert(decimal(n).drop_last() =~= before);
        assert(decimal(n)[0] == before[0]);
        assert forall|k: int| 0 <= k < decimal(n).len() implies '0' <= #[trigger] decimal(n)[k]
            <= '9' by {
            if k < before.len() {
                assert(decimal(n)[k] == before[k]);
            }
        }
    } else {
        assert(decimal(n).drop_last() =~= Seq::<char>::empty());
        assert(digits_value(decimal(n).drop_last()) == 0);
    }
    let s = decimal(n);
    assert('0' <= s[0] <= '9');
}

/// The last digit of a number is that of its units, and the digits before it are those of its tens.
pub proof fn law_decimal_digits(n: nat, d: nat)
    requires
        d < 10,
    ensures
        n > 0 ==> decimal(10 * n + d) == decimal(n).push("0123456789"@[d as int]),
        decimal(d) == seq!["0123456789"@[d as int]],
{
    reveal_strlit("0123456789");
    assert((10 * n + d) / 10 == n && (10 * n + d) % 10 == d);
}

/// A text is what is left of it with white space before and after. What is left neither starts nor
/// ends with white space.
pub proof fn law_trim_takes_white_space_alone(s: Seq<char>) -> (r: (int, int))
    ensures
        0 <= r.0 <= r.1 <= s.len(),
        trim(s) == s.subrange(r.0, r.1),
        forall|k: int| 0 <= k < r.0 ==> is_space(#[trigger] s[k]),
        forall|k: int| r.1 <= k < s.len() ==> is_space(#[trigger] s[k]),
        trim(s).len() > 0 ==> !is_space(trim(s)[0]) && !is_space(trim(s).last()),
{
    let i = lemma_trim_start(s);
    let t = s.skip(i);
    let n = lemma_trim_end(t);
    assert(t.take(n) =~= s.subrange(i, i + n));
    assert forall|k: int| i + n <= k < s.len() implies is_space(#[trigger] s[k]) by {
        assert(t[k - i] == s[k]);
    }
    assert(trim(s).len() > 0 ==> trim(s)[0] == t[0]);
    (i, i + n)
}

proof fn lemma_trim_start(s: Seq<char>) -> (i: int)
    ensures
        0 <= i <= s.len(),
        trim_start(s) == s.skip(i),
        forall|k: int| 0 <= k < i ==> is_space(#[trigger] s[k]),
        i < s.len() ==> !is_space(s[i]),
    decreases s.len(),
{
    if s.len() > 0 && is_space(s[0]) {
        let t = s.skip(1);
        let i = lemma_trim_start(t);
        assert(t.skip(i) =~= s.skip(i + 1));
        assert forall|k: int| 0 <= k < i + 1 implies is_space(#[trigger] s[k]) by {
            if k > 0 {
                assert(t[k - 1] == s[k]);
            }
        }
        i + 1
    } else {
        assert(s.skip(0) =~= s);
        0
    }
}

proof fn lemma_trim_end(s: Seq<char>) -> (n: int)
    ensures
        0 <= n <= s.len(),
        trim_end(s) == s.take(n),
        forall|k: int| n <= k < s.len() ==> is_space(#[trigger] s[k]),
        n > 0 ==> !is_space(s[n - 1]),
    decreases s.len(),
{
    if s.len() > 0 && is_space(s.last()) {
        let t = s.drop_last();
        let n = lemma_trim_end(t);
        assert(t.take(n) =~= s.take(n));
        assert forall|k: int| n <= k < s.len() implies is_space(#[trigger] s[k]) by {
            if k < t.len() {
                assert(t[k] == s[k]);
            }
        }
        n
    } else {
        assert(s.take(s.len() as int) =~= s);
        s.len() as int
    }
}

/// A text without white space at its ends is left as it is, and one with white space before it is
/// the same as without.
pub proof fn law_trim_keeps_the_rest(s: Seq<char>)
    ensures
        s.len() > 0 && !is_space(s[0]) && !is_space(s.last()) ==> trim(s) == s,
        trim(trim(s)) == trim(s),
        trim(seq![' '] + s) == trim(s),
{
    let t = trim(s);
    let (i, j) = law_trim_takes_white_space_alone(s);
    if t.len() > 0 {
        assert(trim_start(t) == t && trim_end(t) == t);
    } else {
        assert(t =~= Seq::<char>::empty());
    }
    let u = seq![' '] + s;
    assert(u.skip(1) =~= s);
    assert(is_space(u[0]));
}

proof fn lemma_line_end_skip(s: Seq<char>, i: int, k: int)
    requires
        0 <= i <= s.len(),
        0 <= k,
    ensures
        line_end(s.skip(i), k) + i == line_end(s, i + k),
    decreases s.len() - i - k,
{
    if i + k < s.len() && s[i + k] != '\n' {
        assert(s.skip(i)[k] == s[i + k]);
        lemma_line_end_skip(s, i, k + 1);
    } else if i + k < s.len() {
        assert(s.skip(i)[k] == s[i + k]);
    }
}

proof fn lemma_lines_skip(s: Seq<char>, i: int, k: int)
    requires
        0 <= i <= s.len(),
        0 <= k,
    ensures
        lines_from(s.skip(i), k) == lines_from(s, i + k),
    decreases s.len() - i - k,
{
    let t = s.skip(i);
    if k < t.len() {
        lemma_line_end(t, k);
        lemma_line_end_skip(s, i, k);
        let e = line_end(t, k);
        assert(t.subrange(k, e) =~= s.subrange(i + k, i + e));
        if e < t.len() {
            lemma_lines_skip(s, i, e + 1);
        }
    }
}

/// The first line of a text is what is before the first line feed, without a carriage return at its
/// end, and the other lines are those of the rest. A text without line feeds is one line.
pub proof fn law_lines_end_at_line_feeds(line: Seq<char>, rest: Seq<char>)
    requires
        !line.contains('\n'),
    ensures
        line.len() > 0 ==> lines(line) == seq![line],
        !(line.len() > 0 && line.last() == '\r') ==> lines(line + seq!['\n'] + rest) == seq![line]
            + lines(rest),
        lines(line + seq!['\r', '\n'] + rest) == seq![line] + lines(rest),
        lines(Seq::<char>::empty()) == Seq::<Seq<char>>::empty(),
{
    lemma_first_line(line, rest);
    if line.len() > 0 {
        lemma_line_end(line, 0);
        let e = line_end(line, 0);
        if e < line.len() {
            assert(line.contains(line[e]));
        }
        assert(line.subrange(0, e) =~= line);
    }
    let longer = line.push('\r');
    if longer.contains('\n') {
        let k = choose|k: int| 0 <= k < longer.len() && longer[k] == '\n';
        assert(line.contains(line[k]));
    }
    lemma_first_line(longer, rest);
    assert(longer + seq!['\n'] + rest =~= line + seq!['\r', '\n'] + rest);
    assert(longer.drop_last() =~= line);
}

proof fn lemma_first_line(line: Seq<char>, rest: Seq<char>)
    requires
        !line.contains('\n'),
    ensures
        lines(line + seq!['\n'] + rest) == seq![strip_cr(line)] + lines(rest),
{
    let s = line + seq!['\n'] + rest;
    let n = line.len() as int;
    lemma_line_end(s, 0);
    let e = line_end(s, 0);
    if e < n {
        assert(line[e] == s[e]);
        assert(line.contains(line[e]));
    }
    assert(s[n] == '\n');
    assert(e == n);
    assert(s.subrange(0, e) =~= line);
    lemma_lines_skip(s, n + 1, 0);
    assert(s.skip(n + 1) =~= rest);
}

/// A line that is found again where lines are joined: it has characters, none of them ends a line.
pub open spec fn is_line(s: Seq<char>) -> bool {
    s.len() > 0 && !s.contains('\n') && s.last() != '\r'
}

proof fn lemma_joined_more(parts: Seq<Seq<char>>, separator: char)
    requires
        parts.len() > 1,
    ensures
        joined(parts, separator) == parts[0] + seq![separator] + joined(
            parts.skip(1),
            separator,
        ),
    decreases parts.len(),
{
    let less = parts.drop_last();
    if parts.len() == 2 {
        assert(joined(less, separator) == parts[0]);
        assert(joined(parts.skip(1), separator) == parts[1]);
        assert(joined(parts, separator) =~= parts[0] + seq![separator] + parts[1]);
    } else {
        lemma_joined_more(less, separator);
        assert(less.skip(1) =~= parts.skip(1).drop_last());
        assert(joined(parts, separator) =~= parts[0] + seq![separator] + joined(
            parts.skip(1),
            separator,
        ));
    }
}

/// Lines that are joined with line feeds are found again, with or without one at the end.
pub proof fn law_joined_lines_are_found_again(parts: Seq<Seq<char>>)
    requires
        forall|k: int| 0 <= k < parts.len() ==> is_line(#[trigger] parts[k]),
    ensures
        lines(joined(parts, '\n')) == parts,
        parts.len() > 0 ==> lines(joined(parts, '\n').push('\n')) == parts,
    decreases parts.len(),
{
    let none: Seq<char> = Seq::empty();
    if parts.len() == 0 {
        assert(lines(none) =~= parts);
    } else {
        let first = parts[0];
        assert(is_line(first));
        law_lines_end_at_line_feeds(first, none);
        if parts.len() == 1 {
            assert(seq![first] =~= parts);
            assert(first + seq!['\n'] + none =~= first.push('\n'));
            assert(lines(first.push('\n')) =~= parts);
        } else {
            let rest = parts.skip(1);
            assert forall|k: int| 0 <= k < rest.len() implies is_line(#[trigger] rest[k]) by {
                assert(rest[k] == parts[k + 1]);
            }
            law_joined_lines_are_found_again(rest);
            lemma_joined_more(parts, '\n');
            law_lines_end_at_line_feeds(first, joined(rest, '\n'));
            law_lines_end_at_line_feeds(first, joined(rest, '\n').push('\n'));
            assert(seq![first] + rest =~= parts);
            assert(first + seq!['\n'] + joined(rest, '\n').push('\n') =~= joined(
                parts,
                '\n',
            ).push('\n'));
        }
    }
}

/// A text is a number if it is made of digits, one at least, after a plus sign or none; zeros before
/// the other digits change nothing.
pub proof fn law_numbers_are_digits(s: Seq<char>)
    ensures
        u32_value(seq!['+'] + s) == (if s.len() > 0 && s[0] == '+' {
            None
        } else {
            u32_value(s)
        }),
        s.len() > 0 && s[0] != '+' ==> u32_value(seq!['0'] + s) == u32_value(s),
        u32_value(Seq::empty()) is None,
        s.len() > 0 && s[0] != '+' && !all_digits(s) ==> u32_value(s) is None,
{
    assert((seq!['+'] + s).skip(1) =~= s);
    if s.len() > 0 && s[0] != '+' {
        let t = seq!['0'] + s;
        lemma_zero_before(s);
        if all_digits(s) {
            assert forall|k: int| 0 <= k < t.len() implies '0' <= #[trigger] t[k] <= '9' by {
                if k > 0 {
                    assert(t[k] == s[k - 1]);
                }
            }
        } else {
            let k = choose|k: int| 0 <= k < s.len() && !('0' <= #[trigger] s[k] <= '9');
            assert(t[k + 1] == s[k]);
        }
    }
    if s.len() > 0 && s[0] == '+' {
        assert(!('0' <= s[0] <= '9'));
    }
}

proof fn lemma_zero_before(s: Seq<char>)
    ensures
        digits_value(seq!['0'] + s) == digits_value(s),
    decreases s.len(),
{
    let t = seq!['0'] + s;
    if s.len() > 0 {
        lemma_zero_before(s.drop_last());
        assert(t.drop_last() =~= seq!['0'] + s.drop_last());
        assert(t.last() == s.last());
    } else {
        assert(t =~= seq!['0']);
        assert(t.drop_last() =~= Seq::empty());
        assert(digits_value(t.drop_last()) == 0);
    }
}

} // verus!

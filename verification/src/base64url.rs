//! Base64 with the URL and filename safe alphabet, without padding.

use vstd::prelude::*;

use crate::text::chars_of;

verus! {

/// The character for a number below 64.
pub open spec fn symbol(v: int) -> char {
    if v < 26 {
        (65 + v) as char
    } else if v < 52 {
        (71 + v) as char
    } else if v < 62 {
        (v - 4) as char
    } else if v == 62 {
        '-'
    } else {
        '_'
    }
}

/// The number that a character stands for.
pub open spec fn symbol_value(c: char) -> Option<int> {
    if 'A' <= c <= 'Z' {
        Some(c as int - 65)
    } else if 'a' <= c <= 'z' {
        Some(c as int - 71)
    } else if '0' <= c <= '9' {
        Some(c as int + 4)
    } else if c == '-' {
        Some(62)
    } else if c == '_' {
        Some(63)
    } else {
        None
    }
}

/// A byte, 0 past the end.
pub open spec fn byte_or_zero(bytes: Seq<u8>, i: int) -> int {
    if 0 <= i < bytes.len() {
        bytes[i] as int
    } else {
        0
    }
}

/// Group `k` of six bits.
pub open spec fn sextet(bytes: Seq<u8>, k: int) -> int {
    let i = 3 * (k / 4);
    if k % 4 == 0 {
        byte_or_zero(bytes, i) / 4
    } else if k % 4 == 1 {
        byte_or_zero(bytes, i) % 4 * 16 + byte_or_zero(bytes, i + 1) / 16
    } else if k % 4 == 2 {
        byte_or_zero(bytes, i + 1) % 16 * 4 + byte_or_zero(bytes, i + 2) / 64
    } else {
        byte_or_zero(bytes, i + 2) % 64
    }
}

/// Some bytes in base64: a character for each group of six bits, the last filled up with zeros.
pub open spec fn base64(bytes: Seq<u8>) -> Seq<char> {
    Seq::new(((4 * bytes.len() + 2) / 3) as nat, |k: int| symbol(sextet(bytes, k)))
}

/// Every character stands for a number.
pub open spec fn is_base64(s: Seq<char>) -> bool {
    forall|k: int| 0 <= k < s.len() ==> (#[trigger] symbol_value(s[k])) is Some
}

/// The number that character `k` stands for.
pub open spec fn value_at(s: Seq<char>, k: int) -> int {
    symbol_value(s[k])->0
}

/// Byte `j` of the bits that the characters stand for.
pub open spec fn octet(s: Seq<char>, j: int) -> int {
    let k = 4 * (j / 3);
    if j % 3 == 0 {
        value_at(s, k) * 4 + value_at(s, k + 1) / 16
    } else if j % 3 == 1 {
        value_at(s, k + 1) % 16 * 16 + value_at(s, k + 2) / 4
    } else {
        value_at(s, k + 2) % 4 * 64 + value_at(s, k + 3)
    }
}

/// The whole bytes that the characters stand for.
pub open spec fn bytes_of(s: Seq<char>) -> Seq<u8> {
    Seq::new((3 * s.len() / 4) as nat, |j: int| octet(s, j) as u8)
}

fn symbol_for(v: u8) -> (c: char)
    requires
        v < 64,
    ensures
        c == symbol(v as int),
{
    if v < 26 {
        (65 + v) as char
    } else if v < 52 {
        (71 + v) as char
    } else if v < 62 {
        (v - 4) as char
    } else if v == 62 {
        '-'
    } else {
        '_'
    }
}

fn value_of(c: char) -> (r: Option<u8>)
    ensures
        match r {
            Some(v) => symbol_value(c) == Some(v as int) && v < 64,
            None => symbol_value(c) is None,
        },
{
    let n = c as u32;
    if 65 <= n && n <= 90 {
        Some((n - 65) as u8)
    } else if 97 <= n && n <= 122 {
        Some((n - 71) as u8)
    } else if 48 <= n && n <= 57 {
        Some((n + 4) as u8)
    } else if c == '-' {
        Some(62)
    } else if c == '_' {
        Some(63)
    } else {
        None
    }
}

/// Some bytes in base64.
pub fn to_base64url(bytes: &[u8]) -> (out: String)
    ensures
        out@ == base64(bytes@),
{
    let ghost all = base64(bytes@);
    let n = bytes.len();
    let mut out = String::new();
    let mut i: usize = 0;
    let ghost mut k: int = 0;
    assert(out@ =~= all.take(0));
    while i < n
        invariant
            n == bytes@.len(),
            all == base64(bytes@),
            i <= n,
            0 <= k,
            i < n ==> i == 3 * (k / 4) && k % 4 == 0,
            i == n ==> k == all.len(),
            k <= all.len(),
            out@ == all.take(k),
        decreases n - i,
    {
        let b0 = bytes[i];
        let b1: u8 = if n - i > 1 {
            bytes[i + 1]
        } else {
            0
        };
        let b2: u8 = if n - i > 2 {
            bytes[i + 2]
        } else {
            0
        };
        let ghost k0 = k;
        proof {
            assert((k0 + 1) / 4 == k0 / 4 && (k0 + 2) / 4 == k0 / 4 && (k0 + 3) / 4 == k0 / 4);
        }
        let c0 = symbol_for(b0 / 4);
        out.push(c0);
        proof {
            assert(all[k0] == c0);
            assert(all.take(k0 + 1) =~= all.take(k0).push(c0));
        }
        let c1 = symbol_for(b0 % 4 * 16 + b1 / 16);
        out.push(c1);
        proof {
            assert(all[k0 + 1] == c1);
            assert(all.take(k0 + 2) =~= all.take(k0 + 1).push(c1));
        }
        if n - i > 1 {
            let c2 = symbol_for(b1 % 16 * 4 + b2 / 64);
            out.push(c2);
            proof {
                assert(all[k0 + 2] == c2);
                assert(all.take(k0 + 3) =~= all.take(k0 + 2).push(c2));
            }
        }
        if n - i > 2 {
            let c3 = symbol_for(b2 % 64);
            out.push(c3);
            proof {
                assert(all[k0 + 3] == c3);
                assert(all.take(k0 + 4) =~= all.take(k0 + 3).push(c3));
                k = k0 + 4;
            }
            i += 3;
        } else {
            proof {
                k = all.len() as int;
            }
            i = n;
        }
    }
    assert(all.take(k) =~= all);
    out
}

/// The bytes that some base64 stands for; `None` when a character is not of the alphabet.
pub fn from_base64url_clean(s: &str) -> (r: Option<Vec<u8>>)
    ensures
        match r {
            Some(bytes) => is_base64(s@) && bytes@ == bytes_of(s@),
            None => !is_base64(s@),
        },
{
    decode_chars(&chars_of(s))
}

/// The bytes that some base64 stands for; `None` when a character is not of the alphabet.
pub fn decode_chars(chars: &Vec<char>) -> (r: Option<Vec<u8>>)
    ensures
        match r {
            Some(bytes) => is_base64(chars@) && bytes@ == bytes_of(chars@),
            None => !is_base64(chars@),
        },
{
    let ghost s = chars@;
    let n = chars.len();
    let mut out: Vec<u8> = Vec::new();
    let mut buf: u8 = 0;
    let mut phase: u8 = 0;
    let mut k: usize = 0;
    while k < n
        invariant
            n == s.len(),
            s == chars@,
            k <= n,
            phase < 4,
            phase == k % 4,
            forall|j: int| 0 <= j < k ==> (#[trigger] symbol_value(s[j])) is Some,
            phase != 0 ==> value_at(s, k - 1) == buf && buf < 64,
            out@ == bytes_of(s.take(k as int)),
        decreases n - k,
    {
        match value_of(chars[k]) {
            None => {
                assert(symbol_value(s[k as int]) is None);
                return None;
            },
            Some(v) => {
                let ghost before = s.take(k as int);
                let ghost after = s.take(k + 1);
                let ghost old_out = out@;
                assert(value_at(s, k as int) == v);
                if phase == 1 {
                    out.push(buf * 4 + v / 16);
                } else if phase == 2 {
                    out.push(buf % 16 * 16 + v / 4);
                } else if phase == 3 {
                    out.push(buf % 4 * 64 + v);
                }
                proof {
                    assert forall|j: int| 0 <= j < k implies value_at(after, j) == #[trigger] value_at(
                        before,
                        j,
                    ) by {
                        assert(after[j] == before[j]);
                    }
                    lemma_bytes_step(s, k as int);
                    assert(out@ =~= bytes_of(after));
                }
                buf = v;
                phase = if phase == 3 {
                    0
                } else {
                    phase + 1
                };
                k += 1;
            },
        }
    }
    assert(s.take(k as int) =~= s);
    Some(out)
}

/// The bytes after one more character.
proof fn lemma_bytes_step(s: Seq<char>, k: int)
    requires
        0 <= k < s.len(),
    ensures
        bytes_of(s.take(k + 1)) == (if k % 4 == 0 {
            bytes_of(s.take(k))
        } else {
            bytes_of(s.take(k)).push(octet(s.take(k + 1), 3 * k / 4) as u8)
        }),
        k % 4 == 1 ==> octet(s.take(k + 1), 3 * k / 4) == value_at(s, k - 1) * 4 + value_at(s, k) / 16,
        k % 4 == 2 ==> octet(s.take(k + 1), 3 * k / 4) == value_at(s, k - 1) % 16 * 16 + value_at(
            s,
            k,
        ) / 4,
        k % 4 == 3 ==> octet(s.take(k + 1), 3 * k / 4) == value_at(s, k - 1) % 4 * 64 + value_at(
            s,
            k,
        ),
{
    let a = s.take(k);
    let b = s.take(k + 1);
    assert forall|j: int| 0 <= j < 3 * k / 4 implies octet(b, j) == octet(a, j) by {
        let q = 4 * (j / 3);
        assert(j % 3 == 0 ==> q + 1 < k);
        assert(j % 3 == 1 ==> q + 2 < k);
        assert(j % 3 == 2 ==> q + 3 < k);
    }
    if k % 4 == 0 {
        assert(3 * (k + 1) / 4 == 3 * k / 4);
        assert(bytes_of(b) =~= bytes_of(a));
    } else {
        assert(3 * (k + 1) / 4 == 3 * k / 4 + 1);
        assert(bytes_of(b) =~= bytes_of(a).push(octet(b, 3 * k / 4) as u8));
    }
}

// ── Laws ──────────────────────────────────────────────────────────────────

proof fn lemma_symbol(v: int)
    requires
        0 <= v < 64,
    ensures
        symbol_value(symbol(v)) == Some(v),
{
}

proof fn lemma_sextet(bytes: Seq<u8>, k: int)
    requires
        0 <= k,
    ensures
        0 <= sextet(bytes, k) < 64,
{
}

/// Decoding what was encoded gives the bytes back.
pub proof fn law_base64_round_trip(bytes: Seq<u8>)
    ensures
        is_base64(base64(bytes)),
        bytes_of(base64(bytes)) == bytes,
{
    let s = base64(bytes);
    let n = bytes.len() as int;
    assert forall|k: int| 0 <= k < s.len() implies (#[trigger] symbol_value(s[k])) is Some
        && value_at(s, k) == sextet(bytes, k) by {
        lemma_sextet(bytes, k);
        lemma_symbol(sextet(bytes, k));
    }
    assert(3 * s.len() / 4 == n);
    assert forall|j: int| 0 <= j < n implies octet(s, j) == bytes[j] by {
        let q = j / 3;
        let k = 4 * q;
        assert(3 * (k / 4) == 3 * q);
        assert((k + 1) / 4 == q && (k + 2) / 4 == q && (k + 3) / 4 == q);
        assert((k + 1) % 4 == 1 && (k + 2) % 4 == 2 && (k + 3) % 4 == 3);
        assert(j % 3 == 0 ==> k + 1 < s.len());
        assert(j % 3 == 1 ==> k + 2 < s.len());
        assert(j % 3 == 2 ==> k + 3 < s.len());
        if j % 3 == 0 {
            assert(symbol_value(s[k]) is Some && symbol_value(s[k + 1]) is Some);
        } else if j % 3 == 1 {
            assert(symbol_value(s[k + 1]) is Some && symbol_value(s[k + 2]) is Some);
        } else {
            assert(symbol_value(s[k + 2]) is Some && symbol_value(s[k + 3]) is Some);
        }
    }
    assert(bytes_of(s) =~= bytes);
}

/// The alphabet, in the order of the numbers that its characters stand for.
pub open spec fn alphabet() -> Seq<char> {
    "ABCDEFGHIJKLMNOPQRSTUVWXYZabcdefghijklmnopqrstuvwxyz0123456789-_"@
}

/// The character for a number is the one at that place in the alphabet, and a character stands for
/// the place at which it is in the alphabet, if it is.
pub proof fn law_symbols_are_those_of_the_alphabet(v: int, c: char)
    ensures
        alphabet().len() == 64,
        0 <= v < 64 ==> symbol(v) == alphabet()[v],
        symbol_value(c) == Some(v) <==> 0 <= v < 64 && alphabet()[v] == c,
{
    reveal_strlit("ABCDEFGHIJKLMNOPQRSTUVWXYZabcdefghijklmnopqrstuvwxyz0123456789-_");
    let n = c as int;
    if 0 <= v < 64 {
        lemma_alphabet(v);
        lemma_symbol(v);
    }
    if let Some(u) = symbol_value(c) {
        assert(0 <= u < 64);
        lemma_alphabet(u);
        assert(symbol(u) == c);
    }
}

proof fn lemma_alphabet(v: int)
    requires
        0 <= v < 64,
    ensures
        symbol(v) == alphabet()[v],
{
    reveal_strlit("ABCDEFGHIJKLMNOPQRSTUVWXYZabcdefghijklmnopqrstuvwxyz0123456789-_");
}

/// Character `k` of a text is number `v` of the alphabet.
pub open spec fn shows(text: Seq<char>, k: int, v: int) -> bool {
    0 <= v < 64 && 0 <= k < text.len() && text[k] == alphabet()[v]
}

/// Encoding turns each three bytes into the four characters for the same 24 bits. One or two bytes
/// at the end become two or three characters, their bits followed by zeros.
pub proof fn law_encoding_keeps_the_bits(bytes: Seq<u8>, q: int) -> (v: (int, int, int, int))
    requires
        0 <= 3 * q < bytes.len(),
    ensures
        ({
            let text = base64(bytes);
            let left = bytes.len() - 3 * q;
            let (a, b, c) = (
                bytes[3 * q] as int,
                (if left >= 2 {
                    bytes[3 * q + 1] as int
                } else {
                    0
                }),
                (if left >= 3 {
                    bytes[3 * q + 2] as int
                } else {
                    0
                }),
            );
            &&& shows(text, 4 * q, v.0) && shows(text, 4 * q + 1, v.1)
            &&& left >= 2 ==> shows(text, 4 * q + 2, v.2)
            &&& left >= 3 ==> shows(text, 4 * q + 3, v.3)
            &&& left == 1 ==> text.len() == 4 * q + 2 && v.2 == 0 && v.3 == 0
            &&& left == 2 ==> text.len() == 4 * q + 3 && v.3 == 0
            &&& left == 3 ==> text.len() == 4 * q + 4
            &&& 0x4_0000 * v.0 + 0x1000 * v.1 + 0x40 * v.2 + v.3 == 0x1_0000 * a + 0x100 * b + c
        }),
{
    let text = base64(bytes);
    let k = 4 * q;
    assert(k / 4 == q && (k + 1) / 4 == q && (k + 2) / 4 == q && (k + 3) / 4 == q);
    assert(k % 4 == 0 && (k + 1) % 4 == 1 && (k + 2) % 4 == 2 && (k + 3) % 4 == 3);
    let v = (
        sextet(bytes, k),
        sextet(bytes, k + 1),
        sextet(bytes, k + 2),
        sextet(bytes, k + 3),
    );
    lemma_alphabet(v.0);
    lemma_alphabet(v.1);
    lemma_alphabet(v.2);
    lemma_alphabet(v.3);
    v
}

/// Decoding turns each four characters into the three bytes of the same 24 bits. Two or three
/// characters at the end become one or two bytes, and a single one is dropped.
pub proof fn law_decoding_keeps_the_bits(text: Seq<char>, q: int, v: (int, int, int, int))
    requires
        0 <= 4 * q,
        4 * q + 1 < text.len(),
        shows(text, 4 * q, v.0),
        shows(text, 4 * q + 1, v.1),
        4 * q + 2 < text.len() ==> shows(text, 4 * q + 2, v.2),
        4 * q + 3 < text.len() ==> shows(text, 4 * q + 3, v.3),
    ensures
        ({
            let bytes = bytes_of(text);
            let left = text.len() - 4 * q;
            let a = bytes[3 * q] as int;
            let b = bytes[3 * q + 1] as int;
            let c = bytes[3 * q + 2] as int;
            &&& left == 2 ==> bytes.len() == 3 * q + 1 && a == (0x40 * v.0 + v.1) / 16
            &&& left == 3 ==> bytes.len() == 3 * q + 2 && 0x100 * a + b == (0x1000 * v.0 + 0x40
                * v.1 + v.2) / 4
            &&& left >= 4 ==> bytes.len() >= 3 * q + 3 && 0x1_0000 * a + 0x100 * b + c == 0x4_0000
                * v.0 + 0x1000 * v.1 + 0x40 * v.2 + v.3
        }),
{
    let j = 3 * q;
    assert(j / 3 == q && (j + 1) / 3 == q && (j + 2) / 3 == q);
    assert(j % 3 == 0 && (j + 1) % 3 == 1 && (j + 2) % 3 == 2);
    law_symbols_are_those_of_the_alphabet(v.0, text[4 * q]);
    law_symbols_are_those_of_the_alphabet(v.1, text[4 * q + 1]);
    law_symbols_are_those_of_the_alphabet(v.2, text[4 * q + 2]);
    law_symbols_are_those_of_the_alphabet(v.3, text[4 * q + 3]);
}

/// A text is base64 exactly when all its characters are in the alphabet.
pub proof fn law_base64_is_text_of_the_alphabet(text: Seq<char>)
    ensures
        is_base64(text) <==> forall|k: int|
            0 <= k < text.len() ==> alphabet().contains(#[trigger] text[k]),
{
    assert forall|k: int| 0 <= k < text.len() implies (#[trigger] symbol_value(text[k]) is Some
        <==> alphabet().contains(text[k])) by {
        let c = text[k];
        if let Some(v) = symbol_value(c) {
            law_symbols_are_those_of_the_alphabet(v, c);
        }
        if alphabet().contains(c) {
            let v = choose|v: int| 0 <= v < alphabet().len() && alphabet()[v] == c;
            law_symbols_are_those_of_the_alphabet(v, c);
        }
    }
    if is_base64(text) {
        assert forall|k: int| 0 <= k < text.len() implies alphabet().contains(
            #[trigger] text[k],
        ) by {
            assert(symbol_value(text[k]) is Some);
        }
    }
}

} // verus!

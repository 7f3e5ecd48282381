//! Levels in URL fragments.
//!
//! A fragment is `v1-` and the base64 of a payload: the version, a byte of flags, the bytes of the
//! level, and then the title and the author, each ended by a zero byte, as far as the flags say
//! that they are there.

use vstd::prelude::*;
use vstd::slice::slice_subrange;
use vstd::string::StringExecFns;
use vstd::utf8::{decode_utf8, encode_utf8, valid_utf8};

use crate::base64url::{
    base64, bytes_of, decode_chars, is_base64, law_base64_round_trip, to_base64url,
};
use crate::bitplane::{cell_count, plane_bytes};
use crate::level::{LevelError, SokobanLevel};
use crate::text::{chars_of, part_of};
use crate::wire::{law_bytes_round_trip, wire, wire_body, wire_error, wire_reads};

verus! {

/// The text that `String::from_utf8_lossy` makes of some bytes.
pub uninterp spec fn lossy_text(bytes: Seq<u8>) -> Seq<char>;

/// Calls `String::from_utf8_lossy`. Of bytes that are valid UTF-8 it gives the text that they
/// encode; what it puts in the place of bytes that are not is left to the name.
#[verifier::external_body]
fn text_of_utf8(bytes: &[u8]) -> (r: String)
    ensures
        r@ == lossy_text(bytes@),
        valid_utf8(bytes@) ==> r@ == decode_utf8(bytes@),
{
    String::from_utf8_lossy(bytes).into_owned()
}

/// The text of an optional string.
pub open spec fn text_in(s: Option<String>) -> Option<Seq<char>> {
    match s {
        Some(t) => Some(t@),
        None => None,
    }
}

/// The bytes of an optional text, ended by a zero byte.
pub open spec fn metadata_bytes(s: Option<Seq<char>>) -> Seq<u8> {
    match s {
        Some(t) => encode_utf8(t).push(0),
        None => Seq::empty(),
    }
}

/// Which of title and author are there.
pub open spec fn flags_of(title: Option<Seq<char>>, author: Option<Seq<char>>) -> u8 {
    ((if title is Some {
        1int
    } else {
        0
    }) + (if author is Some {
        2int
    } else {
        0
    })) as u8
}

/// The payload of a fragment.
pub open spec fn payload_of(
    l: &SokobanLevel,
    title: Option<Seq<char>>,
    author: Option<Seq<char>>,
) -> Seq<u8> {
    seq![1u8, flags_of(title, author)] + wire(l) + metadata_bytes(title) + metadata_bytes(author)
}

/// The fragment of a level.
pub open spec fn fragment_of(
    l: &SokobanLevel,
    title: Option<Seq<char>>,
    author: Option<Seq<char>>,
) -> Seq<char> {
    seq!['v', '1', '-'] + base64(payload_of(l, title, author))
}

/// The text without the `#` that it starts with.
pub open spec fn strip_hashes(s: Seq<char>) -> Seq<char>
    decreases s.len(),
{
    if s.len() > 0 && s[0] == '#' {
        strip_hashes(s.skip(1))
    } else {
        s
    }
}

/// The text after `v1-`, if it starts so.
pub open spec fn after_version(s: Seq<char>) -> Option<Seq<char>> {
    if s.len() >= 3 && s[0] == 'v' && s[1] == '1' && s[2] == '-' {
        Some(s.skip(3))
    } else {
        None
    }
}

/// The payload of a fragment, or what is wrong with the fragment. `unknown` is the error for a
/// fragment that does not start with its version.
pub open spec fn fragment_payload(s: Seq<char>, unknown: LevelError) -> Result<Seq<u8>, LevelError> {
    match after_version(strip_hashes(s)) {
        Some(encoded) => if is_base64(encoded) {
            Ok(bytes_of(encoded))
        } else {
            Err(LevelError::InvalidBase64)
        },
        None => Err(unknown),
    }
}

/// Number of bytes of the level that some bytes start with.
pub open spec fn level_end(rest: Seq<u8>) -> int {
    4 + 3 * plane_bytes(rest[0] as int, rest[1] as int) + 1
}

/// The bytes of the level in a payload, or what is wrong with the payload.
pub open spec fn level_part(payload: Seq<u8>) -> Result<Seq<u8>, LevelError> {
    if payload.len() < 2 {
        Err(LevelError::PayloadTooShort)
    } else if payload.len() < 6 {
        Err(LevelError::MissingHeader)
    } else if payload.len() - 2 < level_end(payload.skip(2)) {
        Err(LevelError::PayloadTruncated)
    } else {
        Ok(payload.subrange(2, 2 + level_end(payload.skip(2))))
    }
}

/// What is wrong with a fragment, if anything.
pub open spec fn fragment_error(s: Seq<char>) -> Option<LevelError> {
    match fragment_payload(s, LevelError::UnsupportedFragment) {
        Ok(payload) => match level_part(payload) {
            Ok(data) => wire_error(data),
            Err(e) => Some(e),
        },
        Err(e) => Some(e),
    }
}

/// The bytes of the level in a fragment.
pub open spec fn fragment_data(s: Seq<char>) -> Seq<u8> {
    level_part(fragment_payload(s, LevelError::UnsupportedFragment)->Ok_0)->Ok_0
}

/// The position of the first zero byte from `i` on, or the end.
pub open spec fn zero_from(bytes: Seq<u8>, i: int) -> int
    decreases bytes.len() - i,
{
    if i >= bytes.len() || bytes[i] == 0 {
        i
    } else {
        zero_from(bytes, i + 1)
    }
}

/// The bytes before the first zero byte, if there is one.
pub open spec fn up_to_zero(bytes: Seq<u8>) -> Option<Seq<u8>> {
    let k = zero_from(bytes, 0);
    if k < bytes.len() {
        Some(bytes.take(k))
    } else {
        None
    }
}

/// What follows the level in a payload, nothing where the level is cut short.
pub open spec fn metadata_part(payload: Seq<u8>) -> Seq<u8> {
    if payload.len() < 6 || payload.len() - 2 <= level_end(payload.skip(2)) {
        Seq::empty()
    } else {
        payload.skip(2 + level_end(payload.skip(2)))
    }
}

/// The bytes of the title.
pub open spec fn title_bytes(payload: Seq<u8>) -> Option<Seq<u8>> {
    if payload.len() >= 2 && payload[1] % 2 == 1 {
        up_to_zero(metadata_part(payload))
    } else {
        None
    }
}

/// The bytes of the author: those after the title, if there is one.
pub open spec fn author_bytes(payload: Seq<u8>) -> Option<Seq<u8>> {
    let part = metadata_part(payload);
    let rest = match title_bytes(payload) {
        Some(t) => part.skip(t.len() as int + 1),
        None => part,
    };
    if payload.len() >= 2 && payload[1] / 2 % 2 == 1 {
        up_to_zero(rest)
    } else {
        None
    }
}

/// Title and author of a level, in bytes.
pub struct RawMetadata {
    pub title: Option<Vec<u8>>,
    pub author: Option<Vec<u8>>,
}

/// Title and author of a level.
pub struct FragmentMetadata {
    pub title: Option<String>,
    pub author: Option<String>,
}

/// The text is that of the bytes, if there are any: what they encode, or what is made of them
/// when they are not valid UTF-8.
pub open spec fn is_text_of(bytes: Option<Seq<u8>>, text: Option<Seq<char>>) -> bool {
    match (bytes, text) {
        (Some(b), Some(t)) => t == lossy_text(b) && (valid_utf8(b) ==> t == decode_utf8(b)),
        (None, None) => true,
        _ => false,
    }
}

/// Title and author are those of a payload.
pub open spec fn reads_metadata(payload: Seq<u8>, m: FragmentMetadata) -> bool {
    &&& is_text_of(title_bytes(payload), text_in(m.title))
    &&& is_text_of(author_bytes(payload), text_in(m.author))
}

/// The bytes of an optional list.
pub open spec fn bytes_in(v: Option<Vec<u8>>) -> Option<Seq<u8>> {
    match v {
        Some(b) => Some(b@),
        None => None,
    }
}

// ── Encoding ──────────────────────────────────────────────────────────────

/// Append an optional text and a zero byte.
fn push_metadata(payload: &mut Vec<u8>, s: Option<String>)
    ensures
        final(payload)@ == old(payload)@ + metadata_bytes(text_in(s)),
{
    if let Some(t) = s {
        payload.extend_from_slice(t.as_str().as_bytes());
        payload.push(0);
    }
    assert(payload@ =~= old(payload)@ + metadata_bytes(text_in(s)));
}

/// Write a level as a URL fragment, with a title and an author if they are given.
pub fn level_to_fragment(
    level: &SokobanLevel,
    title: Option<String>,
    author: Option<String>,
) -> (r: String)
    ensures
        r@ == fragment_of(level, text_in(title), text_in(author)),
{
    let binary = level.to_bytes();
    let mut payload: Vec<u8> = Vec::new();
    let title_flag: u8 = if title.is_some() {
        1
    } else {
        0
    };
    let author_flag: u8 = if author.is_some() {
        2
    } else {
        0
    };
    payload.push(1);
    payload.push(title_flag + author_flag);
    payload.extend_from_slice(binary.as_slice());
    assert(payload@ =~= seq![1u8, flags_of(text_in(title), text_in(author))] + wire(level));
    push_metadata(&mut payload, title);
    push_metadata(&mut payload, author);
    assert(payload@ =~= payload_of(level, text_in(title), text_in(author)));
    let encoded = to_base64url(payload.as_slice());
    let mut r = String::new();
    r.push('v');
    r.push('1');
    r.push('-');
    r.append(encoded.as_str());
    assert(r@ =~= fragment_of(level, text_in(title), text_in(author)));
    r
}

// ── Decoding ──────────────────────────────────────────────────────────────

/// The payload of a fragment.
fn payload_in(fragment: &str, unknown: LevelError) -> (r: Result<Vec<u8>, LevelError>)
    ensures
        match r {
            Ok(payload) => fragment_payload(fragment@, unknown) == Ok::<Seq<u8>, LevelError>(
                payload@,
            ),
            Err(e) => fragment_payload(fragment@, unknown) == Err::<Seq<u8>, LevelError>(e),
        },
{
    let s = chars_of(fragment);
    let n = s.len();
    let mut i: usize = 0;
    assert(s@.skip(0) =~= s@);
    while i < n && s[i] == '#'
        invariant
            n == s@.len(),
            i <= n,
            strip_hashes(s@.skip(i as int)) == strip_hashes(s@),
        decreases n - i,
    {
        assert(s@.skip(i as int).skip(1) =~= s@.skip(i + 1));
        i += 1;
    }
    let ghost t = s@.skip(i as int);
    assert(strip_hashes(t) == t);
    if n - i < 3 || s[i] != 'v' || s[i + 1] != '1' || s[i + 2] != '-' {
        assert(after_version(t) is None);
        return Err(unknown);
    }
    let encoded = part_of(&s, i + 3, n);
    assert(encoded@ =~= t.skip(3));
    match decode_chars(&encoded) {
        Some(payload) => Ok(payload),
        None => Err(LevelError::InvalidBase64),
    }
}

/// Number of bytes of a level, by its dimensions.
fn level_bytes(width: u8, height: u8) -> (r: usize)
    ensures
        r == 4 + 3 * plane_bytes(width as int, height as int) + 1,
        r <= 25000,
{
    4 + (cell_count(width, height) + 7) / 8 * 3 + 1
}

/// Read the level of a URL fragment, which may start with `#`. Title and author are left out; see
/// `fragment_metadata`.
pub fn fragment_to_level(fragment: &str) -> (r: Result<SokobanLevel, LevelError>)
    ensures
        match r {
            Ok(l) => fragment_error(fragment@) is None && wire_reads(fragment_data(fragment@), &l),
            Err(e) => fragment_error(fragment@) == Some(e),
        },
{
    let payload = match payload_in(fragment, LevelError::UnsupportedFragment) {
        Ok(payload) => payload,
        Err(e) => {
            return Err(e);
        },
    };
    if payload.len() < 2 {
        return Err(LevelError::PayloadTooShort);
    }
    if payload.len() < 6 {
        return Err(LevelError::MissingHeader);
    }
    let end = level_bytes(payload[2], payload[3]);
    assert(end == level_end(payload@.skip(2)));
    if payload.len() - 2 < end {
        return Err(LevelError::PayloadTruncated);
    }
    let data = slice_subrange(payload.as_slice(), 2, 2 + end);
    SokobanLevel::from_bytes(data)
}

/// The bytes before the first zero byte from `i` on, if there is one.
fn bytes_to_zero(bytes: &Vec<u8>, i: usize) -> (r: Option<Vec<u8>>)
    requires
        i <= bytes@.len(),
    ensures
        bytes_in(r) == up_to_zero(bytes@.skip(i as int)),
{
    let ghost part = bytes@.skip(i as int);
    let n = bytes.len();
    let mut k: usize = i;
    while k < n && bytes[k] != 0
        invariant
            n == bytes@.len(),
            part == bytes@.skip(i as int),
            i <= k <= n,
            zero_from(part, k - i) == zero_from(part, 0),
        decreases n - k,
    {
        assert(part[k - i] == bytes@[k as int]);
        k += 1;
    }
    if k < n {
        assert(part[k - i] == bytes@[k as int]);
        let r = vstd::slice::slice_to_vec(slice_subrange(bytes.as_slice(), i, k));
        assert(r@ =~= part.take(k - i));
        Some(r)
    } else {
        None
    }
}

/// Title and author in a payload, in bytes.
pub fn raw_metadata(payload: &Vec<u8>) -> (r: RawMetadata)
    ensures
        bytes_in(r.title) == title_bytes(payload@),
        bytes_in(r.author) == author_bytes(payload@),
{
    let ghost p = payload@;
    let n = payload.len();
    if n < 6 {
        proof {
            assert(up_to_zero(Seq::<u8>::empty()) is None);
        }
        return RawMetadata { title: None, author: None };
    }
    let end = level_bytes(payload[2], payload[3]);
    assert(end == level_end(p.skip(2)));
    if n - 2 <= end {
        proof {
            assert(up_to_zero(Seq::<u8>::empty()) is None);
        }
        return RawMetadata { title: None, author: None };
    }
    let flags = payload[1];
    let mut at: usize = 2 + end;
    let ghost part = metadata_part(p);
    assert(part =~= p.skip(at as int));
    let mut title: Option<Vec<u8>> = None;
    if flags % 2 == 1 {
        title = bytes_to_zero(payload, at);
        if let Some(t) = &title {
            proof {
                lemma_zero_from(part, 0);
                assert(t@ == part.take(zero_from(part, 0)));
            }
            at = at + t.len() + 1;
        }
    }
    proof {
        let rest = match title_bytes(p) {
            Some(t) => part.skip(t.len() as int + 1),
            None => part,
        };
        assert(rest =~= p.skip(at as int));
    }
    let author = if flags / 2 % 2 == 1 {
        bytes_to_zero(payload, at)
    } else {
        None
    };
    RawMetadata { title, author }
}

proof fn lemma_zero_from(bytes: Seq<u8>, i: int)
    requires
        0 <= i <= bytes.len(),
    ensures
        i <= zero_from(bytes, i) <= bytes.len(),
    decreases bytes.len() - i,
{
    if i < bytes.len() && bytes[i] != 0 {
        lemma_zero_from(bytes, i + 1);
    }
}

/// The text of some bytes, if there are any.
fn text_of(bytes: &Option<Vec<u8>>) -> (r: Option<String>)
    ensures
        is_text_of(bytes_in(*bytes), text_in(r)),
{
    match bytes {
        Some(b) => Some(text_of_utf8(b.as_slice())),
        None => None,
    }
}

/// The title and author of a URL fragment, without reading the level.
pub fn fragment_metadata(fragment: &str) -> (r: Result<FragmentMetadata, LevelError>)
    ensures
        match r {
            Ok(m) => match fragment_payload(fragment@, LevelError::UnsupportedVersion) {
                Ok(payload) => reads_metadata(payload, m),
                Err(_) => false,
            },
            Err(e) => fragment_payload(fragment@, LevelError::UnsupportedVersion) == Err::<
                Seq<u8>,
                LevelError,
            >(e),
        },
{
    match payload_in(fragment, LevelError::UnsupportedVersion) {
        Ok(payload) => {
            let raw = raw_metadata(&payload);
            Ok(FragmentMetadata { title: text_of(&raw.title), author: text_of(&raw.author) })
        },
        Err(e) => Err(e),
    }
}

// ── Laws ──────────────────────────────────────────────────────────────────

/// What a level's fragment holds is the payload.
proof fn lemma_payload(
    l: &SokobanLevel,
    title: Option<Seq<char>>,
    author: Option<Seq<char>>,
    unknown: LevelError,
)
    ensures
        fragment_payload(fragment_of(l, title, author), unknown) == Ok::<Seq<u8>, LevelError>(
            payload_of(l, title, author),
        ),
{
    let s = fragment_of(l, title, author);
    let encoded = base64(payload_of(l, title, author));
    assert(strip_hashes(s) == s);
    assert(s.skip(3) =~= encoded);
    law_base64_round_trip(payload_of(l, title, author));
}

/// Where the level of a payload ends.
proof fn lemma_level_part(l: &SokobanLevel, title: Option<Seq<char>>, author: Option<Seq<char>>)
    requires
        l.wf(),
    ensures
        ({
            let p = payload_of(l, title, author);
            &&& p.len() >= 7
            &&& level_end(p.skip(2)) == wire(l).len()
            &&& level_part(p) == Ok::<Seq<u8>, LevelError>(wire(l))
            &&& metadata_part(p) == metadata_bytes(title) + metadata_bytes(author)
            &&& p[1] == flags_of(title, author)
        }),
{
    let p = payload_of(l, title, author);
    let w = wire(l);
    assert(wire_body(l)[0] == l.width && wire_body(l)[1] == l.height);
    assert(p.skip(2)[0] == w[0] && p.skip(2)[1] == w[1]);
    assert(p.subrange(2, 2 + w.len() as int) =~= w);
    assert(p.skip(2 + w.len() as int) =~= metadata_bytes(title) + metadata_bytes(author));
    if p.len() - 2 <= level_end(p.skip(2)) {
        assert(metadata_bytes(title) + metadata_bytes(author) =~= Seq::<u8>::empty());
    }
}

/// Reading a level's fragment gives the level back, with or without title and author.
pub proof fn law_fragment_round_trip(
    l: &SokobanLevel,
    title: Option<Seq<char>>,
    author: Option<Seq<char>>,
)
    requires
        l.wf(),
    ensures
        fragment_error(fragment_of(l, title, author)) is None,
        forall|again: &SokobanLevel| #[trigger]
            wire_reads(fragment_data(fragment_of(l, title, author)), again) ==> again.width
                == l.width && again.height == l.height && again.player_pos == l.player_pos
                && again.walls.bytes() == l.walls.bytes() && again.boxes.bytes()
                == l.boxes.bytes() && again.goals.bytes() == l.goals.bytes(),
{
    lemma_payload(l, title, author, LevelError::UnsupportedFragment);
    lemma_level_part(l, title, author);
    law_bytes_round_trip(l);
}

/// A fragment means the same with `#` before it.
pub proof fn law_leading_hash_is_ignored(s: Seq<char>, unknown: LevelError)
    ensures
        fragment_payload(seq!['#'] + s, unknown) == fragment_payload(s, unknown),
{
    assert((seq!['#'] + s).skip(1) =~= s);
}

/// The encoding of a character other than the zero character has no zero byte.
proof fn lemma_scalar_not_zero(c: char)
    requires
        c != '\0',
    ensures
        forall|i: int|
            0 <= i < vstd::utf8::encode_scalar(c as u32).len()
                ==> #[trigger] vstd::utf8::encode_scalar(c as u32)[i] != 0,
{
    let v = c as u32;
    assert(0 < v <= 0x7f ==> (v & 0x7F) as u8 != 0) by (bit_vector);
    assert(0xC0 | ((v >> 6) & 0x1F) as u8 != 0) by (bit_vector);
    assert(0xE0 | ((v >> 12) & 0x0F) as u8 != 0) by (bit_vector);
    assert(0xF0 | ((v >> 18) & 0x7) as u8 != 0) by (bit_vector);
    assert(0x80 | (v & 0x3F) as u8 != 0) by (bit_vector);
    assert(0x80 | ((v >> 6) & 0x3F) as u8 != 0) by (bit_vector);
    assert(0x80 | ((v >> 12) & 0x3F) as u8 != 0) by (bit_vector);
}

proof fn lemma_text_not_zero(t: Seq<char>)
    requires
        !t.contains('\0'),
    ensures
        forall|i: int| 0 <= i < encode_utf8(t).len() ==> #[trigger] encode_utf8(t)[i] != 0,
    decreases t.len(),
{
    if t.len() > 0 {
        assert(t.contains(t[0]));
        lemma_scalar_not_zero(t[0]);
        assert(!t.drop_first().contains('\0')) by {
            if t.drop_first().contains('\0') {
                let i = choose|i: int| 0 <= i < t.drop_first().len() && t.drop_first()[i] == '\0';
                assert(t[i + 1] == '\0');
            }
        }
        lemma_text_not_zero(t.drop_first());
        let (a, b) = (vstd::utf8::encode_scalar(t[0] as u32), encode_utf8(t.drop_first()));
        assert forall|i: int| 0 <= i < encode_utf8(t).len() implies #[trigger] encode_utf8(t)[i]
            != 0 by {
            if i < a.len() {
                assert(encode_utf8(t)[i] == a[i]);
            } else {
                assert(encode_utf8(t)[i] == b[i - a.len()]);
            }
        }
    }
}

/// The first zero byte after bytes other than zero.
proof fn lemma_zero_after(a: Seq<u8>, rest: Seq<u8>, i: int)
    requires
        0 <= i <= a.len(),
        forall|k: int| 0 <= k < a.len() ==> #[trigger] a[k] != 0,
    ensures
        zero_from(a.push(0) + rest, i) == a.len(),
    decreases a.len() - i,
{
    if i < a.len() {
        assert((a.push(0) + rest)[i] == a[i]);
        lemma_zero_after(a, rest, i + 1);
    }
}

/// The bytes of a text in front of others.
proof fn lemma_up_to_zero(t: Seq<char>, rest: Seq<u8>)
    requires
        !t.contains('\0'),
    ensures
        up_to_zero(metadata_bytes(Some(t)) + rest) == Some(encode_utf8(t)),
        (metadata_bytes(Some(t)) + rest).skip(encode_utf8(t).len() as int + 1) == rest,
{
    let a = encode_utf8(t);
    lemma_text_not_zero(t);
    lemma_zero_after(a, rest, 0);
    assert((a.push(0) + rest).take(a.len() as int) =~= a);
    assert((a.push(0) + rest).skip(a.len() as int + 1) =~= rest);
}

/// An optional text has no zero character.
pub open spec fn without_zero(s: Option<Seq<char>>) -> bool {
    match s {
        Some(t) => !t.contains('\0'),
        None => true,
    }
}

/// Reading the metadata of a level's fragment gives title and author back, when they hold no zero
/// character.
pub proof fn law_metadata_round_trip(
    l: &SokobanLevel,
    title: Option<Seq<char>>,
    author: Option<Seq<char>>,
    m: FragmentMetadata,
)
    requires
        l.wf(),
        without_zero(title),
        without_zero(author),
        reads_metadata(payload_of(l, title, author), m),
    ensures
        fragment_payload(fragment_of(l, title, author), LevelError::UnsupportedVersion) == Ok::<
            Seq<u8>,
            LevelError,
        >(payload_of(l, title, author)),
        text_in(m.title) == title,
        text_in(m.author) == author,
{
    lemma_payload(l, title, author, LevelError::UnsupportedVersion);
    lemma_level_part(l, title, author);
    let p = payload_of(l, title, author);
    let part = metadata_part(p);
    let rest = metadata_bytes(author);
    if let Some(t) = title {
        lemma_up_to_zero(t, rest);
        vstd::utf8::encode_utf8_valid_utf8(t);
        vstd::utf8::encode_utf8_decode_utf8(t);
        assert(title_bytes(p) == Some(encode_utf8(t)));
    } else {
        assert(metadata_bytes(title) + rest =~= rest);
        assert(title_bytes(p) is None);
    }
    if let Some(a) = author {
        assert(rest + Seq::<u8>::empty() =~= rest);
        lemma_up_to_zero(a, Seq::empty());
        vstd::utf8::encode_utf8_valid_utf8(a);
        vstd::utf8::encode_utf8_decode_utf8(a);
        assert(author_bytes(p) == Some(encode_utf8(a)));
    } else {
        assert(author_bytes(p) is None);
    }
}

/// A fragment is `v1-` and the base64 of its payload. The payload begins with a 1 and a byte whose
/// lowest bit says that there is a title and the next that there is an author. The bytes of the
/// level follow, then the title and the author in UTF-8, each ended by a zero.
pub proof fn law_fragment_is_laid_out(
    l: &SokobanLevel,
    title: Option<Seq<char>>,
    author: Option<Seq<char>>,
)
    requires
        l.wf(),
    ensures
        ({
            let text = fragment_of(l, title, author);
            let p = bytes_of(text.skip(3));
            let n = 2 + wire(l).len();
            &&& text.take(3) == "v1-"@
            &&& is_base64(text.skip(3))
            &&& p[0] == 1
            &&& p[1] % 2 == 1 <==> title is Some
            &&& p[1] / 2 == 1 <==> author is Some
            &&& p[1] < 4
            &&& p.subrange(2, n as int) == wire(l)
            &&& title is None && author is None ==> p.len() == n
            &&& title is Some && author is None ==> p.skip(n as int) == encode_utf8(title->0)
                + seq![0u8]
            &&& title is None && author is Some ==> p.skip(n as int) == encode_utf8(author->0)
                + seq![0u8]
            &&& title is Some && author is Some ==> p.skip(n as int) == encode_utf8(title->0)
                + seq![0u8] + encode_utf8(author->0) + seq![0u8]
        }),
{
    let text = fragment_of(l, title, author);
    let payload = payload_of(l, title, author);
    reveal_strlit("v1-");
    law_base64_round_trip(payload);
    assert(text.skip(3) =~= base64(payload));
    assert(text.take(3) =~= "v1-"@);
    lemma_payload_parts(wire(l), title, author);
}

proof fn lemma_payload_parts(w: Seq<u8>, title: Option<Seq<char>>, author: Option<Seq<char>>)
    ensures
        ({
            let p = seq![1u8, flags_of(title, author)] + w + metadata_bytes(title) + metadata_bytes(
                author,
            );
            let n = 2 + w.len() as int;
            &&& p[0] == 1
            &&& p[1] == flags_of(title, author)
            &&& p.subrange(2, n) == w
            &&& title is None && author is None ==> p.len() == n
            &&& title is Some && author is None ==> p.skip(n) == encode_utf8(title->0) + seq![0u8]
            &&& title is None && author is Some ==> p.skip(n) == encode_utf8(author->0) + seq![0u8]
            &&& title is Some && author is Some ==> p.skip(n) == encode_utf8(title->0) + seq![0u8]
                + encode_utf8(author->0) + seq![0u8]
        }),
{
    let (t, a) = (metadata_bytes(title), metadata_bytes(author));
    let p = seq![1u8, flags_of(title, author)] + w + t + a;
    let n = 2 + w.len() as int;
    assert(p.subrange(2, n) =~= w);
    assert(p.skip(n) =~= t + a);
    if let Some(x) = title {
        assert(t =~= encode_utf8(x) + seq![0u8]);
    }
    if let Some(x) = author {
        assert(a =~= encode_utf8(x) + seq![0u8]);
    }
    if title is None {
        assert(t + a =~= a);
    }
    if author is None {
        assert(t + a =~= t);
    }
    if title is Some && author is Some {
        assert(t + a =~= encode_utf8(title->0) + seq![0u8] + encode_utf8(author->0) + seq![0u8]);
    }
}

/// A text is a fragment only if `v1-` comes first, any number of `#` aside.
pub proof fn law_other_texts_are_refused(s: Seq<char>, unknown: LevelError)
    requires
        s.len() == 0 || s[0] != '#',
    ensures
        fragment_payload(s, unknown) == (if s.len() >= 3 && s.take(3) == "v1-"@ {
            if is_base64(s.skip(3)) {
                Ok::<Seq<u8>, LevelError>(bytes_of(s.skip(3)))
            } else {
                Err::<Seq<u8>, LevelError>(LevelError::InvalidBase64)
            }
        } else {
            Err::<Seq<u8>, LevelError>(unknown)
        }),
{
    reveal_strlit("v1-");
    if s.len() >= 3 {
        assert(s.take(3)[0] == s[0] && s.take(3)[1] == s[1] && s.take(3)[2] == s[2]);
        if s[0] == 'v' && s[1] == '1' && s[2] == '-' {
            assert(s.take(3) =~= "v1-"@);
        }
    }
}

} // verus!

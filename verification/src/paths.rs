//! Paths: shell expansion, `file://` URLs, percent-decoding, the final
//! component of a path, and the keys by which two paths are compared.

use vstd::prelude::*;
use vstd::utf8::{
    decode_utf8, encode_scalar, encode_utf8, has_width_1_encoding, is_scalar,
    last_continuation_byte, leading_byte_width_1, leading_byte_width_2, leading_byte_width_3,
    leading_byte_width_4, second_last_continuation_byte, third_last_continuation_byte, valid_utf8,
};
use crate::text::{
    chars_of, copy_string, has_prefix, lowercase, starts_with, string_of, string_of_range,
    to_lowercase, trim_end, trim_end_matches, trim_start, trim_start_matches,
};

verus! {

// ---------------------------------------------------------------------------
// Shell expansion
// ---------------------------------------------------------------------------

/// Why a path could not be resolved.
#[derive(Debug, PartialEq, Eq)]
pub enum PathError {
    /// Expanding `~` or an environment variable in `input` failed.
    Expansion { input: String },
}

/// Trusted: `shellexpand::full`, which replaces a leading `~` by the home
/// directory and `$NAME` / `${NAME}` by environment variables. The result
/// depends on the environment, so only what holds of every outcome is stated,
/// from the crate's source: without a `$` nothing can fail; without a `$` and
/// without a leading `~` that is followed by `/` or ends the input, the input
/// comes back unchanged; with such a `~` and no `$`, the input after the `~`
/// ends the result. What a `$` expands to is left unsaid. `None` stands for
/// the crate's lookup error, whose details are dropped.
#[verifier::external_body]
fn shell_expand(input: &str) -> (out: Option<String>)
    ensures
        out.is_none() ==> input@.contains('$'),
        !input@.contains('$') && !expands_home(input@) ==> out.deep_view() == Some(input@),
        !input@.contains('$') && expands_home(input@) ==> input@.skip(1).is_suffix_of(
            out.deep_view().unwrap(),
        ),
{
    shellexpand::full(input).ok().map(|s| s.into_owned())
}

/// `s` starts with a `~` that names the home directory: it is alone or followed by `/`.
pub open spec fn expands_home(s: Seq<char>) -> bool {
    s.len() > 0 && s[0] == '~' && (s.len() == 1 || s[1] == '/')
}

/// Expands `~` and environment variables in `input`, as a shell would.
/// Fails exactly when the expansion fails; an input without `$` never fails,
/// and one without `$` and without a leading home `~` comes back unchanged.
pub fn expand_path(input: &str) -> (out: Result<String, PathError>)
    ensures
        out is Err ==> input@.contains('$'),
        out matches Err(PathError::Expansion { input: i }) ==> i@ == input@,
        !input@.contains('$') && !expands_home(input@) ==> ok_text(out) == Some(input@),
        !input@.contains('$') && expands_home(input@) ==> input@.skip(1).is_suffix_of(
            ok_text(out).unwrap(),
        ),
{
    match shell_expand(input) {
        Some(s) => Ok(s),
        None => Err(PathError::Expansion { input: input.to_owned() }),
    }
}

/// The text of a successful result.
pub open spec fn ok_text(r: Result<String, PathError>) -> Option<Seq<char>> {
    match r {
        Ok(s) => Some(s@),
        Err(_) => None,
    }
}

// ---------------------------------------------------------------------------
// Percent-decoding
// ---------------------------------------------------------------------------

/// `b` is an ASCII hexadecimal digit.
pub open spec fn is_hex_digit(b: u8) -> bool {
    (0x30 <= b <= 0x39) || (0x41 <= b <= 0x46) || (0x61 <= b <= 0x66)
}

/// The value of a hexadecimal digit.
pub open spec fn hex_value(b: u8) -> int {
    if b <= 0x39 {
        b - 0x30
    } else if b <= 0x46 {
        b - 0x41 + 10
    } else {
        b - 0x61 + 10
    }
}

/// The byte that the two hex digits after a `%` stand for, if both are hex digits.
pub open spec fn percent_byte(b1: u8, b2: u8) -> Option<u8> {
    if is_hex_digit(b1) && is_hex_digit(b2) {
        Some((hex_value(b1) * 16 + hex_value(b2)) as u8)
    } else {
        None
    }
}

/// Bytes with each `%` that two hex digits follow replaced by the byte they
/// stand for; every other byte kept.
pub open spec fn percent_decode(b: Seq<u8>) -> Seq<u8>
    decreases b.len(),
{
    if b.len() == 0 {
        Seq::empty()
    } else if b[0] == 0x25 && 2 < b.len() && percent_byte(b[1], b[2]) is Some {
        seq![percent_byte(b[1], b[2])->0] + percent_decode(b.skip(3))
    } else {
        seq![b[0]] + percent_decode(b.skip(1))
    }
}

/// The text that `String::from_utf8_lossy` makes of some bytes.
pub uninterp spec fn utf8_lossy(bytes: Seq<u8>) -> Seq<char>;

/// Trusted: `String::from_utf8_lossy`. Its result is a function of the bytes,
/// named `utf8_lossy`; its documentation promises that valid UTF-8 decodes to
/// the string it encodes. How invalid sequences are replaced is left unsaid.
#[verifier::external_body]
fn from_utf8_lossy(bytes: &[u8]) -> (out: String)
    ensures
        out@ == utf8_lossy(bytes@),
        valid_utf8(bytes@) ==> out@ == decode_utf8(bytes@),
{
    String::from_utf8_lossy(bytes).into_owned()
}

/// The percent-decoded text of `s`.
pub open spec fn url_decoded(s: Seq<char>) -> Seq<char> {
    utf8_lossy(percent_decode(encode_utf8(s)))
}

fn hex_digit(b: u8) -> (out: Option<u8>)
    ensures
        out is Some <==> is_hex_digit(b),
        out matches Some(v) ==> v == hex_value(b),
{
    if 0x30 <= b && b <= 0x39 {
        Some(b - 0x30)
    } else if 0x41 <= b && b <= 0x46 {
        Some(b - 0x41 + 10)
    } else if 0x61 <= b && b <= 0x66 {
        Some(b - 0x61 + 10)
    } else {
        None
    }
}

fn parse_percent_byte(b1: u8, b2: u8) -> (out: Option<u8>)
    ensures
        out == percent_byte(b1, b2),
{
    match (hex_digit(b1), hex_digit(b2)) {
        (Some(h), Some(l)) => Some(h * 16 + l),
        _ => None,
    }
}

proof fn lemma_percent_decode_step(b: Seq<u8>, i: int)
    requires
        0 <= i < b.len(),
    ensures
        b[i] == 0x25 && i + 2 < b.len() && percent_byte(b[i + 1], b[i + 2]) is Some
            ==> percent_decode(b.skip(i)) == seq![percent_byte(b[i + 1], b[i + 2])->0]
            + percent_decode(b.skip(i + 3)),
        !(b[i] == 0x25 && i + 2 < b.len() && percent_byte(b[i + 1], b[i + 2]) is Some)
            ==> percent_decode(b.skip(i)) == seq![b[i]] + percent_decode(b.skip(i + 1)),
{
    let r = b.skip(i);
    assert(r[0] == b[i]);
    if r.len() > 2 {
        assert(r[1] == b[i + 1]);
        assert(r[2] == b[i + 2]);
        assert(r.skip(3) =~= b.skip(i + 3));
    }
    assert(r.skip(1) =~= b.skip(i + 1));
}

/// Decodes percent-encoded octets (`%20` is a space, `%C3%A9` is `é`); the
/// decoded bytes are read as UTF-8, invalid sequences replaced.
pub fn urlencoding_decode(s: &str) -> (out: String)
    ensures
        out@ == url_decoded(s@),
        valid_utf8(percent_decode(encode_utf8(s@))) ==> out@ == decode_utf8(
            percent_decode(encode_utf8(s@)),
        ),
        !s@.contains('%') ==> out@ == s@,
        forall|t: Seq<char>| #[trigger] is_percent_encoding(encode_utf8(s@), encode_utf8(t)) ==> out@ == t,
{
    let bytes = s.as_bytes();
    let ghost b = bytes@;
    let mut decoded: Vec<u8> = Vec::new();
    let mut i: usize = 0;
    assert(b.skip(0) =~= b);
    while i < bytes.len()
        invariant
            b == bytes@,
            b == encode_utf8(s@),
            i <= b.len(),
            decoded@ + percent_decode(b.skip(i as int)) == percent_decode(b),
        decreases bytes.len() - i,
    {
        proof {
            lemma_percent_decode_step(b, i as int);
        }
        if bytes[i] == 0x25 && bytes.len() - i > 2 {
            match parse_percent_byte(bytes[i + 1], bytes[i + 2]) {
                Some(v) => {
                    decoded.push(v);
                    assert(decoded@ + percent_decode(b.skip(i + 3)) =~= percent_decode(b));
                    i = i + 3;
                    continue;
                },
                None => {},
            }
        }
        decoded.push(bytes[i]);
        assert(decoded@ + percent_decode(b.skip(i + 1)) =~= percent_decode(b));
        i = i + 1;
    }
    assert(b.skip(i as int) =~= Seq::<u8>::empty());
    assert(decoded@ =~= percent_decode(b));
    proof {
        if !s@.contains('%') {
            lemma_encode_without_percent(s@);
            lemma_percent_decode_plain(b);
            vstd::utf8::encode_utf8_valid_utf8(s@);
            vstd::utf8::encode_utf8_decode_utf8(s@);
        }
    }
    let out = from_utf8_lossy(decoded.as_slice());
    proof {
        assert forall|t: Seq<char>| #[trigger] is_percent_encoding(encode_utf8(s@), encode_utf8(t)) implies out@
            == t by {
            law_decode_undoes_encoding(encode_utf8(s@), encode_utf8(t));
            vstd::utf8::encode_utf8_valid_utf8(t);
            vstd::utf8::encode_utf8_decode_utf8(t);
        }
    }
    out
}

proof fn lemma_scalar_without_percent(v: u32)
    requires
        v != 0x25,
        is_scalar(v),
    ensures
        !encode_scalar(v).contains(0x25u8),
{
    let e = encode_scalar(v);
    if has_width_1_encoding(v) {
        assert(leading_byte_width_1(v) != 0x25u8) by (bit_vector)
            requires
                v != 0x25,
                v <= 0x7F,
        ;
    } else {
        assert(leading_byte_width_2(v) != 0x25u8) by (bit_vector);
        assert(leading_byte_width_3(v) != 0x25u8) by (bit_vector);
        assert(leading_byte_width_4(v) != 0x25u8) by (bit_vector);
        assert(last_continuation_byte(v) != 0x25u8) by (bit_vector);
        assert(second_last_continuation_byte(v) != 0x25u8) by (bit_vector);
        assert(third_last_continuation_byte(v) != 0x25u8) by (bit_vector);
    }
    assert forall|k: int| 0 <= k < e.len() implies e[k] != 0x25u8 by {}
}

/// The UTF-8 bytes of text without `%` hold no `%` byte.
pub proof fn lemma_encode_without_percent(s: Seq<char>)
    requires
        !s.contains('%'),
    ensures
        !encode_utf8(s).contains(0x25u8),
    decreases s.len(),
{
    if s.len() > 0 {
        assert(s[0] != '%') by {
            if s[0] == '%' {
                assert(s.contains('%'));
            }
        }
        assert(!s.drop_first().contains('%')) by {
            if s.drop_first().contains('%') {
                let k = choose|k: int| 0 <= k < s.drop_first().len() && s.drop_first()[k] == '%';
                assert(s[k + 1] == '%');
            }
        }
        lemma_encode_without_percent(s.drop_first());
        vstd::utf8::char_is_scalar(s[0]);
        assert(s[0] as u32 != 0x25u32) by {
            if s[0] as u32 == 0x25u32 {
                vstd::utf8::char_u32_cast(s[0], 0x25u32);
                vstd::utf8::char_u32_cast('%', 0x25u32);
            }
        }
        lemma_scalar_without_percent(s[0] as u32);
        let a = encode_scalar(s[0] as u32);
        let b = encode_utf8(s.drop_first());
        assert forall|k: int| 0 <= k < (a + b).len() implies (a + b)[k] != 0x25u8 by {
            if k < a.len() {
                assert(!a.contains(0x25u8));
                if a[k] == 0x25u8 {
                    assert(a.contains(0x25u8));
                }
            } else {
                if b[k - a.len()] == 0x25u8 {
                    assert(b.contains(0x25u8));
                }
            }
        }
    }
}

/// `e` is a standard percent-encoding of the bytes `b`: every `%` of `b`,
/// and any others of its bytes, written as `%` and two hex digits of either
/// case; the other bytes as they are.
pub open spec fn is_percent_encoding(e: Seq<u8>, b: Seq<u8>) -> bool
    decreases b.len(),
{
    if b.len() == 0 {
        e.len() == 0
    } else {
        ||| (e.len() >= 3 && e[0] == 0x25 && is_hex_digit(e[1]) && is_hex_digit(e[2]) && hex_value(e[1])
            * 16 + hex_value(e[2]) == b[0] && is_percent_encoding(e.skip(3), b.skip(1)))
        ||| (b[0] != 0x25 && e.len() >= 1 && e[0] == b[0] && is_percent_encoding(e.skip(1), b.skip(1)))
    }
}

/// Law: percent-decoding undoes any standard percent-encoding.
pub proof fn law_decode_undoes_encoding(e: Seq<u8>, b: Seq<u8>)
    requires
        is_percent_encoding(e, b),
    ensures
        percent_decode(e) == b,
    decreases b.len(),
{
    if b.len() > 0 {
        if e.len() >= 3 && e[0] == 0x25 && is_hex_digit(e[1]) && is_hex_digit(e[2]) && hex_value(e[1]) * 16
            + hex_value(e[2]) == b[0] && is_percent_encoding(e.skip(3), b.skip(1)) {
            law_decode_undoes_encoding(e.skip(3), b.skip(1));
            assert(percent_byte(e[1], e[2]) == Some(b[0]));
        } else {
            law_decode_undoes_encoding(e.skip(1), b.skip(1));
        }
        assert(b =~= seq![b[0]] + b.skip(1));
    } else {
        assert(e =~= Seq::<u8>::empty());
        assert(b =~= Seq::<u8>::empty());
    }
}

/// Bytes with no `%` decode to themselves.
pub proof fn lemma_percent_decode_plain(b: Seq<u8>)
    requires
        !b.contains(0x25u8),
    ensures
        percent_decode(b) == b,
    decreases b.len(),
{
    if b.len() > 0 {
        assert(b[0] != 0x25u8) by {
            if b[0] == 0x25u8 {
                assert(b.contains(0x25u8));
            }
        }
        assert(!b.skip(1).contains(0x25u8)) by {
            if b.skip(1).contains(0x25u8) {
                let k = choose|k: int| 0 <= k < b.skip(1).len() && b.skip(1)[k] == 0x25u8;
                assert(b[k + 1] == 0x25u8);
                assert(b.contains(0x25u8));
            }
        }
        lemma_percent_decode_plain(b.skip(1));
        assert(b =~= seq![b[0]] + b.skip(1));
    }
}


// ---------------------------------------------------------------------------
// The final component of a path
// ---------------------------------------------------------------------------

/// The characters of `t` after its last `/` (all of `t` when it holds none).
pub open spec fn after_last_slash(t: Seq<char>) -> Seq<char>
    decreases t.len(),
{
    if t.len() == 0 || t.last() == '/' {
        Seq::empty()
    } else {
        after_last_slash(t.drop_last()).push(t.last())
    }
}

pub proof fn lemma_trim_end_len(s: Seq<char>, c: char)
    ensures
        trim_end(s, c).len() <= s.len(),
    decreases s.len(),
{
    if s.len() > 0 && s.last() == c {
        lemma_trim_end_len(s.drop_last(), c);
    }
}

/// The final component of a Unix path, as `Path::file_name` finds it: trailing
/// slashes and `.` components are skipped; a path that ends in `..`, the root
/// and the empty path have none.
pub open spec fn final_component(s: Seq<char>) -> Option<Seq<char>>
    decreases s.len(),
{
    let t = trim_end(s, '/');
    if t.len() == 0 {
        None
    } else {
        let seg = after_last_slash(t);
        if seg == seq!['.'] {
            proof {
                lemma_trim_end_len(s, '/');
            }
            final_component(t.drop_last())
        } else if seg == seq!['.', '.'] {
            None
        } else {
            Some(seg)
        }
    }
}

/// The final component of `path`, if it has one.
pub fn file_name(path: &str) -> (out: Option<String>)
    ensures
        out.deep_view() == final_component(path@),
{
    let v = chars_of(path);
    let mut end = v.len();
    assert(v@.take(end as int) =~= v@);
    loop
        invariant
            end <= v@.len(),
            final_component(v@.take(end as int)) == final_component(path@),
            v@ == path@,
        decreases end,
    {
        let ghost e0 = end;
        while end > 0 && v[end - 1] == '/'
            invariant
                end <= e0 <= v@.len(),
                trim_end(v@.take(end as int), '/') == trim_end(v@.take(e0 as int), '/'),
            decreases end,
        {
            assert(v@.take(end as int).drop_last() =~= v@.take(end - 1));
            end = end - 1;
        }
        assert(trim_end(v@.take(end as int), '/') == v@.take(end as int));
        if end == 0 {
            return None;
        }
        let mut start = end;
        while start > 0 && v[start - 1] != '/'
            invariant
                start <= end <= v@.len(),
                after_last_slash(v@.take(end as int)) == after_last_slash(v@.take(start as int))
                    + v@.subrange(start as int, end as int),
            decreases start,
        {
            assert(v@.take(start as int).drop_last() =~= v@.take(start - 1));
            assert(v@.subrange(start - 1, end as int) =~= seq![v@[start - 1]] + v@.subrange(
                start as int,
                end as int,
            ));
            start = start - 1;
        }
        assert(after_last_slash(v@.take(start as int)) =~= Seq::<char>::empty());
        let ghost t = v@.take(end as int);
        let ghost seg = v@.subrange(start as int, end as int);
        assert(after_last_slash(t) =~= seg);
        if end - start == 1 && v[start] == '.' {
            assert(seg =~= seq!['.']);
            assert(t.drop_last() =~= v@.take(end - 1));
            end = end - 1;
        } else if end - start == 2 && v[start] == '.' && v[start + 1] == '.' {
            assert(seg =~= seq!['.', '.']);
            return None;
        } else {
            assert(seg != seq!['.']) by {
                if seg == seq!['.'] {
                    assert(seg.len() == 1 && seg[0] == '.');
                }
            }
            assert(seg != seq!['.', '.']) by {
                if seg == seq!['.', '.'] {
                    assert(seg.len() == 2 && seg[0] == '.' && seg[1] == '.');
                }
            }
            return Some(string_of_range(&v, start, end));
        }
    }
}

/// The name Finder shows by default for a path: its final component, or the
/// whole path when it has none.
pub fn infer_name_from_path(path_str: &str) -> (out: String)
    ensures
        out@ == match final_component(path_str@) {
            Some(name) => name,
            None => path_str@,
        },
{
    match file_name(path_str) {
        Some(name) => name,
        None => path_str.to_owned(),
    }
}


// ---------------------------------------------------------------------------
// Resolving a path on this machine
// ---------------------------------------------------------------------------

/// What the machine says about one path string: what `expand_path` gave for
/// it (`None` when expansion failed), the canonical form of that expansion on
/// disk (`None` when it does not resolve), and the working directory (`None`
/// when it cannot be read).
#[derive(Debug)]
pub struct PathFacts {
    pub expanded: Option<String>,
    pub canonical: Option<String>,
    pub cwd: Option<String>,
}

/// The URL scheme prefix `file://`.
pub open spec fn file_scheme() -> Seq<char> {
    seq!['f', 'i', 'l', 'e', ':', '/', '/']
}

/// A Unix path is absolute when it starts at the root.
pub open spec fn is_absolute(p: Seq<char>) -> bool {
    p.len() > 0 && p[0] == '/'
}

/// `base` joined with `rel` as `Path::join` does on Unix: an absolute `rel`
/// replaces `base`; otherwise a `/` goes between them unless `base` is empty
/// or already ends in one.
pub open spec fn join_path(base: Seq<char>, rel: Seq<char>) -> Seq<char> {
    if is_absolute(rel) {
        rel
    } else if base.len() == 0 || base.last() == '/' {
        base + rel
    } else {
        base.push('/') + rel
    }
}

/// Where `input` points, given its expansion and what the disk says: a
/// `file://` URL is stripped of the scheme and percent-decoded; otherwise the
/// canonical path when it exists, else the expansion when it is absolute, else
/// the expansion joined to the working directory (or to `/` when that is
/// unknown).
pub open spec fn resolve(
    input: Seq<char>,
    expanded: Seq<char>,
    canonical: Option<Seq<char>>,
    cwd: Option<Seq<char>>,
) -> Seq<char> {
    if starts_with(input, file_scheme()) {
        url_decoded(trim_start(input, file_scheme()))
    } else if canonical is Some {
        canonical->0
    } else if is_absolute(expanded) {
        expanded
    } else {
        join_path(
            match cwd {
                Some(d) => d,
                None => seq!['/'],
            },
            expanded,
        )
    }
}

/// The absolute path of `input` under `facts`, or `None` when its expansion failed.
pub open spec fn normalized(input: Seq<char>, facts: PathFacts) -> Option<Seq<char>> {
    match facts.expanded {
        Some(e) => Some(resolve(input, e@, facts.canonical.deep_view(), facts.cwd.deep_view())),
        None => None,
    }
}

/// The key by which two paths are compared: the resolved path (or the input
/// itself when it cannot be resolved), without trailing slashes, lowercased.
pub open spec fn comparison_key(p: Seq<char>, facts: PathFacts) -> Seq<char> {
    let r = match normalized(p, facts) {
        Some(n) => n,
        None => p,
    };
    lowercase(trim_end(r, '/'))
}

fn file_scheme_chars() -> (out: Vec<char>)
    ensures
        out@ == file_scheme(),
{
    let v = vec!['f', 'i', 'l', 'e', ':', '/', '/'];
    assert(v@ =~= file_scheme());
    v
}

fn join(base: &str, rel: &str) -> (out: String)
    ensures
        out@ == join_path(base@, rel@),
{
    let b = chars_of(base);
    let r = chars_of(rel);
    let mut out: Vec<char> = Vec::new();
    if r.len() > 0 && r[0] == '/' {
        return string_of(&r);
    }
    let mut i: usize = 0;
    while i < b.len()
        invariant
            i <= b@.len(),
            out@ == b@.take(i as int),
        decreases b.len() - i,
    {
        out.push(b[i]);
        assert(b@.take(i + 1) == b@.take(i as int).push(b@[i as int]));
        i = i + 1;
    }
    assert(b@.take(b@.len() as int) =~= b@);
    if b.len() > 0 && b[b.len() - 1] != '/' {
        out.push('/');
    }
    let ghost head = out@;
    let mut j: usize = 0;
    while j < r.len()
        invariant
            j <= r@.len(),
            out@ == head + r@.take(j as int),
        decreases r.len() - j,
    {
        out.push(r[j]);
        assert(r@.take(j + 1) == r@.take(j as int).push(r@[j as int]));
        j = j + 1;
    }
    assert(r@.take(r@.len() as int) =~= r@);
    string_of(&out)
}

/// Expands `~` and environment variables in `input` and makes it an absolute
/// path: a `file://` URL is stripped and percent-decoded; otherwise the
/// canonical path on disk when there is one, else the absolute expansion,
/// else the expansion under the working directory. Fails exactly when the
/// expansion failed.
pub fn expand_and_normalize_path(input: &str, facts: &PathFacts) -> (out: Result<String, PathError>)
    ensures
        ok_text(out) == normalized(input@, *facts),
        out matches Err(PathError::Expansion { input: i }) ==> i@ == input@,
{
    let expanded = match &facts.expanded {
        Some(e) => e,
        None => {
            return Err(PathError::Expansion { input: input.to_owned() });
        },
    };
    let chars = chars_of(input);
    let scheme = file_scheme_chars();
    if has_prefix(&chars, &scheme) {
        let stripped = string_of(&trim_start_matches(&chars, &scheme));
        return Ok(urlencoding_decode(stripped.as_str()));
    }
    if let Some(canon) = &facts.canonical {
        return Ok(copy_string(canon));
    }
    let e = chars_of(expanded.as_str());
    if e.len() > 0 && e[0] == '/' {
        return Ok(copy_string(expanded));
    }
    match &facts.cwd {
        Some(d) => Ok(join(d.as_str(), expanded.as_str())),
        None => {
            proof {
                reveal_strlit("/");
            }
            Ok(join("/", expanded.as_str()))
        },
    }
}

/// The key by which paths are compared: the normalized path (or `p` itself
/// when it cannot be normalized) without trailing slashes, lowercased.
pub fn normalize_for_comparison(p: &str, facts: &PathFacts) -> (out: String)
    ensures
        out@ == comparison_key(p@, *facts),
{
    let resolved = match expand_and_normalize_path(p, facts) {
        Ok(n) => n,
        Err(_) => p.to_owned(),
    };
    let trimmed = string_of(&trim_end_matches(&chars_of(resolved.as_str()), '/'));
    to_lowercase(trimmed.as_str())
}

} // verus!

//! Character-level helpers on text, each with the exact behaviour of the
//! standard-library operation it stands for.

use vstd::prelude::*;

verus! {

/// `s` begins with `prefix`.
pub open spec fn starts_with(s: Seq<char>, prefix: Seq<char>) -> bool {
    prefix.len() <= s.len() && s.take(prefix.len() as int) == prefix
}

/// `s` with every trailing occurrence of `c` removed (`str::trim_end_matches` with a char).
pub open spec fn trim_end(s: Seq<char>, c: char) -> Seq<char>
    decreases s.len(),
{
    if s.len() > 0 && s.last() == c {
        trim_end(s.drop_last(), c)
    } else {
        s
    }
}

/// `s` with `prefix` removed from its front as many times as it occurs there
/// (`str::trim_start_matches` with a non-empty string pattern).
pub open spec fn trim_start(s: Seq<char>, prefix: Seq<char>) -> Seq<char>
    decreases s.len(),
{
    if prefix.len() > 0 && starts_with(s, prefix) {
        trim_start(s.skip(prefix.len() as int), prefix)
    } else {
        s
    }
}

/// The Unicode lowercase mapping of a whole string, as `str::to_lowercase` computes it.
pub uninterp spec fn lowercase(s: Seq<char>) -> Seq<char>;

/// Trusted: `str::to_lowercase`. Its result is a function of the characters of `s`
/// alone, named `lowercase`; the Unicode tables behind it are not restated here.
#[verifier::external_body]
pub(crate) fn to_lowercase(s: &str) -> (out: String)
    ensures
        out@ == lowercase(s@),
{
    s.to_lowercase()
}

/// Trusted: `String::push`, which appends one character.
#[verifier::external_body]
fn push_char(s: &mut String, c: char)
    ensures
        final(s)@ == old(s)@.push(c),
{
    s.push(c);
}

/// The characters of `s`, in order.
pub fn chars_of(s: &str) -> (out: Vec<char>)
    ensures
        out@ == s@,
{
    let mut out: Vec<char> = Vec::new();
    for c in it: s.chars()
        invariant
            out@ == it.seq().take(it.index() as int),
            it.seq() == s@,
    {
        out.push(c);
    }
    out
}

/// A `String` holding the characters `v@[from..to]`.
pub fn string_of_range(v: &Vec<char>, from: usize, to: usize) -> (out: String)
    requires
        from <= to <= v@.len(),
    ensures
        out@ == v@.subrange(from as int, to as int),
{
    let mut out = String::new();
    let mut i = from;
    while i < to
        invariant
            from <= i <= to <= v@.len(),
            out@ == v@.subrange(from as int, i as int),
        decreases to - i,
    {
        push_char(&mut out, v[i]);
        assert(v@.subrange(from as int, i + 1) == v@.subrange(from as int, i as int).push(v@[i as int]));
        i = i + 1;
    }
    out
}

/// A `String` holding the characters of `v`.
pub fn string_of(v: &Vec<char>) -> (out: String)
    ensures
        out@ == v@,
{
    let out = string_of_range(v, 0, v.len());
    assert(v@.subrange(0, v@.len() as int) == v@);
    out
}

/// A fresh copy of `s`.
pub fn copy_string(s: &String) -> (out: String)
    ensures
        out@ == s@,
{
    s.clone()
}

/// A fresh copy of an optional string.
pub fn copy_opt_string(s: &Option<String>) -> (out: Option<String>)
    ensures
        out.deep_view() == s.deep_view(),
{
    match s {
        Some(t) => Some(t.clone()),
        None => None,
    }
}

/// Whether `a` and `b` hold the same characters.
pub fn chars_equal(a: &Vec<char>, b: &Vec<char>) -> (r: bool)
    ensures
        r == (a@ == b@),
{
    if a.len() != b.len() {
        return false;
    }
    let mut i: usize = 0;
    while i < a.len()
        invariant
            a@.len() == b@.len(),
            i <= a@.len(),
            forall|j: int| 0 <= j < i ==> a@[j] == b@[j],
        decreases a.len() - i,
    {
        if a[i] != b[i] {
            return false;
        }
        i = i + 1;
    }
    assert(a@ =~= b@);
    true
}

/// Whether two strings hold the same characters.
pub fn str_equal(a: &str, b: &str) -> (r: bool)
    ensures
        r == (a@ == b@),
{
    let va = chars_of(a);
    let vb = chars_of(b);
    chars_equal(&va, &vb)
}

/// Whether `s` begins with `prefix`.
pub fn has_prefix(s: &Vec<char>, prefix: &Vec<char>) -> (r: bool)
    ensures
        r == starts_with(s@, prefix@),
{
    if prefix.len() > s.len() {
        return false;
    }
    let mut i: usize = 0;
    while i < prefix.len()
        invariant
            prefix@.len() <= s@.len(),
            i <= prefix@.len(),
            forall|j: int| 0 <= j < i ==> s@[j] == prefix@[j],
        decreases prefix.len() - i,
    {
        if s[i] != prefix[i] {
            assert(s@.take(prefix@.len() as int)[i as int] != prefix@[i as int]);
            return false;
        }
        i = i + 1;
    }
    assert(s@.take(prefix@.len() as int) =~= prefix@);
    true
}

/// The characters of `s` from the position `from` on, where `s[..from]` is
/// `prefix` repeated: the result is `trim_start(s[from..], prefix)`.
fn trim_start_from(s: &Vec<char>, prefix: &Vec<char>) -> (start: usize)
    requires
        prefix@.len() > 0,
    ensures
        start <= s@.len(),
        s@.skip(start as int) == trim_start(s@, prefix@),
{
    let mut start: usize = 0;
    let plen = prefix.len();
    assert(s@.skip(0) =~= s@);
    loop
        invariant
            plen == prefix@.len(),
            plen > 0,
            start <= s@.len(),
            trim_start(s@.skip(start as int), prefix@) == trim_start(s@, prefix@),
        decreases s@.len() - start,
    {
        let rest_len = s.len() - start;
        if plen > rest_len {
            return start;
        }
        let mut i: usize = 0;
        let mut matches = true;
        while i < plen
            invariant
                plen == prefix@.len(),
                start + plen <= s.len(),
                i <= plen,
                matches == (forall|j: int| 0 <= j < i ==> s@[start + j] == prefix@[j]),
            decreases plen - i,
        {
            if s[start + i] != prefix[i] {
                matches = false;
            }
            i = i + 1;
        }
        let ghost rest = s@.skip(start as int);
        if matches {
            assert(rest.take(plen as int) =~= prefix@);
            assert(rest.skip(plen as int) =~= s@.skip(start + plen));
            start = start + plen;
        } else {
            assert(!starts_with(rest, prefix@)) by {
                if starts_with(rest, prefix@) {
                    assert forall|j: int| 0 <= j < plen implies s@[start + j] == prefix@[j] by {
                        assert(rest.take(plen as int)[j] == prefix@[j]);
                    }
                }
            }
            return start;
        }
    }
}

/// `s` with every leading repetition of `prefix` removed.
pub fn trim_start_matches(s: &Vec<char>, prefix: &Vec<char>) -> (out: Vec<char>)
    requires
        prefix@.len() > 0,
    ensures
        out@ == trim_start(s@, prefix@),
{
    let start = trim_start_from(s, prefix);
    let mut out: Vec<char> = Vec::new();
    let mut i = start;
    while i < s.len()
        invariant
            start <= i <= s@.len(),
            out@ == s@.subrange(start as int, i as int),
        decreases s.len() - i,
    {
        out.push(s[i]);
        assert(s@.subrange(start as int, i + 1) == s@.subrange(start as int, i as int).push(s@[i as int]));
        i = i + 1;
    }
    assert(s@.subrange(start as int, s@.len() as int) == s@.skip(start as int));
    out
}

/// `s` with every trailing `c` removed.
pub fn trim_end_matches(s: &Vec<char>, c: char) -> (out: Vec<char>)
    ensures
        out@ == trim_end(s@, c),
{
    let mut end = s.len();
    assert(s@.take(end as int) =~= s@);
    while end > 0 && s[end - 1] == c
        invariant
            end <= s@.len(),
            trim_end(s@.take(end as int), c) == trim_end(s@, c),
        decreases end,
    {
        assert(s@.take(end as int).drop_last() =~= s@.take(end - 1));
        end = end - 1;
    }
    let mut out: Vec<char> = Vec::new();
    let mut i: usize = 0;
    while i < end
        invariant
            end <= s@.len(),
            i <= end,
            out@ == s@.take(i as int),
        decreases end - i,
    {
        out.push(s[i]);
        assert(s@.take(i + 1) == s@.take(i as int).push(s@[i as int]));
        i = i + 1;
    }
    out
}

} // verus!

//! Text rules for notes: the whitespace that a body loses at both ends, and
//! the shape of a note id.
use vstd::prelude::*;

use crate::error::ApiError;

verus! {

/// A character with the Unicode `White_Space` property, the set that
/// `char::is_whitespace` and `str::trim` go by.
pub open spec fn is_white(c: char) -> bool {
    let u = c as u32;
    ||| 0x09 <= u <= 0x0d
    ||| u == 0x20
    ||| u == 0x85
    ||| u == 0xa0
    ||| u == 0x1680
    ||| 0x2000 <= u <= 0x200a
    ||| u == 0x2028
    ||| u == 0x2029
    ||| u == 0x202f
    ||| u == 0x205f
    ||| u == 0x3000
}

/// The text without its leading whitespace.
pub open spec fn trim_start(s: Seq<char>) -> Seq<char>
    decreases s.len(),
{
    if s.len() > 0 && is_white(s[0]) {
        trim_start(s.drop_first())
    } else {
        s
    }
}

/// The text without its trailing whitespace.
pub open spec fn trim_end(s: Seq<char>) -> Seq<char>
    decreases s.len(),
{
    if s.len() > 0 && is_white(s.last()) {
        trim_end(s.drop_last())
    } else {
        s
    }
}

/// The text without whitespace at either end.
pub open spec fn trim(s: Seq<char>) -> Seq<char> {
    trim_end(trim_start(s))
}

/// A lowercase hexadecimal digit: `0`-`9` or `a`-`f`.
pub open spec fn is_lower_hex(c: char) -> bool {
    ('0' <= c && c <= '9') || ('a' <= c && c <= 'f')
}

/// Where a note id has its hyphens: the `8-4-4-4-12` layout.
pub open spec fn is_hyphen_position(i: int) -> bool {
    i == 8 || i == 13 || i == 18 || i == 23
}

/// A lowercase UUID: 36 characters, hyphens between groups of
/// 8, 4, 4, 4 and 12 lowercase hexadecimal digits.
pub open spec fn is_uuid_text(s: Seq<char>) -> bool {
    &&& s.len() == 36
    &&& forall|i: int|
        0 <= i < 36 ==> (if is_hyphen_position(i) {
            s[i] == '-'
        } else {
            is_lower_hex(#[trigger] s[i])
        })
}

/// Exec counterpart of `is_white`.
pub fn char_is_white(c: char) -> (b: bool)
    ensures
        b == is_white(c),
{
    let u = c as u32;
    (0x09 <= u && u <= 0x0d) || u == 0x20 || u == 0x85 || u == 0xa0 || u == 0x1680 || (0x2000
        <= u && u <= 0x200a) || u == 0x2028 || u == 0x2029 || u == 0x202f || u == 0x205f || u
        == 0x3000
}

/// The characters of a string, in order.
pub fn chars_of(s: &str) -> (v: Vec<char>)
    ensures
        v@ == s@,
{
    broadcast use vstd::string::axiom_spec_iter;

    let mut v: Vec<char> = Vec::new();
    for c in it: s.chars()
        invariant
            v@ == it.seq().take(it.index() as int),
    {
        v.push(c);
    }
    v
}

/// `String::push` appends one character at the end.
#[verifier::external_body]
fn push_char(s: &mut String, c: char)
    ensures
        final(s)@ == old(s)@.push(c),
{
    s.push(c);
}

/// The string made of `chars[start..end]`.
pub fn string_of_range(chars: &Vec<char>, start: usize, end: usize) -> (s: String)
    requires
        start <= end <= chars.len(),
    ensures
        s@ == chars@.subrange(start as int, end as int),
{
    let mut s = String::new();
    let mut i = start;
    while i < end
        invariant
            start <= i <= end <= chars.len(),
            s@ == chars@.subrange(start as int, i as int),
        decreases end - i,
    {
        push_char(&mut s, chars[i]);
        assert(chars@.subrange(start as int, i + 1) == chars@.subrange(start as int, i as int).push(
            chars@[i as int],
        ));
        i += 1;
    }
    s
}

proof fn lemma_trim_start_skip(s: Seq<char>, i: int)
    requires
        0 <= i <= s.len(),
        forall|k: int| 0 <= k < i ==> is_white(#[trigger] s[k]),
    ensures
        trim_start(s) == trim_start(s.subrange(i, s.len() as int)),
    decreases i,
{
    if i > 0 {
        lemma_trim_start_skip(s.drop_first(), i - 1);
        assert(s.drop_first().subrange(i - 1, s.len() - 1) == s.subrange(i, s.len() as int));
    } else {
        assert(s.subrange(0, s.len() as int) == s);
    }
}

proof fn lemma_trim_end_cut(s: Seq<char>, j: int)
    requires
        0 <= j <= s.len(),
        forall|k: int| j <= k < s.len() ==> is_white(#[trigger] s[k]),
    ensures
        trim_end(s) == trim_end(s.subrange(0, j)),
    decreases s.len() - j,
{
    if j < s.len() {
        lemma_trim_end_cut(s.drop_last(), j);
        assert(s.drop_last().subrange(0, j) == s.subrange(0, j));
    } else {
        assert(s.subrange(0, s.len() as int) == s);
    }
}

/// The text without whitespace at either end, as a new string.
pub fn trim_text(text: &str) -> (t: String)
    ensures
        t@ == trim(text@),
{
    let chars = chars_of(text);
    let n = chars.len();
    let mut start: usize = 0;
    while start < n && char_is_white(chars[start])
        invariant
            n == chars.len(),
            chars@ == text@,
            start <= n,
            forall|k: int| 0 <= k < start ==> is_white(#[trigger] chars@[k]),
        decreases n - start,
    {
        start += 1;
    }
    proof {
        lemma_trim_start_skip(text@, start as int);
    }
    let ghost rest = text@.subrange(start as int, n as int);
    assert(start == n || !is_white(rest[0]));
    assert(trim_start(rest) == rest);
    let mut end: usize = n;
    while end > start && char_is_white(chars[end - 1])
        invariant
            n == chars.len(),
            chars@ == text@,
            start <= end <= n,
            forall|k: int| end <= k < n ==> is_white(#[trigger] chars@[k]),
        decreases end - start,
    {
        end -= 1;
    }
    proof {
        let m = (end - start) as int;
        assert forall|k: int| m <= k < rest.len() implies is_white(#[trigger] rest[k]) by {
            assert(rest[k] == chars@[start + k]);
        }
        lemma_trim_end_cut(rest, m);
        assert(rest.subrange(0, m) == chars@.subrange(start as int, end as int));
        let cut = rest.subrange(0, m);
        assert(cut.len() == 0 || !is_white(cut.last()));
    }
    string_of_range(&chars, start, end)
}

/// Whether `id` is a lowercase UUID in the `8-4-4-4-12` layout.
pub fn is_uuid(id: &str) -> (b: bool)
    ensures
        b == is_uuid_text(id@),
{
    let chars = chars_of(id);
    if chars.len() != 36 {
        return false;
    }
    let mut i: usize = 0;
    while i < 36
        invariant
            chars@ == id@,
            chars.len() == 36,
            i <= 36,
            forall|k: int|
                0 <= k < i ==> (if is_hyphen_position(k) {
                    chars@[k] == '-'
                } else {
                    is_lower_hex(#[trigger] chars@[k])
                }),
        decreases 36 - i,
    {
        let c = chars[i];
        let ok = if i == 8 || i == 13 || i == 18 || i == 23 {
            c == '-'
        } else {
            ('0' <= c && c <= '9') || ('a' <= c && c <= 'f')
        };
        if !ok {
            assert(!(if is_hyphen_position(i as int) {
                id@[i as int] == '-'
            } else {
                is_lower_hex(id@[i as int])
            }));
            return false;
        }
        i += 1;
    }
    true
}

/// A body as stored: trimmed, and refused when nothing is left.
pub open spec fn body_text(body: Seq<char>) -> Result<Seq<char>, ApiError> {
    if trim(body).len() > 0 {
        Ok(trim(body))
    } else {
        Err(ApiError::EmptyBody)
    }
}

/// An id as stored: trimmed, and refused unless it is a lowercase UUID.
pub open spec fn id_text(id: Seq<char>) -> Result<Seq<char>, ApiError> {
    if is_uuid_text(trim(id)) {
        Ok(trim(id))
    } else {
        Err(ApiError::BadId)
    }
}

/// The trimmed body, or `EmptyBody` when only whitespace was sent.
pub fn trimmed_body(body: &str) -> (r: Result<String, ApiError>)
    ensures
        match r {
            Ok(t) => body_text(body@) == Ok::<Seq<char>, ApiError>(t@),
            Err(e) => body_text(body@) == Err::<Seq<char>, ApiError>(e),
        },
{
    let t = trim_text(body);
    if t.as_str().is_empty() {
        Err(ApiError::EmptyBody)
    } else {
        Ok(t)
    }
}

/// The trimmed id, or `BadId` unless it is a lowercase UUID.
pub fn checked_id(id: &str) -> (r: Result<String, ApiError>)
    ensures
        match r {
            Ok(t) => id_text(id@) == Ok::<Seq<char>, ApiError>(t@),
            Err(e) => id_text(id@) == Err::<Seq<char>, ApiError>(e),
        },
{
    let t = trim_text(id);
    if is_uuid(t.as_str()) {
        Ok(t)
    } else {
        Err(ApiError::BadId)
    }
}

} // verus!

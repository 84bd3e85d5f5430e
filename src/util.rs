//! File names made safe from titles.
use vstd::prelude::*;
use vstd::string::{StrSliceExecFns, StringExecFns};

use crate::time::decimal_text;

verus! {

/// Whether a character has the Unicode `White_Space` property: tab, line
/// feed, vertical tab, form feed, carriage return, space, next line,
/// no-break space, Ogham space mark, the spaces U+2000 to U+200A, line and
/// paragraph separators, narrow no-break space, medium mathematical space,
/// and ideographic space.
pub open spec fn unicode_whitespace(c: char) -> bool {
    let u = c as u32;
    ||| 0x09 <= u <= 0x0d
    ||| u == 0x20
    ||| u == 0x85
    ||| u == 0xa0
    ||| u == 0x1680
    ||| 0x2000 <= u <= 0x200a
    ||| u == 0x2028
    ||| u == 0x2029
    ||| u == 0x202f
    ||| u == 0x205f
    ||| u == 0x3000
}

/// Whether a character is Unicode alphabetic or numeric.
pub uninterp spec fn unicode_alphanumeric(c: char) -> bool;

/// Whether `c` has the Unicode `White_Space` property.
pub fn char_is_whitespace(c: char) -> (r: bool)
    ensures
        r == unicode_whitespace(c),
{
    let u = c as u32;
    (0x09 <= u && u <= 0x0d) || u == 0x20 || u == 0x85 || u == 0xa0 || u == 0x1680 || (0x2000
        <= u && u <= 0x200a) || u == 0x2028 || u == 0x2029 || u == 0x202f || u == 0x205f || u
        == 0x3000
}

/// Relies on `char::is_alphanumeric`: whether `c` is alphabetic or
/// numeric in Unicode, which depends on `c` alone.
#[verifier::external_body]
fn char_is_alphanumeric(c: char) -> (r: bool)
    ensures
        r == unicode_alphanumeric(c),
{
    c.is_alphanumeric()
}

/// Relies on `String::push`: appends one character.
#[verifier::external_body]
pub(crate) fn push_char(s: &mut String, c: char)
    ensures
        final(s)@ == old(s)@.push(c),
{
    s.push(c)
}

/// Appends the decimal digits of `n`.
pub(crate) fn push_decimal(s: &mut String, n: usize)
    ensures
        final(s)@ == old(s)@ + decimal_text(n as nat),
    decreases n,
{
    if n >= 10 {
        push_decimal(s, n / 10);
    }
    let digit = (n % 10) as u32;
    let c = char_from_digit(digit);
    push_char(s, c);
    assert(s@ =~= old(s)@ + decimal_text(n as nat)) by {
        if n < 10 {
            assert(n % 10 == n);
        }
    }
}

fn char_from_digit(d: u32) -> (c: char)
    requires
        d < 10,
    ensures
        c == (d + '0' as nat) as char,
{
    match d {
        0 => '0',
        1 => '1',
        2 => '2',
        3 => '3',
        4 => '4',
        5 => '5',
        6 => '6',
        7 => '7',
        8 => '8',
        _ => '9',
    }
}

/// White space becomes `_` and `/` becomes `-`.
pub open spec fn file_char(c: char) -> char {
    if unicode_whitespace(c) {
        '_'
    } else if c == '/' {
        '-'
    } else {
        c
    }
}

/// The characters kept in a file name.
pub open spec fn keeps_char(c: char) -> bool {
    unicode_alphanumeric(c) || c == '.' || c == '_' || c == '-'
}

/// `s` with every character mapped by `file_char`, keeping those that
/// `keeps_char` accepts.
pub open spec fn safe_name(s: Seq<char>) -> Seq<char>
    decreases s.len(),
{
    if s.len() == 0 {
        seq![]
    } else {
        let c = file_char(s.last());
        if keeps_char(c) {
            safe_name(s.drop_last()).push(c)
        } else {
            safe_name(s.drop_last())
        }
    }
}

/// `s` without the dots that end it.
pub open spec fn trim_end_dots(s: Seq<char>) -> Seq<char>
    decreases s.len(),
{
    if s.len() > 0 && s.last() == '.' {
        trim_end_dots(s.drop_last())
    } else {
        s
    }
}

/// `s` without the dots that start it.
pub open spec fn trim_start_dots(s: Seq<char>) -> Seq<char>
    decreases s.len(),
{
    if s.len() > 0 && s[0] == '.' {
        trim_start_dots(s.drop_first())
    } else {
        s
    }
}

/// The file name for `input` with `extension`.
pub open spec fn filename_spec(input: Seq<char>, extension: Seq<char>) -> Seq<char> {
    if extension.len() == 0 {
        safe_name(input)
    } else {
        trim_end_dots(safe_name(input)) + seq!['.'] + trim_start_dots(extension)
    }
}

proof fn lemma_trim_end_at(s: Seq<char>, k: int)
    requires
        0 <= k <= s.len(),
        forall|j: int| k <= j < s.len() ==> s[j] == '.',
        k == 0 || s[k - 1] != '.',
    ensures
        trim_end_dots(s) == s.subrange(0, k),
    decreases s.len(),
{
    if s.len() == k {
        assert(s.subrange(0, k) =~= s);
    } else {
        lemma_trim_end_at(s.drop_last(), k);
        assert(s.drop_last().subrange(0, k) =~= s.subrange(0, k));
    }
}

proof fn lemma_trim_start_at(s: Seq<char>, k: int)
    requires
        0 <= k <= s.len(),
        forall|j: int| 0 <= j < k ==> s[j] == '.',
        k == s.len() || s[k] != '.',
    ensures
        trim_start_dots(s) == s.subrange(k, s.len() as int),
    decreases k,
{
    if k == 0 {
        assert(s.subrange(0, s.len() as int) =~= s);
    } else {
        lemma_trim_start_at(s.drop_first(), k - 1);
        assert(s.drop_first().subrange(k - 1, s.len() - 1) =~= s.subrange(k, s.len() as int));
    }
}

/// Makes a file name from a title: white space becomes `_`, `/` becomes
/// `-`, and only alphanumeric characters, `.`, `_` and `-` are kept. With a
/// non-empty extension, the trailing dots of the name and the leading dots
/// of the extension are dropped and the two are joined by a dot.
pub fn make_filename(input: &str, extension: &str) -> (r: String)
    ensures
        r@ == filename_spec(input@, extension@),
{
    let n = input.unicode_len();
    let mut safe = String::new();
    let mut i: usize = 0;
    while i < n
        invariant
            n == input@.len(),
            i <= n,
            safe@ == safe_name(input@.take(i as int)),
        decreases n - i,
    {
        let c = input.get_char(i);
        let mapped = if char_is_whitespace(c) {
            '_'
        } else if c == '/' {
            '-'
        } else {
            c
        };
        if char_is_alphanumeric(mapped) || mapped == '.' || mapped == '_' || mapped == '-' {
            push_char(&mut safe, mapped);
        }
        proof {
            assert(input@.take(i + 1).drop_last() =~= input@.take(i as int));
        }
        i = i + 1;
    }
    assert(input@.take(n as int) =~= input@);
    let m = extension.unicode_len();
    if m == 0 {
        return safe;
    }
    let len = safe.as_str().unicode_len();
    let mut end: usize = len;
    while end > 0 && safe.as_str().get_char(end - 1) == '.'
        invariant
            len == safe@.len(),
            end <= len,
            forall|j: int| end <= j < len ==> safe@[j] == '.',
        decreases end,
    {
        end = end - 1;
    }
    proof {
        lemma_trim_end_at(safe@, end as int);
    }
    let mut start: usize = 0;
    while start < m && extension.get_char(start) == '.'
        invariant
            m == extension@.len(),
            start <= m,
            forall|j: int| 0 <= j < start ==> extension@[j] == '.',
        decreases m - start,
    {
        start = start + 1;
    }
    proof {
        lemma_trim_start_at(extension@, start as int);
    }
    let mut result = safe.as_str().substring_char(0, end).to_string();
    push_char(&mut result, '.');
    result.append(extension.substring_char(start, m));
    result
}

} // verus!

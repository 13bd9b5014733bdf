//! Turning a line of text into the word that the model reads.

use vstd::prelude::*;

verus! {

/// The character that the lower-case mapping of `c` begins with.
pub uninterp spec fn lowercase_first(c: char) -> char;

/// Relies on `char::to_lowercase`, which yields one or more characters:
/// the first of them.
#[verifier::external_body]
fn lowercase_char(c: char) -> (r: char)
    ensures
        r == lowercase_first(c),
{
    c.to_lowercase().nth(0).unwrap()
}

/// Relies on `String::push`, which appends one character.
#[verifier::external_body]
fn push_char(s: &mut String, c: char)
    ensures
        final(s)@ == old(s)@.push(c),
{
    s.push(c)
}

/// The characters removed from the end of a line.
pub open spec fn is_trailing_junk(c: char) -> bool {
    c == '!' || c == '?' || c == ' ' || c == '\n'
}

/// The line without its trailing run of `! ? space newline`.
pub open spec fn trim_end(s: Seq<char>) -> Seq<char>
    decreases s.len(),
{
    if s.len() > 0 && is_trailing_junk(s.last()) {
        trim_end(s.drop_last())
    } else {
        s
    }
}

/// The four vowels with a circumflex become plain vowels; every other
/// character stays.
pub open spec fn strip_circumflex(c: char) -> char {
    if c == '\u{e2}' {
        'a'
    } else if c == '\u{ea}' {
        'e'
    } else if c == '\u{ee}' {
        'i'
    } else if c == '\u{f4}' {
        'o'
    } else {
        c
    }
}

/// What one character of the word becomes.
pub open spec fn fold_char(c: char) -> char {
    strip_circumflex(lowercase_first(c))
}

/// The word that a line stands for.
pub open spec fn normalized(line: Seq<char>) -> Seq<char> {
    trim_end(line).map_values(|c: char| fold_char(c))
}

/// Replaces a vowel with a circumflex (a, e, i, o) by the plain vowel; any
/// other character is returned as it is. This is the step that follows
/// lower-casing.
pub fn strip_circumflex_char(c: char) -> (r: char)
    ensures
        r == strip_circumflex(c),
{
    match c {
        '\u{e2}' => 'a',
        '\u{ea}' => 'e',
        '\u{ee}' => 'i',
        '\u{f4}' => 'o',
        _ => c,
    }
}

/// Whether character `k - 1` of the line exists and is removed from the end.
fn junk_before(line: &str, k: usize) -> (r: bool)
    requires
        k <= line@.len(),
    ensures
        r == (k > 0 && is_trailing_junk(line@[k - 1])),
{
    if k == 0 {
        return false;
    }
    let c = line.get_char(k - 1);
    c == '!' || c == '?' || c == ' ' || c == '\n'
}

/// Removes the trailing `! ? space newline` run of the line (leading ones
/// stay), lower-cases each character and strips the circumflex from
/// a, e, i and o.
pub fn line_to_word(line: &str) -> (r: String)
    ensures
        r@ == normalized(line@),
{
    let n = line.unicode_len();
    let mut k: usize = n;
    assert(line@.take(n as int) =~= line@);
    while junk_before(line, k)
        invariant
            n == line@.len(),
            0 <= k <= n,
            trim_end(line@) == trim_end(line@.take(k as int)),
        decreases k,
    {
        assert(line@.take(k as int).drop_last() =~= line@.take(k - 1));
        k -= 1;
    }
    let ghost word = line@.take(k as int);
    assert(trim_end(word) == word);
    let mut buffer = String::new();
    let mut i: usize = 0;
    while i < k
        invariant
            n == line@.len(),
            0 <= i <= k <= n,
            word == line@.take(k as int),
            buffer@ == word.take(i as int).map_values(|c: char| fold_char(c)),
        decreases k - i,
    {
        let ch = lowercase_char(line.get_char(i));
        push_char(&mut buffer, strip_circumflex_char(ch));
        assert(word.take(i + 1).map_values(|c: char| fold_char(c)) =~= word.take(
            i as int,
        ).map_values(|c: char| fold_char(c)).push(fold_char(word[i as int])));
        i += 1;
    }
    assert(word.take(k as int) =~= word);
    buffer
}

} // verus!

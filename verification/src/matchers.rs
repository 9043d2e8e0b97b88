//! Searches of a line for single code points and for text, without a pattern.
use vstd::prelude::*;
use crate::model::{is_digit, is_word_like, occurs_at};
use crate::patterns::{is_digit_char, is_word_char};
use crate::text::chars_of;

verus! {

/// Whether `text` stands somewhere in `s`.
pub open spec fn contains_text(s: Seq<char>, text: Seq<char>) -> bool {
    exists|i: int| occurs_at(s, i, text)
}

/// Whether some code point of `s` is one of `0` to `9`.
pub open spec fn contains_digit(s: Seq<char>) -> bool {
    exists|i: int| 0 <= i < s.len() && is_digit(#[trigger] s[i])
}

/// Whether some code point of `s` is one of `0` to `9`, `A` to `Z`, `a` to
/// `z`, or `_`.
pub open spec fn contains_word_like(s: Seq<char>) -> bool {
    exists|i: int| 0 <= i < s.len() && is_word_like(#[trigger] s[i])
}

/// Whether some code point of `chars` is in `s`.
pub open spec fn contains_any_of(s: Seq<char>, chars: Seq<char>) -> bool {
    exists|j: int| 0 <= j < chars.len() && s.contains(#[trigger] chars[j])
}

/// Whether `text` stands in `line` at `pos`.
fn stands_at(line: &Vec<char>, pos: usize, text: &Vec<char>) -> (r: bool)
    requires
        pos + text.len() <= line.len(),
    ensures
        r == occurs_at(line@, pos as int, text@),
{
    let n = text.len();
    let mut i: usize = 0;
    while i < n
        invariant
            i <= n,
            n == text.len(),
            pos + n <= line.len(),
            forall|k: int| 0 <= k < i ==> line@[pos + k] == text@[k],
        decreases n - i,
    {
        if line[pos + i] != text[i] {
            assert(line@.subrange(pos as int, pos + n)[i as int] == line@[pos + i]);
            return false;
        }
        i += 1;
    }
    assert(line@.subrange(pos as int, pos + n) =~= text@);
    true
}

/// Whether the line contains `char`, which may be more than one code point
/// long, as a contiguous piece.
pub fn match_char(input_line: &str, char: &str) -> (r: bool)
    ensures
        r == contains_text(input_line@, char@),
{
    let line = chars_of(input_line);
    let text = chars_of(char);
    if text.len() > line.len() {
        return false;
    }
    let last = line.len() - text.len();
    let mut pos: usize = 0;
    loop
        invariant
            pos <= last,
            last == line.len() - text.len(),
            text.len() <= line.len(),
            line@ == input_line@,
            text@ == char@,
            forall|i: int| 0 <= i < pos ==> !occurs_at(line@, i, text@),
        decreases last - pos,
    {
        if stands_at(&line, pos, &text) {
            return true;
        }
        if pos == last {
            return false;
        }
        pos += 1;
    }
}

/// Whether the line contains a digit.
pub fn match_digit(input_line: &str) -> (r: bool)
    ensures
        r == contains_digit(input_line@),
{
    let line = chars_of(input_line);
    let mut i: usize = 0;
    while i < line.len()
        invariant
            i <= line.len(),
            line@ == input_line@,
            forall|k: int| 0 <= k < i ==> !is_digit(#[trigger] line@[k]),
        decreases line.len() - i,
    {
        if is_digit_char(line[i]) {
            return true;
        }
        i += 1;
    }
    false
}

/// Whether the line contains a digit, an ASCII letter or `_`.
pub fn match_wordlike(input_line: &str) -> (r: bool)
    ensures
        r == contains_word_like(input_line@),
{
    let line = chars_of(input_line);
    let mut i: usize = 0;
    while i < line.len()
        invariant
            i <= line.len(),
            line@ == input_line@,
            forall|k: int| 0 <= k < i ==> !is_word_like(#[trigger] line@[k]),
        decreases line.len() - i,
    {
        if is_word_char(line[i]) {
            return true;
        }
        i += 1;
    }
    false
}

/// Whether `line` contains `c`.
fn contains_char(line: &Vec<char>, c: char) -> (r: bool)
    ensures
        r == line@.contains(c),
{
    let mut i: usize = 0;
    while i < line.len()
        invariant
            i <= line.len(),
            forall|k: int| 0 <= k < i ==> line@[k] != c,
        decreases line.len() - i,
    {
        if line[i] == c {
            return true;
        }
        i += 1;
    }
    false
}

/// Whether the line contains one of the code points of `chars`.
pub fn match_positive_group(input_line: &str, chars: &str) -> (r: bool)
    ensures
        r == contains_any_of(input_line@, chars@),
{
    let line = chars_of(input_line);
    let members = chars_of(chars);
    let mut j: usize = 0;
    while j < members.len()
        invariant
            j <= members.len(),
            line@ == input_line@,
            members@ == chars@,
            forall|k: int| 0 <= k < j ==> !line@.contains(#[trigger] members@[k]),
        decreases members.len() - j,
    {
        if contains_char(&line, members[j]) {
            return true;
        }
        j += 1;
    }
    false
}

} // verus!

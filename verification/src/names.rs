//! Player names typed at the client's prompt.

use vstd::prelude::*;

verus! {

/// Keeps names small enough for display and for the payload budget.
pub const MAX_NAME_CHARS: usize = 24;

/// Why a typed name was refused.
#[derive(Debug, Clone, Copy, PartialEq, Eq, Structural)]
pub enum NameError {
    /// Nothing but whitespace was typed.
    Empty,
    /// More than `MAX_NAME_CHARS` characters remain after trimming.
    TooLong,
}

/// The explanation the name prompt prints for a refused name.
pub open spec fn message_text(e: NameError) -> Seq<char> {
    match e {
        NameError::Empty => "Name must not be empty."@,
        NameError::TooLong => "Name must be at most 24 characters."@,
    }
}

impl NameError {
    /// The explanation the name prompt prints for this refusal.
    pub fn message(&self) -> (r: &'static str)
        ensures
            r@ == message_text(*self),
    {
        match self {
            NameError::Empty => "Name must not be empty.",
            NameError::TooLong => "Name must be at most 24 characters.",
        }
    }
}

/// Unicode's `White_Space` property, which `char::is_whitespace` and
/// `str::trim` go by.
pub open spec fn is_white_space(c: char) -> bool {
    ||| ('\u{9}' <= c && c <= '\u{d}')
    ||| c == ' '
    ||| c == '\u{85}'
    ||| c == '\u{a0}'
    ||| c == '\u{1680}'
    ||| ('\u{2000}' <= c && c <= '\u{200a}')
    ||| c == '\u{2028}'
    ||| c == '\u{2029}'
    ||| c == '\u{202f}'
    ||| c == '\u{205f}'
    ||| c == '\u{3000}'
}

/// Whether `c` is whitespace, as `char::is_whitespace` answers.
pub fn is_whitespace(c: char) -> (r: bool)
    ensures
        r == is_white_space(c),
{
    ('\u{9}' <= c && c <= '\u{d}') || c == ' ' || c == '\u{85}' || c == '\u{a0}' || c == '\u{1680}'
        || ('\u{2000}' <= c && c <= '\u{200a}') || c == '\u{2028}' || c == '\u{2029}' || c
        == '\u{202f}' || c == '\u{205f}' || c == '\u{3000}'
}

/// `a` is the position of the first non-whitespace character of `s`.
pub open spec fn is_trim_start(s: Seq<char>, a: int) -> bool {
    &&& 0 <= a < s.len()
    &&& !is_white_space(s[a])
    &&& forall|i: int| 0 <= i < a ==> is_white_space(#[trigger] s[i])
}

/// `b` is one past the position of the last non-whitespace character of
/// `s`.
pub open spec fn is_trim_end(s: Seq<char>, b: int) -> bool {
    &&& 0 < b <= s.len()
    &&& !is_white_space(s[b - 1])
    &&& forall|i: int| b <= i < s.len() ==> is_white_space(#[trigger] s[i])
}

/// `s` with leading and trailing whitespace removed, as `str::trim` does:
/// the span from the first to the last non-whitespace character.
pub open spec fn trimmed(s: Seq<char>) -> Seq<char> {
    if forall|i: int| 0 <= i < s.len() ==> is_white_space(#[trigger] s[i]) {
        Seq::empty()
    } else {
        let start = choose|a: int| #[trigger] is_trim_start(s, a);
        let end = choose|b: int| #[trigger] is_trim_end(s, b);
        s.subrange(start, end)
    }
}

/// What the prompt accepts: the typed line, trimmed, if it is neither
/// empty nor longer than `MAX_NAME_CHARS` characters.
pub open spec fn name_check(line: Seq<char>) -> Result<Seq<char>, NameError> {
    let name = trimmed(line);
    if name.len() == 0 {
        Err(NameError::Empty)
    } else if name.len() > MAX_NAME_CHARS {
        Err(NameError::TooLong)
    } else {
        Ok(name)
    }
}

/// Checks one line typed at the name prompt: trims it, then refuses it if
/// nothing is left or if it has more than `MAX_NAME_CHARS` characters.
pub fn validate_name(line: &str) -> (r: Result<String, NameError>)
    ensures
        match name_check(line@) {
            Ok(name) => r matches Ok(s) && s@ == name,
            Err(e) => r == Err::<String, NameError>(e),
        },
{
    let len = line.unicode_len();
    let ghost s = line@;
    let mut start: usize = 0;
    while start < len && is_whitespace(line.get_char(start))
        invariant
            s == line@,
            len == s.len(),
            start <= len,
            forall|i: int| 0 <= i < start ==> is_white_space(#[trigger] s[i]),
        decreases len - start,
    {
        start = start + 1;
    }
    if start == len {
        proof {
            assert(trimmed(s) =~= Seq::<char>::empty());
        }
        return Err(NameError::Empty);
    }
    let mut end: usize = len;
    while end > start && is_whitespace(line.get_char(end - 1))
        invariant
            s == line@,
            len == s.len(),
            start < end <= len,
            !is_white_space(s[start as int]),
            forall|i: int| end <= i < len ==> is_white_space(#[trigger] s[i]),
        decreases end,
    {
        end = end - 1;
    }
    proof {
        lemma_trimmed_is_span(s, start as int, end as int);
    }
    if end - start > MAX_NAME_CHARS {
        return Err(NameError::TooLong);
    }
    let name = line.substring_char(start, end).to_owned();
    Ok(name)
}

proof fn lemma_trimmed_is_span(s: Seq<char>, start: int, end: int)
    requires
        0 <= start < end <= s.len(),
        !is_white_space(s[start]),
        !is_white_space(s[end - 1]),
        forall|i: int| 0 <= i < start ==> is_white_space(#[trigger] s[i]),
        forall|i: int| end <= i < s.len() ==> is_white_space(#[trigger] s[i]),
    ensures
        trimmed(s) == s.subrange(start, end),
{
    assert(is_trim_start(s, start));
    assert(is_trim_end(s, end));
    let a = choose|a: int| #[trigger] is_trim_start(s, a);
    let b = choose|b: int| #[trigger] is_trim_end(s, b);
    if a < start {
        assert(is_white_space(s[a]));
    }
    if start < a {
        assert(is_white_space(s[start]));
    }
    if b < end {
        assert(is_white_space(s[end - 1]));
    }
    if end < b {
        assert(is_white_space(s[b - 1]));
    }
}

} // verus!

//! Heuristic classification of clipboard text that looks like a secret.
//! Best-effort masking for display, not a security boundary.

use vstd::prelude::*;
use vstd::string::StrSliceExecFns;
use crate::text::{starts_with, starts_with_chars, trim_spaces, trimmed};

verus! {

pub open spec fn is_upper_char(c: char) -> bool {
    0x41 <= c as u32 && c as u32 <= 0x5a
}

pub open spec fn is_lower_char(c: char) -> bool {
    0x61 <= c as u32 && c as u32 <= 0x7a
}

pub open spec fn is_digit_char(c: char) -> bool {
    0x30 <= c as u32 && c as u32 <= 0x39
}

/// ASCII-alphanumeric; every other character counts as "special", which
/// deliberately also fires on non-ASCII letters.
pub open spec fn is_alnum_char(c: char) -> bool {
    is_upper_char(c) || is_lower_char(c) || is_digit_char(c)
}

pub open spec fn has_upper(s: Seq<char>) -> bool {
    exists|i: int| 0 <= i < s.len() && is_upper_char(s[i])
}

pub open spec fn has_lower(s: Seq<char>) -> bool {
    exists|i: int| 0 <= i < s.len() && is_lower_char(s[i])
}

pub open spec fn has_digit(s: Seq<char>) -> bool {
    exists|i: int| 0 <= i < s.len() && is_digit_char(s[i])
}

pub open spec fn has_special(s: Seq<char>) -> bool {
    exists|i: int| 0 <= i < s.len() && !is_alnum_char(s[i])
}

pub open spec fn has_char(s: Seq<char>, c: char) -> bool {
    exists|i: int| 0 <= i < s.len() && s[i] == c
}

/// How many of the four character classes occur in the text.
pub open spec fn feature_count(s: Seq<char>) -> int {
    (if has_upper(s) {
        1int
    } else {
        0int
    }) + (if has_lower(s) {
        1int
    } else {
        0int
    }) + (if has_digit(s) {
        1int
    } else {
        0int
    }) + (if has_special(s) {
        1int
    } else {
        0int
    })
}

/// A text is classified sensitive when it is no URL, is 8 to 128 characters
/// long, holds neither spaces nor newlines, and mixes at least three of the
/// four character classes. The URL test looks at the trimmed text; all other
/// features look at the text as given.
pub open spec fn spec_is_likely_password(text: Seq<char>) -> bool {
    if starts_with_chars(trim_spaces(text), "http://"@) || starts_with_chars(
        trim_spaces(text),
        "https://"@,
    ) {
        false
    } else {
        8 <= text.len() <= 128 && !has_char(text, ' ') && !has_char(text, '\n') && feature_count(
            text,
        ) >= 3
    }
}

/// Decides whether a text should be masked in previews.
pub fn is_likely_password(text: &str) -> (r: bool)
    ensures
        r == spec_is_likely_password(text@),
{
    let t = trimmed(text);
    if starts_with(t, "http://") || starts_with(t, "https://") {
        return false;
    }
    let n: usize = text.unicode_len();
    let mut upper: bool = false;
    let mut lower: bool = false;
    let mut digit: bool = false;
    let mut special: bool = false;
    let mut space: bool = false;
    let mut newline: bool = false;
    let mut i: usize = 0;
    while i < n
        invariant
            0 <= i <= n,
            n == text@.len(),
            upper ==> has_upper(text@),
            !upper ==> forall|j: int| 0 <= j < i ==> !is_upper_char(#[trigger] text@[j]),
            lower ==> has_lower(text@),
            !lower ==> forall|j: int| 0 <= j < i ==> !is_lower_char(#[trigger] text@[j]),
            digit ==> has_digit(text@),
            !digit ==> forall|j: int| 0 <= j < i ==> !is_digit_char(#[trigger] text@[j]),
            special ==> has_special(text@),
            !special ==> forall|j: int| 0 <= j < i ==> is_alnum_char(#[trigger] text@[j]),
            space ==> has_char(text@, ' '),
            !space ==> forall|j: int| 0 <= j < i ==> #[trigger] text@[j] != ' ',
            newline ==> has_char(text@, '\n'),
            !newline ==> forall|j: int| 0 <= j < i ==> #[trigger] text@[j] != '\n',
        decreases n - i,
    {
        let c = text.get_char(i);
        let u: u32 = c as u32;
        if 0x41 <= u && u <= 0x5a {
            upper = true;
        }
        if 0x61 <= u && u <= 0x7a {
            lower = true;
        }
        if 0x30 <= u && u <= 0x39 {
            digit = true;
        }
        if !(0x41 <= u && u <= 0x5a) && !(0x61 <= u && u <= 0x7a) && !(0x30 <= u && u <= 0x39) {
            special = true;
        }
        if c == ' ' {
            space = true;
        }
        if c == '\n' {
            newline = true;
        }
        i = i + 1;
    }
    proof {
        if !upper {
            assert(!has_upper(text@));
        }
        if !lower {
            assert(!has_lower(text@));
        }
        if !digit {
            assert(!has_digit(text@));
        }
        if !special {
            assert(!has_special(text@));
        }
        if !space {
            assert(!has_char(text@, ' '));
        }
        if !newline {
            assert(!has_char(text@, '\n'));
        }
    }
    let mut mixed: u32 = 0;
    if upper {
        mixed = mixed + 1;
    }
    if lower {
        mixed = mixed + 1;
    }
    if digit {
        mixed = mixed + 1;
    }
    if special {
        mixed = mixed + 1;
    }
    8 <= n && n <= 128 && !space && !newline && mixed >= 3
}

} // verus!

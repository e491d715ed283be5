//! Dates written as `@YYYY-MM` or `@YYYY-MM-DD`.
use crate::text::is_ascii_digit;
use vstd::prelude::*;

verus! {

/// Membership of `c` in the regex crate's `\d` class (Unicode decimal
/// digits, general category `Nd`).
pub uninterp spec fn decimal_digit(c: char) -> bool;

/// Asks the regex crate whether `c` matches `^\d$`. The contract names the
/// answer, and states what the crate's documentation gives outright (`\d` is
/// Unicode's `Nd`): among ASCII characters exactly `0`-`9` are in the class.
/// Which other characters are (the rest of `Nd`) is left to the name.
#[verifier::external_body]
fn is_decimal_digit(c: char) -> (b: bool)
    ensures
        b == decimal_digit(c),
        c <= '\u{7f}' ==> (b == is_ascii_digit(c)),
{
    let mut buf = [0u8; 4];
    match regex::Regex::new(r"^\d$") {
        Ok(re) => re.is_match(c.encode_utf8(&mut buf)),
        Err(_) => false,
    }
}

/// A digit of a date: `0`-`9` among ASCII characters, and beyond ASCII
/// whatever the regex crate's `\d` accepts.
pub open spec fn date_digit(c: char) -> bool {
    if c <= '\u{7f}' {
        is_ascii_digit(c)
    } else {
        decimal_digit(c)
    }
}

fn date_digit_exec(c: char) -> (b: bool)
    ensures
        b == date_digit(c),
{
    if c <= '\u{7f}' {
        '0' <= c && c <= '9'
    } else {
        is_decimal_digit(c)
    }
}

/// End of the date `@dddd-dd` (greedily extended by `-dd`) that starts at
/// `s[i]`, if one does.
pub open spec fn date_match_at(s: Seq<char>, i: int) -> Option<int> {
    if 0 <= i && i + 8 <= s.len() && s[i] == '@' && date_digit(s[i + 1]) && date_digit(
        s[i + 2],
    ) && date_digit(s[i + 3]) && date_digit(s[i + 4]) && s[i + 5] == '-' && date_digit(
        s[i + 6],
    ) && date_digit(s[i + 7]) {
        if i + 11 <= s.len() && s[i + 8] == '-' && date_digit(s[i + 9]) && date_digit(
            s[i + 10],
        ) {
            Some(i + 11)
        } else {
            Some(i + 8)
        }
    } else {
        None
    }
}

/// The leftmost date in `s` at or after `i`: its start (the `@`) and end.
pub open spec fn date_search(s: Seq<char>, i: int) -> Option<(int, int)>
    decreases s.len() - i,
{
    if i < 0 || i >= s.len() {
        None
    } else {
        match date_match_at(s, i) {
            Some(e) => Some((i, e)),
            None => date_search(s, i + 1),
        }
    }
}

/// A line that is exactly a date: the date without its `@`.
pub open spec fn date_line(l: Seq<char>) -> Option<Seq<char>> {
    match date_match_at(l, 0) {
        Some(e) => if e == l.len() {
            Some(l.subrange(1, e))
        } else {
            None
        },
        None => None,
    }
}

pub proof fn lemma_date_search(s: Seq<char>, i: int)
    requires
        0 <= i,
    ensures
        match date_search(s, i) {
            Some((a, e)) => i <= a && date_match_at(s, a) == Some(e) && a + 8 <= e <= s.len()
                && forall|m: int| i <= m < a ==> date_match_at(s, m) is None,
            None => forall|m: int| i <= m < s.len() ==> date_match_at(s, m) is None,
        },
    decreases s.len() - i,
{
    if i < s.len() && date_match_at(s, i) is None {
        lemma_date_search(s, i + 1);
    }
}

/// `date_match_at` on `v`.
pub fn date_match_at_exec(v: &Vec<char>, i: usize) -> (r: Option<usize>)
    ensures
        match r {
            Some(e) => date_match_at(v@, i as int) == Some(e as int),
            None => date_match_at(v@, i as int) is None,
        },
{
    if i <= v.len() && 8 <= v.len() - i && v[i] == '@' && date_digit_exec(v[i + 1])
        && date_digit_exec(v[i + 2]) && date_digit_exec(v[i + 3]) && date_digit_exec(v[i + 4])
        && v[i + 5] == '-' && date_digit_exec(v[i + 6]) && date_digit_exec(v[i + 7]) {
        if 11 <= v.len() - i && v[i + 8] == '-' && date_digit_exec(v[i + 9]) && date_digit_exec(
            v[i + 10],
        ) {
            Some(i + 11)
        } else {
            Some(i + 8)
        }
    } else {
        None
    }
}

/// `date_search` on `v`.
pub fn date_search_exec(v: &Vec<char>, i: usize) -> (r: Option<(usize, usize)>)
    ensures
        match r {
            Some((a, e)) => date_search(v@, i as int) == Some((a as int, e as int)),
            None => date_search(v@, i as int) is None,
        },
{
    let mut k = i;
    while k < v.len()
        invariant
            i <= k,
            date_search(v@, k as int) == date_search(v@, i as int),
        decreases v.len() - k,
    {
        match date_match_at_exec(v, k) {
            Some(e) => return Some((k, e)),
            None => {},
        }
        k += 1;
    }
    None
}

/// The text of a date without its `@`: `dddd-dd` or `dddd-dd-dd`, each `d`
/// a date digit.
pub open spec fn date_shape(d: Seq<char>) -> bool {
    &&& d.len() == 7 || d.len() == 10
    &&& date_digit(d[0]) && date_digit(d[1]) && date_digit(d[2]) && date_digit(d[3])
    &&& d[4] == '-' && date_digit(d[5]) && date_digit(d[6])
    &&& d.len() == 10 ==> d[7] == '-' && date_digit(d[8]) && date_digit(d[9])
}

/// A date found by the search has the date shape.
pub proof fn lemma_found_date_shape(s: Seq<char>)
    ensures
        date_search(s, 0) matches Some((a, e)) ==> date_shape(s.subrange(a + 1, e)),
{
    lemma_date_search(s, 0);
}

} // verus!

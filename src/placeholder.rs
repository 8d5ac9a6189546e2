//! The grammar of a printf-style format directive, and a scanner for it.
//!
//! A directive is `%`, an optional positional index (`digits$`), an optional
//! flag, an optional width, an optional precision, an optional length modifier
//! and one type character. None of the characters between the `%` and the
//! type character is itself a type character, so a directive that starts at a
//! given position has exactly one extent.
use vstd::prelude::*;

verus! {

pub open spec fn is_digit(c: char) -> bool {
    '0' <= c && c <= '9'
}

pub open spec fn is_flag(c: char) -> bool {
    c == '-' || c == '+' || c == '0' || c == '#' || c == ','
}

/// The type characters; `@` is the platform's object directive.
pub open spec fn is_type_char(c: char) -> bool {
    c == 'd' || c == 'i' || c == 'u' || c == 'f' || c == 'F' || c == 'e' || c == 'E'
        || c == 'g' || c == 'G' || c == 'x' || c == 'X' || c == 'o' || c == 's' || c == 'c'
        || c == 'p' || c == 'a' || c == 'A' || c == '@'
}

/// Number of consecutive digits of `s` from position `i` on.
pub open spec fn digit_run(s: Seq<char>, i: int) -> nat
    decreases s.len() - i,
{
    if 0 <= i < s.len() && is_digit(s[i]) {
        1 + digit_run(s, i + 1)
    } else {
        0
    }
}

/// Length of the positional index `digits$` at `i`, or 0 where there is none.
pub open spec fn positional_len(s: Seq<char>, i: int) -> nat {
    let d = digit_run(s, i);
    if d > 0 && d < s.len() - i && s[i + d] == '$' {
        d + 1
    } else {
        0
    }
}

pub open spec fn flag_len(s: Seq<char>, i: int) -> nat {
    if 0 <= i < s.len() && is_flag(s[i]) {
        1
    } else {
        0
    }
}

/// Width: digits, or `*`.
pub open spec fn width_len(s: Seq<char>, i: int) -> nat {
    if 0 <= i < s.len() && s[i] == '*' {
        1
    } else {
        digit_run(s, i)
    }
}

/// Precision: `.` followed by digits or by `*`.
pub open spec fn precision_len(s: Seq<char>, i: int) -> nat {
    if 0 <= i && i + 1 < s.len() && s[i] == '.' {
        if s[i + 1] == '*' {
            2
        } else if digit_run(s, i + 1) > 0 {
            1 + digit_run(s, i + 1)
        } else {
            0
        }
    } else {
        0
    }
}

/// Length modifier: `hh`, `h`, `ll`, `l`, `L`, `z`, `j`, `t` or `q`.
pub open spec fn length_len(s: Seq<char>, i: int) -> nat {
    if 0 <= i < s.len() {
        if s[i] == 'h' || s[i] == 'l' {
            if i + 1 < s.len() && s[i + 1] == s[i] {
                2
            } else {
                1
            }
        } else if s[i] == 'L' || s[i] == 'z' || s[i] == 'j' || s[i] == 't' || s[i] == 'q' {
            1
        } else {
            0
        }
    } else {
        0
    }
}

/// Where the flags, width, precision and length that start at `i` end.
pub open spec fn modifiers_end(s: Seq<char>, i: int) -> int {
    let j1 = i + flag_len(s, i);
    let j2 = j1 + width_len(s, j1);
    let j3 = j2 + precision_len(s, j2);
    j3 + length_len(s, j3)
}

/// The length of the directive that starts at `p`, if one does.
pub open spec fn directive_len(s: Seq<char>, p: int) -> Option<nat> {
    if 0 <= p < s.len() && s[p] == '%' {
        let j = modifiers_end(s, p + 1 + positional_len(s, p + 1));
        if j < s.len() && is_type_char(s[j]) {
            Some((j + 1 - p) as nat)
        } else {
            None
        }
    } else {
        None
    }
}

proof fn lemma_digit_run_digits(s: Seq<char>, i: int)
    requires
        0 <= i,
    ensures
        i + digit_run(s, i) <= s.len() || digit_run(s, i) == 0,
        forall|x: int| i <= x < i + digit_run(s, i) ==> is_digit(#[trigger] s[x]),
    decreases s.len() - i,
{
    if 0 <= i < s.len() && is_digit(s[i]) {
        lemma_digit_run_digits(s, i + 1);
        assert(digit_run(s, i) == 1 + digit_run(s, i + 1));
    }
}

/// No character after the `%` of a directive is itself a `%`, and none
/// before its last is a type character.
pub proof fn lemma_directive_body_has_no_percent(s: Seq<char>, p: int)
    requires
        directive_len(s, p) is Some,
    ensures
        forall|x: int| p < x < p + directive_len(s, p)->0 ==> s[x] != '%',
        forall|x: int| p < x < p + directive_len(s, p)->0 - 1 ==> !is_type_char(#[trigger] s[x]),
        is_type_char(s[p + directive_len(s, p)->0 - 1]),
{
    let i = p + 1;
    let j0 = i + positional_len(s, i);
    let j1 = j0 + flag_len(s, j0);
    let j2 = j1 + width_len(s, j1);
    let j3 = j2 + precision_len(s, j2);
    lemma_digit_run_digits(s, i);
    lemma_digit_run_digits(s, j1);
    lemma_digit_run_digits(s, j2 + 1);
    assert forall|x: int| p < x < p + directive_len(s, p)->0 implies s[x] != '%' && (x < p
        + directive_len(s, p)->0 - 1 ==> !is_type_char(s[x])) by {
        if x < j0 {
            assert(x < i + digit_run(s, i) || x == i + digit_run(s, i));
        } else if x < j1 {
        } else if x < j2 {
        } else if x < j3 {
            assert(x == j2 || x == j2 + 1 || (j2 + 1 <= x < j2 + 1 + digit_run(s, j2 + 1)));
        } else {
        }
    }
}

proof fn lemma_digit_run_shift(s: Seq<char>, a: int, t: Seq<char>, b: int, w: int)
    requires
        0 <= a,
        0 <= b,
        a + w <= s.len(),
        b + w <= t.len(),
        forall|x: int| 0 <= x < w ==> #[trigger] t[b + x] == s[a + x],
        digit_run(s, a) < w,
    ensures
        digit_run(t, b) == digit_run(s, a),
    decreases w,
{
    assert(t[b + 0] == s[a + 0]);
    if is_digit(s[a]) {
        assert forall|x: int| 0 <= x < w - 1 implies #[trigger] t[(b + 1) + x] == s[(a + 1) + x] by {
            assert(t[b + (x + 1)] == s[a + (x + 1)]);
        }
        lemma_digit_run_shift(s, a + 1, t, b + 1, w - 1);
    }
}

proof fn lemma_digit_run_stops(s: Seq<char>, a: int, j: int)
    requires
        0 <= a <= j < s.len(),
        !is_digit(s[j]),
    ensures
        a + digit_run(s, a) <= j,
{
    lemma_digit_run_digits(s, a);
}

/// Whether a directive starts at a position depends on its own characters
/// alone: the same characters elsewhere make the same directive.
pub proof fn lemma_directive_window(s: Seq<char>, p: int, t: Seq<char>, q: int)
    requires
        directive_len(s, p) is Some,
        0 <= q,
        q + directive_len(s, p)->0 <= t.len(),
        forall|x: int| 0 <= x < directive_len(s, p)->0 ==> #[trigger] t[q + x] == s[p + x],
    ensures
        directive_len(t, q) == directive_len(s, p),
{
    let n = directive_len(s, p)->0 as int;
    let j = p + n - 1;
    let i = p + 1;
    assert(t[q + 0] == s[p + 0]);
    lemma_digit_run_stops(s, i, j);
    assert forall|x: int| 0 <= x < n - 1 implies #[trigger] t[(q + 1) + x] == s[i + x] by {
        assert(t[q + (1 + x)] == s[p + (1 + x)]);
    }
    lemma_digit_run_shift(s, i, t, q + 1, n - 1);
    let j0 = i + positional_len(s, i);
    if positional_len(s, i) > 0 {
        let d = digit_run(s, i);
        assert(t[q + (1 + d)] == s[p + (1 + d)]);
    }
    let j1 = j0 + flag_len(s, j0);
    assert(t[q + (j0 - p)] == s[p + (j0 - p)]);
    assert(j1 <= j);
    lemma_digit_run_stops(s, j1, j);
    assert forall|x: int| 0 <= x < p + n - j1 implies #[trigger] t[(q + (j1 - p)) + x] == s[j1 + x] by {
        assert(t[q + ((j1 - p) + x)] == s[p + ((j1 - p) + x)]);
    }
    lemma_digit_run_shift(s, j1, t, q + (j1 - p), p + n - j1);
    assert(t[q + (j1 - p)] == s[p + (j1 - p)]);
    let j2 = j1 + width_len(s, j1);
    assert(j2 <= j);
    assert(t[q + (j2 - p)] == s[p + (j2 - p)]);
    if s[j2] == '.' && j2 < j {
        assert(t[q + (j2 + 1 - p)] == s[p + (j2 + 1 - p)]);
        lemma_digit_run_stops(s, j2 + 1, j);
        assert forall|x: int| 0 <= x < p + n - (j2 + 1) implies #[trigger] t[(q + (j2 + 1 - p)) + x] == s[(j2 + 1) + x] by {
            assert(t[q + ((j2 + 1 - p) + x)] == s[p + ((j2 + 1 - p) + x)]);
        }
        lemma_digit_run_shift(s, j2 + 1, t, q + (j2 + 1 - p), p + n - (j2 + 1));
    }
    let j3 = j2 + precision_len(s, j2);
    assert(j3 <= j);
    assert(t[q + (j3 - p)] == s[p + (j3 - p)]);
    if j3 < j {
        assert(t[q + (j3 + 1 - p)] == s[p + (j3 + 1 - p)]);
    }
    assert(t[q + (j - p)] == s[p + (j - p)]);
}

pub fn char_is_digit(c: char) -> (r: bool)
    ensures
        r == is_digit(c),
{
    '0' <= c && c <= '9'
}

pub fn char_is_type(c: char) -> (r: bool)
    ensures
        r == is_type_char(c),
{
    c == 'd' || c == 'i' || c == 'u' || c == 'f' || c == 'F' || c == 'e' || c == 'E' || c == 'g'
        || c == 'G' || c == 'x' || c == 'X' || c == 'o' || c == 's' || c == 'c' || c == 'p'
        || c == 'a' || c == 'A' || c == '@'
}

fn scan_digits(s: &Vec<char>, i: usize) -> (r: usize)
    requires
        i <= s@.len(),
    ensures
        r == digit_run(s@, i as int),
        i + r <= s@.len(),
{
    let mut j: usize = i;
    while j < s.len() && char_is_digit(s[j])
        invariant
            i <= j <= s@.len(),
            digit_run(s@, i as int) == (j - i) + digit_run(s@, j as int),
        decreases s@.len() - j,
    {
        j = j + 1;
    }
    j - i
}

fn scan_positional(s: &Vec<char>, i: usize) -> (r: usize)
    requires
        i <= s@.len(),
    ensures
        r == positional_len(s@, i as int),
        i + r <= s@.len(),
{
    let d = scan_digits(s, i);
    if d > 0 && d < s.len() - i && s[i + d] == '$' {
        d + 1
    } else {
        0
    }
}

fn scan_modifiers(s: &Vec<char>, i: usize) -> (r: usize)
    requires
        i <= s@.len(),
    ensures
        r == modifiers_end(s@, i as int),
        i <= r <= s@.len(),
{
    let len = s.len();
    let c0 = if i < len { s[i] } else { ' ' };
    let j1: usize = if i < len && (c0 == '-' || c0 == '+' || c0 == '0' || c0 == '#' || c0 == ',') {
        i + 1
    } else {
        i
    };
    let j2: usize = if j1 < len && s[j1] == '*' {
        j1 + 1
    } else {
        j1 + scan_digits(s, j1)
    };
    let j3: usize = if j2 < len && j2 + 1 < len && s[j2] == '.' {
        if s[j2 + 1] == '*' {
            j2 + 2
        } else {
            let d = scan_digits(s, j2 + 1);
            if d > 0 {
                j2 + 1 + d
            } else {
                j2
            }
        }
    } else {
        j2
    };
    let j4: usize = if j3 < len {
        let c = s[j3];
        if c == 'h' || c == 'l' {
            if j3 + 1 < len && s[j3 + 1] == c {
                j3 + 2
            } else {
                j3 + 1
            }
        } else if c == 'L' || c == 'z' || c == 'j' || c == 't' || c == 'q' {
            j3 + 1
        } else {
            j3
        }
    } else {
        j3
    };
    j4
}

/// The length of the directive that starts at `p`, if one does.
pub fn directive_len_at(s: &Vec<char>, p: usize) -> (r: Option<usize>)
    requires
        p <= s@.len(),
    ensures
        r matches Some(n) ==> directive_len(s@, p as int) == Some(n as nat) && p + n <= s@.len(),
        r is None ==> directive_len(s@, p as int) is None,
{
    if p < s.len() && s[p] == '%' {
        let k = scan_positional(s, p + 1);
        let j = scan_modifiers(s, p + 1 + k);
        if j < s.len() && char_is_type(s[j]) {
            Some(j + 1 - p)
        } else {
            None
        }
    } else {
        None
    }
}

/// Whether the directive at `p`, known to be one, lacks a positional index.
pub fn lacks_position(s: &Vec<char>, p: usize) -> (r: bool)
    requires
        p < s@.len(),
    ensures
        r == (positional_len(s@, p + 1) == 0),
{
    let n = s.len();
    assert(p < n);
    scan_positional(s, p + 1) == 0
}

} // verus!

//! The string normalizer: markup escaping, doubling of literal percent signs,
//! conversion of the `@` directive and positional numbering, in that order.
use vstd::prelude::*;
use crate::placeholder::{
    directive_len, directive_len_at, is_type_char, lacks_position, lemma_directive_body_has_no_percent,
    lemma_directive_window, positional_len,
};
use crate::text::{chars_of, string_of};

verus! {

// ---------------------------------------------------------------- escaping

pub open spec fn escape_char(c: char) -> Seq<char> {
    if c == '&' {
        seq!['&', 'a', 'm', 'p', ';']
    } else if c == '<' {
        seq!['&', 'l', 't', ';']
    } else {
        seq![c]
    }
}

/// `s` with every `&` written `&amp;` and every `<` written `&lt;`.
pub open spec fn escaped(s: Seq<char>) -> Seq<char>
    decreases s.len(),
{
    if s.len() == 0 {
        Seq::empty()
    } else {
        escaped(s.drop_last()) + escape_char(s.last())
    }
}

fn escape_chars(s: &Vec<char>) -> (r: Vec<char>)
    ensures
        r@ == escaped(s@),
{
    let mut r: Vec<char> = Vec::new();
    let mut i: usize = 0;
    while i < s.len()
        invariant
            i <= s@.len(),
            r@ == escaped(s@.subrange(0, i as int)),
        decreases s@.len() - i,
    {
        let c = s[i];
        if c == '&' {
            r.push('&');
            r.push('a');
            r.push('m');
            r.push('p');
            r.push(';');
        } else if c == '<' {
            r.push('&');
            r.push('l');
            r.push('t');
            r.push(';');
        } else {
            r.push(c);
        }
        assert(s@.subrange(0, i + 1).drop_last() =~= s@.subrange(0, i as int));
        i = i + 1;
        assert(r@ =~= escaped(s@.subrange(0, i as int)));
    }
    assert(s@.subrange(0, s@.len() as int) =~= s@);
    r
}

/// Escapes `&` as `&amp;` and `<` as `&lt;`; `>` is kept as it is.
pub fn maybe_escape_characters(input: &str) -> (r: String)
    ensures
        r@ == escaped(input@),
{
    string_of(&escape_chars(&chars_of(input)))
}

// ------------------------------------------------------- literal percents

/// A `%` with no `%` next to it on either side.
pub open spec fn lone_percent(s: Seq<char>, i: int) -> bool {
    0 <= i < s.len() && s[i] == '%' && (i == 0 || s[i - 1] != '%') && (i + 1 == s.len() || s[i
        + 1] != '%')
}

/// A lone `%` that does not start a directive: it stands for itself.
pub open spec fn literal_percent(s: Seq<char>, i: int) -> bool {
    lone_percent(s, i) && directive_len(s, i) is None
}

pub open spec fn doubled_piece(s: Seq<char>, i: int) -> Seq<char> {
    if literal_percent(s, i) {
        seq!['%', '%']
    } else {
        seq![s[i]]
    }
}

/// The first `n` characters of `s`, each literal percent written twice.
pub open spec fn doubled_upto(s: Seq<char>, n: int) -> Seq<char>
    decreases n,
{
    if n <= 0 {
        Seq::empty()
    } else {
        doubled_upto(s, n - 1) + doubled_piece(s, n - 1)
    }
}

/// `s` with every literal percent written `%%`.
pub open spec fn doubled(s: Seq<char>) -> Seq<char> {
    doubled_upto(s, s.len() as int)
}

fn double_percents(s: &Vec<char>) -> (r: Vec<char>)
    ensures
        r@ == doubled(s@),
{
    let mut r: Vec<char> = Vec::new();
    let mut i: usize = 0;
    let n = s.len();
    while i < n
        invariant
            n == s@.len(),
            i <= n,
            r@ == doubled_upto(s@, i as int),
        decreases n - i,
    {
        let c = s[i];
        let lone = c == '%' && (i == 0 || s[i - 1] != '%') && (i + 1 == n || s[i + 1] != '%');
        if lone && directive_len_at(s, i).is_none() {
            r.push('%');
            r.push('%');
        } else {
            r.push(c);
        }
        i = i + 1;
        assert(r@ =~= doubled_upto(s@, i as int));
    }
    r
}

/// Writes every literal percent sign as `%%`: a `%` with no `%` beside it
/// that does not start a directive.
pub fn maybe_replace_single_percent_with_double_percent(input: &str) -> (r: String)
    ensures
        r@ == doubled(input@),
{
    string_of(&double_percents(&chars_of(input)))
}

// ------------------------------------------------------- the `@` directive

/// The directive `s[p..p + n]` with its type character made `s` if it was `@`.
pub open spec fn converted_directive(s: Seq<char>, p: int, n: int) -> Seq<char> {
    if s[p + n - 1] == '@' {
        s.subrange(p, p + n - 1).push('s')
    } else {
        s.subrange(p, p + n)
    }
}

/// `s` from `p` on, scanned left to right, with every `@` directive turned
/// into the same directive of type `s`.
pub open spec fn converted_from(s: Seq<char>, p: int) -> Seq<char>
    decreases s.len() - p,
{
    if p < 0 || p >= s.len() {
        Seq::empty()
    } else {
        match directive_len(s, p) {
            Some(n) => converted_directive(s, p, n as int) + converted_from(s, p + n),
            None => seq![s[p]] + converted_from(s, p + 1),
        }
    }
}

pub open spec fn converted(s: Seq<char>) -> Seq<char> {
    converted_from(s, 0)
}

fn convert_chars(s: &Vec<char>) -> (r: Vec<char>)
    ensures
        r@ == converted(s@),
{
    let mut r: Vec<char> = Vec::new();
    let mut p: usize = 0;
    let len = s.len();
    while p < len
        invariant
            len == s@.len(),
            p <= len,
            converted(s@) == r@ + converted_from(s@, p as int),
        decreases len - p,
    {
        let ghost old_r = r@;
        match directive_len_at(s, p) {
            Some(n) => {
                let mut k: usize = p;
                while k < p + n - 1
                    invariant
                        p <= k <= p + n - 1,
                        p + n <= len,
                        len == s@.len(),
                        r@ == old_r + s@.subrange(p as int, k as int),
                    decreases p + n - 1 - k,
                {
                    r.push(s[k]);
                    k = k + 1;
                    assert(r@ =~= old_r + s@.subrange(p as int, k as int));
                }
                if s[p + n - 1] == '@' {
                    r.push('s');
                } else {
                    r.push(s[p + n - 1]);
                }
                assert(r@ =~= old_r + converted_directive(s@, p as int, n as int));
                p = p + n;
            },
            None => {
                r.push(s[p]);
                p = p + 1;
            },
        }
        assert(converted(s@) =~= r@ + converted_from(s@, p as int));
    }
    r
}

/// Rewrites every `@` directive as the same directive of type `s`.
pub fn convert_twine_string_placeholder(raw_value: &str) -> (r: String)
    ensures
        r@ == converted(raw_value@),
{
    string_of(&convert_chars(&chars_of(raw_value)))
}

// ---------------------------------------------------- positional numbering

pub open spec fn digit_char(d: nat) -> char {
    seq!['0', '1', '2', '3', '4', '5', '6', '7', '8', '9'][(d % 10) as int]
}

/// The decimal digits of `k`.
pub open spec fn decimal(k: nat) -> Seq<char>
    decreases k,
{
    if k < 10 {
        seq![digit_char(k)]
    } else {
        decimal(k / 10).push(digit_char(k % 10))
    }
}

/// How many directives without a positional index the scan from `p` meets.
pub open spec fn unnumbered_count_from(s: Seq<char>, p: int) -> nat
    decreases s.len() - p,
{
    if p < 0 || p >= s.len() {
        0
    } else {
        match directive_len(s, p) {
            Some(n) => if positional_len(s, p + 1) == 0 {
                1 + unnumbered_count_from(s, p + n)
            } else {
                unnumbered_count_from(s, p + n)
            },
            None => unnumbered_count_from(s, p + 1),
        }
    }
}

pub open spec fn unnumbered_count(s: Seq<char>) -> nat {
    unnumbered_count_from(s, 0)
}

/// The directive `s[p..p + n]` with the index `k` put after its `%`.
pub open spec fn numbered_directive(s: Seq<char>, p: int, n: int, k: nat) -> Seq<char> {
    seq!['%'] + decimal(k) + seq!['$'] + s.subrange(p + 1, p + n)
}

/// `s` from `p` on, scanned left to right, each directive without a
/// positional index given the next index, counting from `k`; directives
/// that carry one are kept as they are and take no index.
pub open spec fn numbered_from(s: Seq<char>, p: int, k: nat) -> Seq<char>
    decreases s.len() - p,
{
    if p < 0 || p >= s.len() {
        Seq::empty()
    } else {
        match directive_len(s, p) {
            Some(n) => if positional_len(s, p + 1) == 0 {
                numbered_directive(s, p, n as int, k) + numbered_from(s, p + n, k + 1)
            } else {
                s.subrange(p, p + n) + numbered_from(s, p + n, k)
            },
            None => seq![s[p]] + numbered_from(s, p + 1, k),
        }
    }
}

/// `s` unchanged where it has at most one directive without a positional
/// index; else those directives numbered 1, 2, 3, ... from left to right.
pub open spec fn numbered(s: Seq<char>) -> Seq<char> {
    if unnumbered_count(s) <= 1 {
        s
    } else {
        numbered_from(s, 0, 1)
    }
}

fn push_decimal(out: &mut Vec<char>, k: usize)
    ensures
        final(out)@ == old(out)@ + decimal(k as nat),
    decreases k,
{
    if k >= 10 {
        push_decimal(out, k / 10);
    }
    let d = k % 10;
    let c = if d == 0 {
        '0'
    } else if d == 1 {
        '1'
    } else if d == 2 {
        '2'
    } else if d == 3 {
        '3'
    } else if d == 4 {
        '4'
    } else if d == 5 {
        '5'
    } else if d == 6 {
        '6'
    } else if d == 7 {
        '7'
    } else if d == 8 {
        '8'
    } else {
        '9'
    };
    out.push(c);
    assert(out@ =~= old(out)@ + decimal(k as nat));
}

fn count_unnumbered(s: &Vec<char>) -> (r: usize)
    ensures
        r == unnumbered_count(s@),
{
    let mut c: usize = 0;
    let mut p: usize = 0;
    let len = s.len();
    while p < len
        invariant
            len == s@.len(),
            p <= len,
            c <= p,
            unnumbered_count(s@) == c + unnumbered_count_from(s@, p as int),
        decreases len - p,
    {
        match directive_len_at(s, p) {
            Some(n) => {
                if lacks_position(s, p) {
                    c = c + 1;
                }
                p = p + n;
            },
            None => {
                p = p + 1;
            },
        }
    }
    c
}

fn number_chars(s: &Vec<char>) -> (r: Vec<char>)
    ensures
        r@ == numbered(s@),
{
    if count_unnumbered(s) <= 1 {
        return s.clone();
    }
    let mut r: Vec<char> = Vec::new();
    let mut p: usize = 0;
    let mut k: usize = 1;
    let len = s.len();
    while p < len
        invariant
            len == s@.len(),
            p <= len,
            1 <= k <= p + 1,
            numbered_from(s@, 0, 1) == r@ + numbered_from(s@, p as int, k as nat),
        decreases len - p,
    {
        let ghost old_r = r@;
        match directive_len_at(s, p) {
            Some(n) => {
                let fresh = lacks_position(s, p);
                let mut j: usize = p;
                if fresh {
                    r.push('%');
                    push_decimal(&mut r, k);
                    r.push('$');
                    j = p + 1;
                }
                let ghost mid = r@;
                while j < p + n
                    invariant
                        p <= j <= p + n,
                        p + n <= len,
                        len == s@.len(),
                        r@ == mid + s@.subrange(if fresh { p + 1 } else { p as int }, j as int),
                        fresh ==> j >= p + 1,
                    decreases p + n - j,
                {
                    r.push(s[j]);
                    j = j + 1;
                    assert(r@ =~= mid + s@.subrange(if fresh { p + 1 } else { p as int }, j as int));
                }
                if fresh {
                    assert(r@ =~= old_r + numbered_directive(s@, p as int, n as int, k as nat));
                    k = k + 1;
                } else {
                    assert(r@ =~= old_r + s@.subrange(p as int, p + n));
                }
                p = p + n;
            },
            None => {
                r.push(s[p]);
                p = p + 1;
            },
        }
        assert(numbered_from(s@, 0, 1) =~= r@ + numbered_from(s@, p as int, k as nat));
    }
    r
}

/// Gives the directives that lack a positional index the indices 1, 2, 3,
/// ... from left to right, where there are two or more of them.
pub fn maybe_add_positional_numbers(input: &str) -> (r: String)
    ensures
        r@ == numbered(input@),
{
    string_of(&number_chars(&chars_of(input)))
}

// ----------------------------------------------------------- the pipeline

/// The normalized form of a raw string: escaped, literal percents doubled,
/// `@` directives converted, then numbered.
pub open spec fn normalized(s: Seq<char>) -> Seq<char> {
    numbered(converted(doubled(escaped(s))))
}

/// Normalizes one raw string. It does not fail.
pub fn parse_localized_string_value(raw_value: String) -> (r: Result<String, String>)
    ensures
        r matches Ok(v) && v@ == normalized(raw_value@),
{
    let s = chars_of(raw_value.as_str());
    let s = escape_chars(&s);
    let s = double_percents(&s);
    let s = convert_chars(&s);
    let s = number_chars(&s);
    Ok(string_of(&s))
}

// ------------------------------------------------------------------ laws

/// Escaping works character by character: the escape of a concatenation is
/// the concatenation of the escapes, so every character but `&` and `<`
/// (`>` among them) comes out as it went in.
pub proof fn lemma_escape_concat(a: Seq<char>, b: Seq<char>)
    ensures
        escaped(a + b) == escaped(a) + escaped(b),
    decreases b.len(),
{
    if b.len() == 0 {
        assert(a + b =~= a);
        assert(escaped(b) =~= Seq::<char>::empty());
        assert(escaped(a) + escaped(b) =~= escaped(a));
    } else {
        lemma_escape_concat(a, b.drop_last());
        assert((a + b).drop_last() =~= a + b.drop_last());
        assert((a + b).last() == b.last());
        assert(escaped(a + b) =~= escaped(a) + escaped(b));
    }
}

/// No `<` is left after escaping.
pub proof fn lemma_escape_removes_less_than(s: Seq<char>)
    ensures
        forall|i: int| 0 <= i < escaped(s).len() ==> escaped(s)[i] != '<',
    decreases s.len(),
{
    if s.len() > 0 {
        lemma_escape_removes_less_than(s.drop_last());
        let e = escaped(s.drop_last());
        let c = escape_char(s.last());
        assert forall|i: int| 0 <= i < escaped(s).len() implies escaped(s)[i] != '<' by {
            if i >= e.len() {
                assert(escaped(s)[i] == c[i - e.len()]);
            } else {
                assert(escaped(s)[i] == e[i]);
            }
        }
    }
}

/// A string without `&` and `<` is its own escape.
pub proof fn lemma_escape_plain(s: Seq<char>)
    requires
        forall|i: int| 0 <= i < s.len() ==> s[i] != '&' && s[i] != '<',
    ensures
        escaped(s) == s,
    decreases s.len(),
{
    if s.len() > 0 {
        lemma_escape_plain(s.drop_last());
        assert(escaped(s) =~= s);
    }
}

/// How many directives the scan from `p` meets.
pub open spec fn directive_count_from(s: Seq<char>, p: int) -> nat
    decreases s.len() - p,
{
    if p < 0 || p >= s.len() {
        0
    } else {
        match directive_len(s, p) {
            Some(n) => 1 + directive_count_from(s, p + n),
            None => directive_count_from(s, p + 1),
        }
    }
}

proof fn lemma_unnumbered_within_directives(s: Seq<char>, p: int)
    ensures
        unnumbered_count_from(s, p) <= directive_count_from(s, p),
    decreases s.len() - p,
{
    if 0 <= p < s.len() {
        match directive_len(s, p) {
            Some(n) => lemma_unnumbered_within_directives(s, p + n),
            None => lemma_unnumbered_within_directives(s, p + 1),
        }
    }
}

/// A string with no directive, or with one, is left as it is by numbering.
pub proof fn lemma_single_directive_not_numbered(s: Seq<char>)
    requires
        directive_count_from(s, 0) <= 1,
    ensures
        numbered(s) == s,
{
    lemma_unnumbered_within_directives(s, 0);
}

/// The numbering scan from `q` reaches every `%` at `p` after it, with the
/// counter moved on by the directives without an index in between.
proof fn lemma_numbering_reaches(s: Seq<char>, q: int, p: int, k: nat) -> (pre: Seq<char>)
    requires
        0 <= q <= p < s.len(),
        s[p] == '%',
    ensures
        unnumbered_count_from(s, p) <= unnumbered_count_from(s, q),
        numbered_from(s, q, k) == pre + numbered_from(
            s,
            p,
            k + (unnumbered_count_from(s, q) - unnumbered_count_from(s, p)) as nat,
        ),
    decreases p - q,
{
    if q == p {
        assert(numbered_from(s, q, k) =~= Seq::<char>::empty() + numbered_from(s, p, k));
        Seq::empty()
    } else {
        match directive_len(s, q) {
            Some(n) => {
                lemma_directive_body_has_no_percent(s, q);
                assert(q + n <= p) by {
                    if p < q + n {
                        assert(s[p] != '%');
                    }
                }
                if positional_len(s, q + 1) == 0 {
                    let rest = lemma_numbering_reaches(s, q + n, p, k + 1);
                    let head = numbered_directive(s, q, n as int, k);
                    assert(numbered_from(s, q, k) =~= (head + rest) + numbered_from(
                        s,
                        p,
                        k + (unnumbered_count_from(s, q) - unnumbered_count_from(s, p)) as nat,
                    ));
                    head + rest
                } else {
                    let rest = lemma_numbering_reaches(s, q + n, p, k);
                    let head = s.subrange(q, q + n);
                    assert(numbered_from(s, q, k) =~= (head + rest) + numbered_from(
                        s,
                        p,
                        k + (unnumbered_count_from(s, q) - unnumbered_count_from(s, p)) as nat,
                    ));
                    head + rest
                }
            },
            None => {
                let rest = lemma_numbering_reaches(s, q + 1, p, k);
                assert(numbered_from(s, q, k) =~= (seq![s[q]] + rest) + numbered_from(
                    s,
                    p,
                    k + (unnumbered_count_from(s, q) - unnumbered_count_from(s, p)) as nat,
                ));
                seq![s[q]] + rest
            },
        }
    }
}

/// Numbering runs from left to right with no gap. Where two or more
/// directives lack a positional index, the output runs up to the directive
/// at `p` (`pre`), and then that directive comes out: given the index 1 plus
/// the number of directives without an index before it, if it had none; as
/// it was, taking no index, if it had one.
pub proof fn lemma_numbering_left_to_right(s: Seq<char>, p: int) -> (pre: Seq<char>)
    requires
        unnumbered_count(s) >= 2,
        directive_len(s, p) is Some,
    ensures
        unnumbered_count_from(s, p) <= unnumbered_count(s),
        ({
            let n = directive_len(s, p)->0 as int;
            let k = (1 + unnumbered_count(s) - unnumbered_count_from(s, p)) as nat;
            if positional_len(s, p + 1) == 0 {
                numbered(s) == pre + numbered_directive(s, p, n, k) + numbered_from(s, p + n, k + 1)
            } else {
                numbered(s) == pre + s.subrange(p, p + n) + numbered_from(s, p + n, k)
            }
        }),
{
    let pre = lemma_numbering_reaches(s, 0, p, 1);
    let n = directive_len(s, p)->0 as int;
    let k = (1 + unnumbered_count(s) - unnumbered_count_from(s, p)) as nat;
    if positional_len(s, p + 1) == 0 {
        assert(numbered(s) =~= pre + numbered_directive(s, p, n, k) + numbered_from(s, p + n, k + 1));
    } else {
        assert(numbered(s) =~= pre + s.subrange(p, p + n) + numbered_from(s, p + n, k));
    }
    pre
}

/// Conversion keeps the length, and changes a character only from `@` to `s`.
proof fn lemma_converted_shape(s: Seq<char>, p: int)
    requires
        0 <= p <= s.len(),
    ensures
        converted_from(s, p).len() == s.len() - p,
        forall|y: int|
            0 <= y < s.len() - p ==> #[trigger] converted_from(s, p)[y] == s[p + y] || (
            converted_from(s, p)[y] == 's' && s[p + y] == '@'),
    decreases s.len() - p,
{
    if p < s.len() {
        match directive_len(s, p) {
            Some(n) => {
                lemma_converted_shape(s, p + n);
                let head = converted_directive(s, p, n as int);
                let rest = converted_from(s, p + n);
                assert(head.len() == n);
                assert forall|y: int| 0 <= y < s.len() - p implies #[trigger] converted_from(s, p)[y]
                    == s[p + y] || (converted_from(s, p)[y] == 's' && s[p + y] == '@') by {
                    if y < n {
                        assert(converted_from(s, p)[y] == head[y]);
                    } else {
                        assert(converted_from(s, p)[y] == rest[y - n]);
                    }
                }
            },
            None => {
                lemma_converted_shape(s, p + 1);
                let rest = converted_from(s, p + 1);
                assert forall|y: int| 0 <= y < s.len() - p implies #[trigger] converted_from(s, p)[y]
                    == s[p + y] || (converted_from(s, p)[y] == 's' && s[p + y] == '@') by {
                    if y > 0 {
                        assert(converted_from(s, p)[y] == rest[y - 1]);
                    }
                }
            },
        }
    }
}

/// The conversion scan from `q` reaches every `%` at `p` after it.
proof fn lemma_conversion_reaches(s: Seq<char>, q: int, p: int) -> (pre: Seq<char>)
    requires
        0 <= q <= p < s.len(),
        s[p] == '%',
    ensures
        converted_from(s, q) == pre + converted_from(s, p),
    decreases p - q,
{
    if q == p {
        assert(converted_from(s, q) =~= Seq::<char>::empty() + converted_from(s, p));
        Seq::empty()
    } else {
        match directive_len(s, q) {
            Some(n) => {
                lemma_directive_body_has_no_percent(s, q);
                assert(q + n <= p) by {
                    if p < q + n {
                        assert(s[p] != '%');
                    }
                }
                let rest = lemma_conversion_reaches(s, q + n, p);
                let head = converted_directive(s, q, n as int);
                assert(converted_from(s, q) =~= (head + rest) + converted_from(s, p));
                head + rest
            },
            None => {
                let rest = lemma_conversion_reaches(s, q + 1, p);
                assert(converted_from(s, q) =~= (seq![s[q]] + rest) + converted_from(s, p));
                seq![s[q]] + rest
            },
        }
    }
}

/// After conversion no `@` directive is left: every directive of the output
/// ends in a type character other than `@`.
pub proof fn lemma_no_object_directive_left(s: Seq<char>, q: int)
    requires
        directive_len(converted(s), q) is Some,
    ensures
        converted(s)[q + directive_len(converted(s), q)->0 - 1] != '@',
{
    let c = converted(s);
    let n = directive_len(c, q)->0 as int;
    let e = q + n - 1;
    lemma_converted_shape(s, 0);
    if c[e] == '@' {
        lemma_directive_body_has_no_percent(c, q);
        assert forall|x: int| 0 <= x < n implies #[trigger] s[q + x] == c[q + x] by {
            assert(c[q + x] == s[0 + (q + x)] || (c[q + x] == 's' && s[0 + (q + x)] == '@'));
            if 0 < x < n - 1 {
                assert(!is_type_char(c[q + x]));
            }
        }
        lemma_directive_window(c, q, s, q);
        let pre = lemma_conversion_reaches(s, 0, q);
        lemma_converted_shape(s, q);
        assert(pre.len() == q);
        assert(s[e] == '@');
        assert(converted_from(s, q)[n - 1] == 's');
        assert(c[e] == converted_from(s, q)[n - 1]);
    }
}

/// The piece of the `i`-th character stands in the doubled prefix of `n`
/// characters at the offset where the first `i` end.
proof fn lemma_doubled_index(s: Seq<char>, i: int, n: int)
    requires
        0 <= i < n <= s.len(),
    ensures
        doubled_upto(s, n).len() >= doubled_upto(s, i).len() + doubled_piece(s, i).len(),
        forall|y: int|
            0 <= y < doubled_piece(s, i).len() ==> #[trigger] doubled_upto(s, n)[doubled_upto(s, i).len() + y]
                == doubled_piece(s, i)[y],
    decreases n - i,
{
    if n == i + 1 {
        assert(doubled_upto(s, n) == doubled_upto(s, i) + doubled_piece(s, i));
    } else {
        lemma_doubled_index(s, i, n - 1);
        assert(doubled_upto(s, n) == doubled_upto(s, n - 1) + doubled_piece(s, n - 1));
    }
}

/// Every position of the doubled prefix of `n` characters lies in the piece
/// of one of them.
proof fn lemma_doubled_cover(s: Seq<char>, n: int, x: int) -> (i: int)
    requires
        0 <= n <= s.len(),
        0 <= x < doubled_upto(s, n).len(),
    ensures
        0 <= i < n,
        doubled_upto(s, i).len() <= x < doubled_upto(s, i).len() + doubled_piece(s, i).len(),
    decreases n,
{
    assert(doubled_upto(s, n) == doubled_upto(s, n - 1) + doubled_piece(s, n - 1));
    if x < doubled_upto(s, n - 1).len() {
        lemma_doubled_cover(s, n - 1, x)
    } else {
        n - 1
    }
}

/// Past a `%` that starts a directive, each character of the directive has a
/// piece of its own, one position on.
proof fn lemma_doubled_offsets_in_directive(s: Seq<char>, i: int, m: int)
    requires
        directive_len(s, i) is Some,
        0 <= m < directive_len(s, i)->0,
    ensures
        doubled_upto(s, i + m).len() == doubled_upto(s, i).len() + m,
    decreases m,
{
    if m > 0 {
        lemma_doubled_offsets_in_directive(s, i, m - 1);
        lemma_directive_body_has_no_percent(s, i);
        assert(doubled_upto(s, i + m) == doubled_upto(s, i + m - 1) + doubled_piece(s, i + m - 1));
        if m - 1 > 0 {
            assert(s[i + m - 1] != '%');
        }
    }
}

/// No literal percent is left once they have been doubled.
proof fn lemma_doubled_has_no_literal(s: Seq<char>, x: int)
    requires
        0 <= x < doubled(s).len(),
    ensures
        !literal_percent(doubled(s), x),
{
    let d = doubled(s);
    let len = s.len() as int;
    let i = lemma_doubled_cover(s, len, x);
    let off = doubled_upto(s, i).len() as int;
    lemma_doubled_index(s, i, len);
    assert(d[off + 0] == doubled_piece(s, i)[0]);
    if literal_percent(s, i) {
        assert(d[off + 1] == doubled_piece(s, i)[1]);
    } else if s[i] == '%' {
        assert(x == off);
        if i > 0 && s[i - 1] == '%' {
            lemma_doubled_index(s, i - 1, len);
            assert(doubled_upto(s, i) == doubled_upto(s, i - 1) + doubled_piece(s, i - 1));
            let poff = doubled_upto(s, i - 1).len() as int;
            let k = doubled_piece(s, i - 1).len() - 1;
            assert(d[poff + k] == doubled_piece(s, i - 1)[k]);
            assert(d[x - 1] == '%');
        } else if i + 1 < len && s[i + 1] == '%' {
            lemma_doubled_index(s, i + 1, len);
            assert(doubled_upto(s, i + 1) == doubled_upto(s, i) + doubled_piece(s, i));
            assert(d[doubled_upto(s, i + 1).len() as int + 0] == doubled_piece(s, i + 1)[0]);
            assert(d[x + 1] == '%');
        } else {
            let n = directive_len(s, i)->0 as int;
            lemma_directive_body_has_no_percent(s, i);
            assert forall|m: int| 0 <= m < n implies #[trigger] d[x + m] == s[i + m] by {
                lemma_doubled_offsets_in_directive(s, i, m);
                lemma_doubled_index(s, i + m, len);
                if m > 0 {
                    assert(s[i + m] != '%');
                }
                assert(d[doubled_upto(s, i + m).len() as int + 0] == doubled_piece(s, i + m)[0]);
            }
            lemma_doubled_offsets_in_directive(s, i, n - 1);
            lemma_doubled_index(s, i + n - 1, len);
            lemma_directive_window(s, i, d, x);
        }
    }
}

proof fn lemma_doubled_fixed(d: Seq<char>, m: int)
    requires
        0 <= m <= d.len(),
        forall|x: int| 0 <= x < d.len() ==> !literal_percent(d, x),
    ensures
        doubled_upto(d, m) == d.subrange(0, m),
    decreases m,
{
    if m > 0 {
        lemma_doubled_fixed(d, m - 1);
        assert(!literal_percent(d, m - 1));
        assert(doubled_upto(d, m) =~= d.subrange(0, m));
    } else {
        assert(doubled_upto(d, m) =~= d.subrange(0, m));
    }
}

/// Doubling literal percents a second time changes nothing.
pub proof fn lemma_doubling_idempotent(s: Seq<char>)
    ensures
        doubled(doubled(s)) == doubled(s),
{
    let d = doubled(s);
    assert forall|x: int| 0 <= x < d.len() implies !literal_percent(d, x) by {
        lemma_doubled_has_no_literal(s, x);
    }
    lemma_doubled_fixed(d, d.len() as int);
    assert(d.subrange(0, d.len() as int) =~= d);
}

} // verus!

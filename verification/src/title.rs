//! Title formatting and sibling ordering keys.
//!
//! A raw filesystem name of the form `"N) rest"` (one or more ASCII digits,
//! a literal `)`, then optional spaces) carries a numeric ordering prefix.
//! The display title is derived from the name with that prefix stripped:
//! the name is split on `_`, the first character of every piece is
//! upper-cased, and the pieces are rejoined with single spaces.

use vstd::prelude::*;
use crate::text::all_ascii;
use crate::text::lex_le;
use crate::text::to_chars;
use crate::text::chars_to_string;

verus! {

pub open spec fn is_ascii_digit(c: char) -> bool {
    48 <= c as u32 <= 57
}

/// First index at or after `i` that does not hold an ASCII digit,
/// or `s.len()` when digits run to the end.
pub open spec fn digit_run_end(s: Seq<char>, i: int) -> int
    decreases s.len() - i,
{
    if i < s.len() && is_ascii_digit(s[i]) {
        digit_run_end(s, i + 1)
    } else {
        i
    }
}

/// First index at or after `i` that does not hold a space,
/// or `s.len()` when spaces run to the end.
pub open spec fn space_run_end(s: Seq<char>, i: int) -> int
    decreases s.len() - i,
{
    if i < s.len() && s[i] == ' ' {
        space_run_end(s, i + 1)
    } else {
        i
    }
}

pub proof fn lemma_space_run_end(s: Seq<char>, i: int)
    requires
        0 <= i <= s.len(),
    ensures
        i <= space_run_end(s, i) <= s.len(),
    decreases s.len() - i,
{
    if i < s.len() && s[i] == ' ' {
        lemma_space_run_end(s, i + 1);
    }
}

/// The name begins with a numeric ordering prefix `"N)"`.
pub open spec fn has_numeric_prefix(s: Seq<char>) -> bool {
    let d = digit_run_end(s, 0);
    1 <= d < s.len() && s[d] == ')'
}

/// Index where the displayed part of the name begins: past the numeric
/// prefix and the spaces that follow it, or 0 when there is no prefix.
pub open spec fn title_start(s: Seq<char>) -> int {
    if has_numeric_prefix(s) {
        space_run_end(s, digit_run_end(s, 0) + 1)
    } else {
        0
    }
}

/// The name with its numeric ordering prefix stripped.
pub open spec fn clean_name(s: Seq<char>) -> Seq<char> {
    s.skip(title_start(s))
}

/// The upper-cased form of a word's first character. ASCII letters map
/// `a-z` to `A-Z` and every other ASCII character to itself; other
/// characters follow the Unicode mapping `unicode_upper_of`.
pub open spec fn upper_first_of(c: char) -> Seq<char> {
    if 97 <= c as u32 <= 122 {
        seq![(((c as u32) - 32) as u8) as char]
    } else if (c as u32) < 128 {
        seq![c]
    } else {
        unicode_upper_of(c)
    }
}

/// What `char::to_uppercase` yields for a character, in order.
pub uninterp spec fn unicode_upper_of(c: char) -> Seq<char>;

/// Title text produced from `s[i..]`: `_` becomes a space and starts a new
/// word; the first character of every word is upper-cased.
pub open spec fn format_words_from(s: Seq<char>, i: int, word_start: bool) -> Seq<char>
    decreases s.len() - i,
{
    if i < 0 || i >= s.len() {
        Seq::empty()
    } else if s[i] == '_' {
        seq![' '] + format_words_from(s, i + 1, true)
    } else if word_start {
        upper_first_of(s[i]) + format_words_from(s, i + 1, false)
    } else {
        seq![s[i]] + format_words_from(s, i + 1, false)
    }
}

/// The display title of a raw filesystem name.
pub open spec fn spec_format_title(s: Seq<char>) -> Seq<char> {
    format_words_from(s, title_start(s), true)
}

/// Decimal value of the digits `s[i..end)`.
pub open spec fn digits_val(s: Seq<char>, i: int, end: int) -> nat
    decreases end - i,
{
    if i >= end {
        0
    } else {
        digits_val(s, i, end - 1) * 10 + (if is_ascii_digit(s[end - 1]) {
            (s[end - 1] as u32 - 48) as nat
        } else {
            0
        })
    }
}

/// Ordering rank of a raw name: the value of its numeric prefix, or
/// `u64::MAX` when there is no prefix or the value does not fit.
pub open spec fn spec_rank(s: Seq<char>) -> u64 {
    if has_numeric_prefix(s) && digits_val(s, 0, digit_run_end(s, 0)) < u64::MAX {
        digits_val(s, 0, digit_run_end(s, 0)) as u64
    } else {
        u64::MAX
    }
}

/// Ordering key of a sibling entry: ascending rank, then the cleaned name.
/// Entries without a parseable numeric prefix rank last and keep their
/// original name.
pub struct SortKey {
    pub rank: u64,
    pub name: Vec<char>,
}

impl SortKey {
    pub open spec fn view_key(&self) -> (u64, Seq<char>) {
        (self.rank, self.name@)
    }
}

/// The ordering key that a raw name yields.
pub open spec fn spec_sort_key(s: Seq<char>) -> (u64, Seq<char>) {
    (spec_rank(s), clean_name(s))
}

/// Ascending order on keys: by rank, ties by lexicographic name.
pub open spec fn key_le(a: (u64, Seq<char>), b: (u64, Seq<char>)) -> bool {
    a.0 < b.0 || (a.0 == b.0 && lex_le(a.1, b.1))
}

pub proof fn lemma_key_le_total(a: (u64, Seq<char>), b: (u64, Seq<char>))
    ensures
        key_le(a, b) || key_le(b, a),
{
    crate::text::lemma_lex_le_total_from(a.1, b.1, 0);
}

pub proof fn lemma_key_le_trans(a: (u64, Seq<char>), b: (u64, Seq<char>), c: (u64, Seq<char>))
    requires
        key_le(a, b),
        key_le(b, c),
    ensures
        key_le(a, c),
{
    if a.0 == b.0 && b.0 == c.0 {
        crate::text::lemma_lex_le_trans_from(a.1, b.1, c.1, 0);
    }
}

/// Relies on `char::to_uppercase`: the Unicode uppercase mapping of a
/// character depends on that character alone.
#[verifier::external_body]
fn unicode_upper(c: char) -> (r: Vec<char>)
    ensures
        r@ == unicode_upper_of(c),
{
    c.to_uppercase().collect()
}

/// The upper-cased form of a word's first character.
fn upper_first(c: char) -> (r: Vec<char>)
    ensures
        r@ == upper_first_of(c),
{
    let u = c as u32;
    if 97 <= u && u <= 122 {
        let mut r: Vec<char> = Vec::new();
        r.push(((u - 32) as u8) as char);
        proof {
            assert(r@ =~= upper_first_of(c));
        }
        r
    } else if u < 128 {
        let mut r: Vec<char> = Vec::new();
        r.push(c);
        proof {
            assert(r@ =~= upper_first_of(c));
        }
        r
    } else {
        unicode_upper(c)
    }
}

/// Index where the displayed part of `v` begins (see `title_start`).
fn find_title_start(v: &Vec<char>) -> (r: usize)
    ensures
        r as int == title_start(v@),
        0 <= r <= v@.len(),
{
    let n = v.len();
    let mut d: usize = 0;
    while d < n && 48 <= v[d] as u32 && v[d] as u32 <= 57
        invariant
            n == v@.len(),
            0 <= d <= n,
            digit_run_end(v@, 0) == digit_run_end(v@, d as int),
        decreases n - d,
    {
        d += 1;
    }
    assert(digit_run_end(v@, d as int) == d);
    if d >= 1 && d < n && v[d] == ')' {
        let mut r: usize = d + 1;
        while r < n && v[r] == ' '
            invariant
                n == v@.len(),
                d + 1 <= r <= n,
                space_run_end(v@, d + 1) == space_run_end(v@, r as int),
            decreases n - r,
        {
            r += 1;
        }
        assert(space_run_end(v@, r as int) == r);
        proof {
            lemma_space_run_end(v@, d + 1);
        }
        r
    } else {
        0
    }
}

/// The display title of the raw name `v`, as characters.
pub fn format_title_chars(v: &Vec<char>) -> (r: Vec<char>)
    ensures
        r@ == spec_format_title(v@),
{
    let n = v.len();
    let start = find_title_start(v);
    let mut out: Vec<char> = Vec::new();
    let mut i: usize = start;
    let mut word_start: bool = true;
    proof {
        assert(Seq::<char>::empty() + format_words_from(v@, start as int, true)
            =~= format_words_from(v@, start as int, true));
    }
    while i < n
        invariant
            n == v@.len(),
            start <= i <= n,
            spec_format_title(v@) == out@ + format_words_from(v@, i as int, word_start),
        decreases n - i,
    {
        let c = v[i];
        let ghost pre = out@;
        if c == '_' {
            out.push(' ');
            proof {
                assert(pre + (seq![' '] + format_words_from(v@, i + 1, true)) =~= out@
                    + format_words_from(v@, i + 1, true));
            }
            word_start = true;
        } else if word_start {
            let up = upper_first(c);
            crate::text::push_chars(&mut out, &up);
            proof {
                assert(pre + (upper_first_of(v@[i as int]) + format_words_from(v@, i + 1, false))
                    =~= out@ + format_words_from(v@, i + 1, false));
            }
            word_start = false;
        } else {
            out.push(c);
            proof {
                assert(pre + (seq![v@[i as int]] + format_words_from(v@, i + 1, false)) =~= out@
                    + format_words_from(v@, i + 1, false));
            }
            word_start = false;
        }
        i += 1;
    }
    proof {
        assert(out@ + format_words_from(v@, n as int, word_start) =~= out@);
    }
    out
}

/// Normalizes a raw filesystem name into a display title: an optional
/// numeric ordering prefix `"N)"` and following spaces are stripped,
/// `_`-separated words are upper-cased on their first character and
/// rejoined with spaces.
pub fn format_title(raw: &str) -> (r: String)
    ensures
        r@ == spec_format_title(raw@),
{
    let v = to_chars(raw);
    let out = format_title_chars(&v);
    chars_to_string(&out)
}

/// The ordering key of the raw name `v`.
pub fn sort_key_chars(v: &Vec<char>) -> (k: SortKey)
    ensures
        k.view_key() == spec_sort_key(v@),
{
    let n = v.len();
    let mut d: usize = 0;
    let mut val: u64 = 0;
    let mut overflow: bool = false;
    while d < n && 48 <= v[d] as u32 && v[d] as u32 <= 57
        invariant
            n == v@.len(),
            0 <= d <= n,
            digit_run_end(v@, 0) == digit_run_end(v@, d as int),
            !overflow ==> val == digits_val(v@, 0, d as int) && val < u64::MAX,
            overflow ==> digits_val(v@, 0, d as int) >= u64::MAX,
        decreases n - d,
    {
        let dig = (v[d] as u32 - 48) as u64;
        if !overflow {
            let wide: u128 = (val as u128) * 10 + (dig as u128);
            if wide >= u64::MAX as u128 {
                overflow = true;
                proof {
                    assert(digits_val(v@, 0, d + 1) == digits_val(v@, 0, d as int) * 10 + (
                    v@[d as int] as u32 - 48));
                }
            } else {
                val = wide as u64;
                proof {
                    assert(digits_val(v@, 0, d + 1) == digits_val(v@, 0, d as int) * 10 + (
                    v@[d as int] as u32 - 48));
                }
            }
        } else {
            proof {
                assert(digits_val(v@, 0, d + 1) == digits_val(v@, 0, d as int) * 10 + (
                v@[d as int] as u32 - 48));
                assert(digits_val(v@, 0, d as int) * 10 >= digits_val(v@, 0, d as int));
            }
        }
        d += 1;
    }
    assert(digit_run_end(v@, d as int) == d);
    let has_prefix = d >= 1 && d < n && v[d] == ')';
    let rank: u64 = if has_prefix && !overflow {
        val
    } else {
        u64::MAX
    };
    let start = find_title_start(v);
    let mut name: Vec<char> = Vec::new();
    let mut i: usize = start;
    while i < n
        invariant
            n == v@.len(),
            start <= i <= n,
            name@ == v@.subrange(start as int, i as int),
        decreases n - i,
    {
        name.push(v[i]);
        proof {
            assert(v@.subrange(start as int, i + 1) =~= v@.subrange(start as int, i as int).push(
                v@[i as int],
            ));
        }
        i += 1;
    }
    proof {
        assert(name@ =~= clean_name(v@));
    }
    SortKey { rank, name }
}

/// Law: formatting is idempotent on ASCII names that carry no underscore
/// and no numeric ordering prefix; formatting such a name once yields a
/// name that formatting leaves unchanged.
pub proof fn lemma_format_title_idempotent(s: Seq<char>)
    requires
        all_ascii(s),
        forall|i: int| 0 <= i < s.len() ==> s[i] != '_',
        !has_numeric_prefix(s),
    ensures
        spec_format_title(spec_format_title(s)) == spec_format_title(s),
{
    assert(title_start(s) == 0);
    if s.len() == 0 {
        assert(spec_format_title(s) =~= Seq::<char>::empty());
    } else {
        let t = spec_format_title(s);
        lemma_copy_rest(s, 1);
        assert(t == upper_first_of(s[0]) + s.skip(1));
        let u = upper_first_of(s[0])[0];
        if 97 <= s[0] as u32 <= 122 {
            assert(t =~= seq![u] + s.skip(1));
            assert(65 <= u as u32 <= 90);
        } else {
            assert(t =~= seq![u] + s.skip(1));
            assert(u == s[0]);
            assert(t =~= s);
        }
        assert(t.len() == s.len());
        assert(forall|i: int| 1 <= i < t.len() ==> t[i] == s[i]);
        if 97 <= s[0] as u32 <= 122 {
            assert(!is_ascii_digit(t[0]));
            assert(digit_run_end(t, 0) == 0);
            assert(!has_numeric_prefix(t));
        } else {
            assert(t == s);
            assert(!has_numeric_prefix(t));
        }
        assert(title_start(t) == 0);
        assert(forall|i: int| 0 <= i < t.len() ==> t[i] != '_');
        lemma_copy_rest(t, 1);
        assert(spec_format_title(t) == upper_first_of(t[0]) + t.skip(1));
        assert(upper_first_of(u) =~= seq![u]);
        assert(spec_format_title(t) =~= t);
    }
}

/// Copying step of the formatter: within a word, a run without `_`
/// is passed through unchanged.
proof fn lemma_copy_rest(s: Seq<char>, i: int)
    requires
        0 <= i <= s.len(),
        forall|j: int| 0 <= j < s.len() ==> s[j] != '_',
    ensures
        format_words_from(s, i, false) == s.skip(i),
    decreases s.len() - i,
{
    if i >= s.len() {
        assert(format_words_from(s, i, false) =~= s.skip(i));
    } else {
        lemma_copy_rest(s, i + 1);
        assert(seq![s[i]] + s.skip(i + 1) =~= s.skip(i));
    }
}

} // verus!

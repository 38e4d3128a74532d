//! Text-level machinery for loading a point cloud from delimited text:
//! line splitting, whitespace trimming, field splitting on the two-character
//! delimiter `", "`, and parsing of integer-valued decimal scalars.
//!
//! Every executable function here is proved against a small mathematical
//! grammar stated over `Seq<char>`.

use vstd::prelude::*;
use vstd::string::StrSliceExecFns;

verus! {

// ---------------------------------------------------------------------------
// Character classes
// ---------------------------------------------------------------------------

/// The Unicode `White_Space` set, as `str::trim` sees it.
pub open spec fn is_space_char(c: char) -> bool {
    let u = c as u32;
    u == 0x20 || u == 0x09 || u == 0x0A || u == 0x0B || u == 0x0C || u == 0x0D || u == 0x85
        || u == 0xA0 || u == 0x1680 || (0x2000 <= u && u <= 0x200A) || u == 0x2028 || u == 0x2029
        || u == 0x202F || u == 0x205F || u == 0x3000
}

pub open spec fn is_digit_char(c: char) -> bool {
    0x30 <= c as u32 && c as u32 <= 0x39
}

/// Numeric value of a decimal digit character.
pub open spec fn digit_of(c: char) -> int {
    c as u32 - 0x30
}

pub open spec fn non_space() -> spec_fn(char) -> bool {
    |c: char| !is_space_char(c)
}

pub open spec fn non_digit() -> spec_fn(char) -> bool {
    |c: char| !is_digit_char(c)
}

pub open spec fn is_newline() -> spec_fn(char) -> bool {
    |c: char| c == '\n'
}

fn is_space(c: char) -> (r: bool)
    ensures
        r == is_space_char(c),
{
    let u = c as u32;
    u == 0x20 || u == 0x09 || u == 0x0A || u == 0x0B || u == 0x0C || u == 0x0D || u == 0x85
        || u == 0xA0 || u == 0x1680 || (0x2000 <= u && u <= 0x200A) || u == 0x2028 || u == 0x2029
        || u == 0x202F || u == 0x205F || u == 0x3000
}

fn is_digit(c: char) -> (r: bool)
    ensures
        r == is_digit_char(c),
{
    let u = c as u32;
    0x30 <= u && u <= 0x39
}

// ---------------------------------------------------------------------------
// First and last index of a character class
// ---------------------------------------------------------------------------

/// Index of the first character satisfying `pred`, if any.
pub open spec fn first_at(s: Seq<char>, pred: spec_fn(char) -> bool) -> Option<int>
    decreases s.len(),
{
    if s.len() == 0 {
        None
    } else if pred(s[0]) {
        Some(0)
    } else {
        match first_at(s.skip(1), pred) {
            Some(i) => Some(i + 1),
            None => None,
        }
    }
}

/// Index of the last character satisfying `pred`, if any.
pub open spec fn last_at(s: Seq<char>, pred: spec_fn(char) -> bool) -> Option<int>
    decreases s.len(),
{
    if s.len() == 0 {
        None
    } else if pred(s.last()) {
        Some(s.len() - 1)
    } else {
        last_at(s.drop_last(), pred)
    }
}

/// `first_at` finds a satisfying index, and nothing earlier satisfies;
/// `None` means nothing satisfies at all.
pub proof fn lemma_first_at(s: Seq<char>, pred: spec_fn(char) -> bool)
    ensures
        match first_at(s, pred) {
            Some(i) => 0 <= i < s.len() && pred(s[i]) && (forall|j: int|
                0 <= j < i ==> !pred(s[j])),
            None => forall|j: int| 0 <= j < s.len() ==> !pred(s[j]),
        },
    decreases s.len(),
{
    if s.len() != 0 && !pred(s[0]) {
        lemma_first_at(s.skip(1), pred);
        match first_at(s.skip(1), pred) {
            Some(i) => {
                assert(s.skip(1)[i] == s[i + 1]);
                assert forall|j: int| 0 <= j < i + 1 implies !pred(s[j]) by {
                    if j > 0 {
                        assert(!pred(s.skip(1)[j - 1]));
                    }
                }
            },
            None => {
                assert forall|j: int| 0 <= j < s.len() implies !pred(s[j]) by {
                    if j > 0 {
                        assert(!pred(s.skip(1)[j - 1]));
                    }
                }
            },
        }
    }
}

/// `last_at` finds a satisfying index, and nothing later satisfies;
/// `None` means nothing satisfies at all.
pub proof fn lemma_last_at(s: Seq<char>, pred: spec_fn(char) -> bool)
    ensures
        match last_at(s, pred) {
            Some(i) => 0 <= i < s.len() && pred(s[i]) && (forall|j: int|
                i < j < s.len() ==> !pred(s[j])),
            None => forall|j: int| 0 <= j < s.len() ==> !pred(s[j]),
        },
    decreases s.len(),
{
    if s.len() != 0 && !pred(s.last()) {
        lemma_last_at(s.drop_last(), pred);
        assert(forall|j: int| 0 <= j < s.drop_last().len() ==> s.drop_last()[j] == s[j]);
    }
}

// ---------------------------------------------------------------------------
// Trimming
// ---------------------------------------------------------------------------

/// What `str::trim` leaves: the subrange from the first to the last
/// non-whitespace character, or the empty sequence.
pub open spec fn trim_of(s: Seq<char>) -> Seq<char> {
    match first_at(s, non_space()) {
        Some(a) => match last_at(s, non_space()) {
            Some(b) => s.subrange(a, b + 1),
            None => Seq::empty(),
        },
        None => Seq::empty(),
    }
}

/// Copy of `v[from..to]`.
fn sub_vec(v: &Vec<char>, from: usize, to: usize) -> (out: Vec<char>)
    requires
        from <= to <= v@.len(),
    ensures
        out@ == v@.subrange(from as int, to as int),
{
    let mut out: Vec<char> = Vec::new();
    let mut i: usize = from;
    while i < to
        invariant
            from <= i <= to <= v@.len(),
            out@ == v@.subrange(from as int, i as int),
        decreases to - i,
    {
        out.push(v[i]);
        proof {
            assert(v@.subrange(from as int, i + 1 as int) =~= v@.subrange(
                from as int,
                i as int,
            ).push(v@[i as int]));
        }
        i += 1;
    }
    out
}

/// Remove leading and trailing whitespace.
pub(crate) fn trim_chars(v: &Vec<char>) -> (out: Vec<char>)
    ensures
        out@ == trim_of(v@),
{
    let n = v.len();
    proof {
        lemma_first_at(v@, non_space());
        lemma_last_at(v@, non_space());
    }
    let mut a: usize = 0;
    while a < n && is_space(v[a])
        invariant
            0 <= a <= n == v@.len(),
            forall|j: int| 0 <= j < a ==> is_space_char(v@[j]),
        decreases n - a,
    {
        a += 1;
    }
    if a == n {
        // all whitespace
        assert(first_at(v@, non_space()) is None);
        return Vec::new();
    }
    assert(first_at(v@, non_space()) == Some(a as int));
    let mut b: usize = n;
    while b > a + 1 && is_space(v[b - 1])
        invariant
            a < b <= n == v@.len(),
            forall|j: int| b <= j < n ==> is_space_char(v@[j]),
        decreases b,
    {
        b -= 1;
    }
    // v[b - 1] is the last non-space character
    assert(!is_space_char(v@[b - 1])) by {
        if b == a + 1 {
            assert(!is_space_char(v@[a as int]));
        }
    }
    assert(last_at(v@, non_space()) == Some((b - 1) as int));
    sub_vec(v, a, b)
}

// ---------------------------------------------------------------------------
// Field splitting on the two-character delimiter ", "
// ---------------------------------------------------------------------------

/// The delimiter ", " stands at offset `j`.
pub open spec fn delim_at(s: Seq<char>, j: int) -> bool {
    0 <= j && j + 2 <= s.len() && s[j] == ',' && s[j + 1] == ' '
}

/// Offset of the first ", " occurrence, if any.
pub open spec fn first_delim(s: Seq<char>) -> Option<int>
    decreases s.len(),
{
    if s.len() < 2 {
        None
    } else if s[0] == ',' && s[1] == ' ' {
        Some(0)
    } else {
        match first_delim(s.skip(1)) {
            Some(i) => Some(i + 1),
            None => None,
        }
    }
}

/// `first_delim` finds a delimiter, and nothing earlier is one;
/// `None` means there is none at all.
pub proof fn lemma_first_delim(s: Seq<char>)
    ensures
        match first_delim(s) {
            Some(i) => delim_at(s, i) && (forall|j: int| 0 <= j < i ==> !delim_at(s, j)),
            None => forall|j: int| !delim_at(s, j),
        },
    decreases s.len(),
{
    if s.len() >= 2 && !(s[0] == ',' && s[1] == ' ') {
        lemma_first_delim(s.skip(1));
        assert(forall|j: int|
            0 <= j && j + 1 < s.skip(1).len() ==> #[trigger] s.skip(1)[j] == s[j + 1]
                && s.skip(1)[j + 1] == s[j + 2]);
        match first_delim(s.skip(1)) {
            Some(i) => {
                assert(delim_at(s, i + 1));
                assert forall|j: int| 0 <= j < i + 1 implies !delim_at(s, j) by {
                    if j > 0 {
                        assert(!delim_at(s.skip(1), j - 1));
                    }
                }
            },
            None => {
                assert forall|j: int| 0 <= j && j + 2 <= s.len() implies !delim_at(s, j) by {
                    if j > 0 {
                        assert(!delim_at(s.skip(1), j - 1));
                    }
                }
            },
        }
    }
}

/// The fields of `s`: the pieces between ", " occurrences, in order.
/// A sequence with no delimiter is a single field.
pub open spec fn split_fields(s: Seq<char>) -> Seq<Seq<char>>
    decreases s.len(),
{
    match first_delim(s) {
        Some(i) => if 0 <= i && i + 2 <= s.len() {
            seq![s.take(i)] + split_fields(s.skip(i + 2))
        } else {
            seq![s]
        },
        None => seq![s],
    }
}

/// The views of a vector of character vectors.
pub open spec fn views_of(vs: Seq<Vec<char>>) -> Seq<Seq<char>> {
    vs.map_values(|v: Vec<char>| v@)
}

/// Split the suffix `v[from..]` into fields on ", ".
pub(crate) fn split_fields_chars(v: &Vec<char>, from: usize) -> (out: Vec<Vec<char>>)
    requires
        from <= v@.len(),
    ensures
        views_of(out@) == split_fields(v@.skip(from as int)),
    decreases v@.len() - from,
{
    let n = v.len();
    let ghost suffix = v@.skip(from as int);
    proof {
        lemma_first_delim(suffix);
        assert(forall|j: int| 0 <= j < suffix.len() ==> suffix[j] == v@[j + from]);
    }
    let mut i: usize = from;
    while i < n && i + 1 < n && !(v[i] == ',' && v[i + 1] == ' ')
        invariant
            from <= i <= n == v@.len(),
            forall|j: int| from <= j < i ==> !(#[trigger] v@[j] == ',' && v@[j + 1] == ' '),
        decreases n - i,
    {
        i += 1;
    }
    if i < n && i + 1 < n {
        // delimiter found at absolute offset i
        proof {
            assert(delim_at(suffix, i - from));
            assert forall|j: int| 0 <= j < i - from implies !delim_at(suffix, j) by {
                assert(suffix[j] == v@[j + from]);
                assert(suffix[j + 1] == v@[j + from + 1]);
            }
            assert(first_delim(suffix) == Some(i - from));
        }
        let field = sub_vec(v, from, i);
        let mut out: Vec<Vec<char>> = Vec::new();
        out.push(field);
        let mut rest = split_fields_chars(v, i + 2);
        proof {
            assert(suffix.skip(i - from + 2) =~= v@.skip(i + 2));
            assert(field@ =~= suffix.take(i - from));
        }
        out.append(&mut rest);
        proof {
            assert(views_of(out@) =~~= split_fields(suffix));
        }
        out
    } else {
        // no delimiter in the suffix
        proof {
            assert forall|j: int| 0 <= j && j + 2 <= suffix.len() implies !delim_at(
                suffix,
                j,
            ) by {
                assert(suffix[j] == v@[j + from]);
                assert(suffix[j + 1] == v@[j + from + 1]);
            }
            assert(first_delim(suffix) is None);
        }
        let field = sub_vec(v, from, n);
        let mut out: Vec<Vec<char>> = Vec::new();
        out.push(field);
        proof {
            assert(field@ =~= suffix);
            assert(views_of(out@) =~~= split_fields(suffix));
        }
        out
    }
}

// ---------------------------------------------------------------------------
// Integer-valued decimal scalars
// ---------------------------------------------------------------------------

pub open spec fn pow10(n: nat) -> int
    decreases n,
{
    if n == 0 {
        1
    } else {
        10 * pow10((n - 1) as nat)
    }
}

/// Value of a digit string, most significant digit first.
pub open spec fn digits_val(s: Seq<char>) -> int
    decreases s.len(),
{
    if s.len() == 0 {
        0
    } else {
        digits_val(s.drop_last()) * 10 + digit_of(s.last())
    }
}

pub open spec fn all_digits(s: Seq<char>) -> bool {
    forall|i: int| 0 <= i < s.len() ==> is_digit_char(s[i])
}

pub open spec fn is_zero_digit(c: char) -> bool {
    c as u32 == 0x30
}

pub open spec fn all_zero_digits(s: Seq<char>) -> bool {
    forall|i: int| 0 <= i < s.len() ==> is_zero_digit(s[i])
}

/// Length of the longest digit prefix.
pub open spec fn digit_prefix_len(s: Seq<char>) -> int {
    match first_at(s, non_digit()) {
        Some(i) => i,
        None => s.len() as int,
    }
}

/// The unsigned part of the scalar grammar: digits, optionally followed by
/// a decimal point and zero fraction digits, with at least one digit in all.
/// A non-zero fraction has no value in an integer coordinate; an empty
/// integer part (as in ".0") counts as zero.
pub open spec fn magnitude_of(s: Seq<char>) -> Option<int> {
    let k = digit_prefix_len(s);
    if k == s.len() {
        if k >= 1 {
            Some(digits_val(s))
        } else {
            None
        }
    } else if s[k] == '.' && all_zero_digits(s.skip(k + 1)) && (k >= 1 || s.len() >= k + 2) {
        Some(digits_val(s.take(k)))
    } else {
        None
    }
}

/// The scalar grammar: an optional sign before a magnitude.
pub open spec fn number_of(s: Seq<char>) -> Option<int> {
    if s.len() > 0 && s[0] == '-' {
        match magnitude_of(s.skip(1)) {
            Some(m) => Some(-m),
            None => None,
        }
    } else if s.len() > 0 && s[0] == '+' {
        magnitude_of(s.skip(1))
    } else {
        magnitude_of(s)
    }
}

/// The value fits the coordinate type.
pub open spec fn fits_scalar(v: int) -> bool {
    i64::MIN <= v && v <= i64::MAX
}

pub proof fn lemma_pow10_pos(n: nat)
    ensures
        pow10(n) >= 1,
    decreases n,
{
    if n > 0 {
        lemma_pow10_pos((n - 1) as nat);
    }
}

pub proof fn lemma_pow10_mono(a: nat, b: nat)
    requires
        a <= b,
    ensures
        pow10(a) <= pow10(b),
    decreases b,
{
    if a < b {
        lemma_pow10_mono(a, (b - 1) as nat);
        lemma_pow10_pos((b - 1) as nat);
    }
}

/// A digit string with a non-zero leading digit is at least `pow10` of one
/// less than its length.
pub proof fn lemma_digits_val_lower(s: Seq<char>)
    requires
        all_digits(s),
        s.len() > 0,
        !is_zero_digit(s[0]),
    ensures
        digits_val(s) >= pow10((s.len() - 1) as nat),
    decreases s.len(),
{
    if s.len() == 1 {
        assert(digits_val(s.drop_last()) == 0);
        assert(digit_of(s[0]) >= 1);
    } else {
        lemma_digits_val_lower(s.drop_last());
    }
}

/// A string of zero digits has value zero.
pub proof fn lemma_all_zeros_val(s: Seq<char>)
    requires
        all_zero_digits(s),
    ensures
        digits_val(s) == 0,
    decreases s.len(),
{
    if s.len() > 0 {
        lemma_all_zeros_val(s.drop_last());
    }
}

/// Leading zero digits do not change a digit string's value.
pub proof fn lemma_strip_leading_zeros(s: Seq<char>, z: int)
    requires
        0 <= z <= s.len(),
        forall|j: int| 0 <= j < z ==> is_zero_digit(#[trigger] s[j]),
    ensures
        digits_val(s.skip(z)) == digits_val(s),
    decreases s.len(),
{
    if z == s.len() {
        lemma_all_zeros_val(s);
        assert(s.skip(z) =~= Seq::<char>::empty());
    } else if z == 0 {
        assert(s.skip(0) =~= s);
    } else {
        lemma_strip_leading_zeros(s.drop_last(), z);
        assert(s.skip(z).drop_last() =~= s.drop_last().skip(z));
        assert(s.skip(z).last() == s.last());
    }
}

/// Parse one field as an integer-valued decimal scalar. `None` exactly when
/// the field does not match the grammar or its value does not fit.
#[verifier::rlimit(100)]
pub(crate) fn parse_scalar(v: &Vec<char>) -> (r: Option<i64>)
    ensures
        match number_of(v@) {
            Some(m) => r == (if fits_scalar(m) {
                Some(m as i64)
            } else {
                None::<i64>
            }),
            None => r == None::<i64>,
        },
{
    let n = v.len();
    let mut start: usize = 0;
    let mut neg: bool = false;
    if n > 0 {
        let c0 = v[0];
        if c0 == '-' {
            neg = true;
            start = 1;
        } else if c0 == '+' {
            start = 1;
        }
    }
    let ghost body = v@.skip(start as int);
    proof {
        lemma_first_at(body, non_digit());
        assert(forall|j: int| 0 <= j < body.len() ==> body[j] == v@[j + start]);
        if start == 0 {
            assert(body =~= v@);
        }
    }
    // scan the digit prefix
    let mut k: usize = start;
    while k < n && is_digit(v[k])
        invariant
            start <= k <= n == v@.len(),
            forall|j: int| start <= j < k ==> is_digit_char(#[trigger] v@[j]),
        decreases n - k,
    {
        k += 1;
    }
    proof {
        if k < n {
            assert(body[k - start] == v@[k as int]);
            assert(first_at(body, non_digit()) == Some(k - start));
        } else {
            assert(first_at(body, non_digit()) is None);
        }
        assert(digit_prefix_len(body) == k - start);
    }
    let ghost digits = v@.subrange(start as int, k as int);
    proof {
        assert(digits =~= body.take(k - start));
    }
    if k == n {
        if k == start {
            // no digits at all
            return None;
        }
        proof {
            assert(body =~= digits);
            assert(magnitude_of(body) == Some(digits_val(digits)));
        }
    } else {
        if v[k] != '.' {
            return None;
        }
        // every character after the point must be a zero digit
        let mut j: usize = k + 1;
        while j < n && v[j] as u32 == 0x30
            invariant
                k < j <= n == v@.len(),
                forall|t: int| k < t < j ==> is_zero_digit(#[trigger] v@[t]),
            decreases n - j,
        {
            j += 1;
        }
        if j < n {
            proof {
                assert(body.skip(k - start + 1)[j - k - 1] == v@[j as int]);
                assert(!all_zero_digits(body.skip(k - start + 1)));
            }
            return None;
        }
        proof {
            assert(forall|t: int|
                0 <= t < body.skip(k - start + 1).len() ==> #[trigger] body.skip(k - start + 1)[t]
                    == v@[t + k + 1]);
            assert(all_zero_digits(body.skip(k - start + 1)));
        }
        if k == start && n < k + 2 {
            // a lone point with no digit on either side
            return None;
        }
        proof {
            assert(magnitude_of(body) == Some(digits_val(digits)));
        }
    }
    proof {
        if neg {
            assert(number_of(v@) == Some(-digits_val(digits)));
        } else {
            assert(number_of(v@) == Some(digits_val(digits)));
        }
    }
    // strip leading zeros of the integer digits
    let mut z: usize = start;
    while z < k && v[z] as u32 == 0x30
        invariant
            start <= z <= k <= v@.len(),
            forall|j: int| start <= j < z ==> is_zero_digit(#[trigger] v@[j]),
        decreases k - z,
    {
        z += 1;
    }
    let ghost eff = v@.subrange(z as int, k as int);
    proof {
        assert(eff =~= digits.skip(z - start));
        lemma_strip_leading_zeros(digits, z - start);
        assert(forall|j: int| 0 <= j < eff.len() ==> eff[j] == v@[j + z]);
        assert(all_digits(eff));
    }
    if k - z > 19 {
        // at least twenty significant digits: out of range either way
        proof {
            lemma_digits_val_lower(eff);
            lemma_pow10_mono(19, (eff.len() - 1) as nat);
            reveal_with_fuel(pow10, 21);
            assert(digits_val(eff) >= 10000000000000000000);
        }
        return None;
    }
    // the significant digits fit well inside an i128 accumulator
    let mut acc: i128 = 0;
    let mut i: usize = z;
    while i < k
        invariant
            z <= i <= k <= v@.len(),
            eff == v@.subrange(z as int, k as int),
            forall|j: int| 0 <= j < eff.len() ==> is_digit_char(#[trigger] eff[j]),
            k - z <= 19,
            acc == digits_val(v@.subrange(z as int, i as int)),
            0 <= acc < pow10((i - z) as nat),
        decreases k - i,
    {
        proof {
            lemma_pow10_mono((i - z) as nat, 18);
            reveal_with_fuel(pow10, 21);
            assert(eff[i - z] == v@[i as int]);
        }
        let d: i128 = (v[i] as u32 - 0x30) as i128;
        acc = acc * 10 + d;
        proof {
            let prev = v@.subrange(z as int, i as int);
            let cur = v@.subrange(z as int, i + 1 as int);
            assert(cur.drop_last() =~= prev);
            assert(cur.last() == v@[i as int]);
            assert(digits_val(cur) == digits_val(prev) * 10 + digit_of(v@[i as int]));
        }
        i += 1;
    }
    proof {
        assert(v@.subrange(z as int, k as int) == eff);
        assert(acc == digits_val(digits));
    }
    let m: i128 = if neg {
        -acc
    } else {
        acc
    };
    if m < i64::MIN as i128 || m > i64::MAX as i128 {
        return None;
    }
    Some(m as i64)
}

// ---------------------------------------------------------------------------
// Line splitting
// ---------------------------------------------------------------------------

/// Drop one trailing carriage return, as `str::lines` does before a newline.
pub open spec fn strip_cr(l: Seq<char>) -> Seq<char> {
    if l.len() > 0 && l.last() == '\r' {
        l.drop_last()
    } else {
        l
    }
}

/// The lines of `s`, as `str::lines` yields them: split at `'\n'`, a carriage
/// return directly before a newline removed, and no empty final line after a
/// trailing newline.
pub open spec fn lines_of(s: Seq<char>) -> Seq<Seq<char>>
    decreases s.len(),
{
    if s.len() == 0 {
        Seq::empty()
    } else {
        match first_at(s, is_newline()) {
            Some(i) => if 0 <= i && i < s.len() {
                seq![strip_cr(s.take(i))] + lines_of(s.skip(i + 1))
            } else {
                seq![s]
            },
            None => seq![s],
        }
    }
}

/// Copy of the characters of `s[from..to]`.
fn collect_chars(s: &str, from: usize, to: usize) -> (out: Vec<char>)
    requires
        from <= to <= s@.len(),
    ensures
        out@ == s@.subrange(from as int, to as int),
{
    let mut out: Vec<char> = Vec::new();
    let mut i: usize = from;
    while i < to
        invariant
            from <= i <= to <= s@.len(),
            out@ == s@.subrange(from as int, i as int),
        decreases to - i,
    {
        out.push(s.get_char(i));
        proof {
            assert(s@.subrange(from as int, i + 1 as int) =~= s@.subrange(
                from as int,
                i as int,
            ).push(s@[i as int]));
        }
        i += 1;
    }
    out
}

/// Split `s` into its lines, each line as a character vector.
pub(crate) fn split_lines(s: &str) -> (out: Vec<Vec<char>>)
    ensures
        views_of(out@) == lines_of(s@),
    decreases s@.len(),
{
    let n = s.unicode_len();
    if n == 0 {
        let out: Vec<Vec<char>> = Vec::new();
        proof {
            assert(views_of(out@) =~~= lines_of(s@));
        }
        return out;
    }
    proof {
        lemma_first_at(s@, is_newline());
    }
    let mut i: usize = 0;
    while i < n && s.get_char(i) != '\n'
        invariant
            0 <= i <= n == s@.len(),
            forall|j: int| 0 <= j < i ==> #[trigger] s@[j] != '\n',
        decreases n - i,
    {
        i += 1;
    }
    if i == n {
        // no newline: the whole text is one line
        proof {
            assert(first_at(s@, is_newline()) is None);
        }
        let line = collect_chars(s, 0, n);
        let mut out: Vec<Vec<char>> = Vec::new();
        proof {
            assert(line@ =~= s@);
        }
        out.push(line);
        proof {
            assert(views_of(out@) =~~= lines_of(s@));
        }
        return out;
    }
    proof {
        assert(first_at(s@, is_newline()) == Some(i as int));
    }
    let mut head = collect_chars(s, 0, i);
    if head.len() > 0 && head[head.len() - 1] == '\r' {
        head.pop();
    }
    proof {
        assert(head@ == strip_cr(s@.take(i as int)));
    }
    let rest = s.substring_char(i + 1, n);
    let mut tail = split_lines(rest);
    let mut out: Vec<Vec<char>> = Vec::new();
    out.push(head);
    out.append(&mut tail);
    proof {
        assert(rest@ == s@.skip(i + 1));
        assert(views_of(out@) =~~= lines_of(s@));
    }
    out
}

} // verus!

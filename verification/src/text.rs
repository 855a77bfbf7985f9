//! Character classes, decimal/hexadecimal numerals, and splitting/joining of
//! character sequences: the text-level vocabulary that the line and address
//! grammars are specified with.

use vstd::prelude::*;
use vstd::string::*;

verus! {

/// The whitespace characters recognized by the table format (ASCII whitespace).
pub open spec fn is_space(c: char) -> bool {
    c == ' ' || c == '\t' || c == '\n' || c == '\r' || c == '\u{b}' || c == '\u{c}'
}

pub open spec fn is_digit(c: char) -> bool {
    48 <= c as u32 && c as u32 <= 57
}

pub open spec fn digit_val(c: char) -> nat {
    (c as u32 - 48) as nat
}

pub open spec fn is_hex_digit(c: char) -> bool {
    is_digit(c) || (97 <= c as u32 && c as u32 <= 102) || (65 <= c as u32 && c as u32 <= 70)
}

pub open spec fn hex_digit_val(c: char) -> nat {
    if is_digit(c) {
        digit_val(c)
    } else if 97 <= c as u32 && c as u32 <= 102 {
        (c as u32 - 87) as nat
    } else {
        (c as u32 - 55) as nat
    }
}

/// The digit character for a value below ten.
pub open spec fn digit_char(n: nat) -> char {
    if n == 0 { '0' } else if n == 1 { '1' } else if n == 2 { '2' } else if n == 3 { '3' }
    else if n == 4 { '4' } else if n == 5 { '5' } else if n == 6 { '6' } else if n == 7 { '7' }
    else if n == 8 { '8' } else { '9' }
}

/// The lowercase hexadecimal digit character for a value below sixteen.
pub open spec fn hex_digit_char(n: nat) -> char {
    if n < 10 { digit_char(n) } else if n == 10 { 'a' } else if n == 11 { 'b' }
    else if n == 12 { 'c' } else if n == 13 { 'd' } else if n == 14 { 'e' } else { 'f' }
}

/// Decimal numeral of `n`, without leading zeros (`"0"` for zero).
pub open spec fn dec_str(n: nat) -> Seq<char>
    decreases n,
{
    if n < 10 { seq![digit_char(n)] } else { dec_str(n / 10) + seq![digit_char(n % 10)] }
}

/// Value of a sequence of decimal digits, most significant first.
pub open spec fn dec_val(s: Seq<char>) -> nat
    decreases s.len(),
{
    if s.len() == 0 { 0 } else { dec_val(s.drop_last()) * 10 + digit_val(s.last()) }
}

/// Lowercase hexadecimal numeral of `n`, without leading zeros (`"0"` for zero).
pub open spec fn hex_str(n: nat) -> Seq<char>
    decreases n,
{
    if n < 16 { seq![hex_digit_char(n)] } else { hex_str(n / 16) + seq![hex_digit_char(n % 16)] }
}

/// Value of a sequence of hexadecimal digits, most significant first.
pub open spec fn hex_val(s: Seq<char>) -> nat
    decreases s.len(),
{
    if s.len() == 0 { 0 } else { hex_val(s.drop_last()) * 16 + hex_digit_val(s.last()) }
}

pub open spec fn all_digits(s: Seq<char>) -> bool {
    forall|i: int| 0 <= i < s.len() ==> is_digit(#[trigger] s[i])
}

pub open spec fn all_hex_digits(s: Seq<char>) -> bool {
    forall|i: int| 0 <= i < s.len() ==> is_hex_digit(#[trigger] s[i])
}

pub proof fn lemma_dec_str_props(n: nat)
    ensures
        dec_str(n).len() >= 1,
        all_digits(dec_str(n)),
        dec_val(dec_str(n)) == n,
        dec_str(n).len() > 1 ==> dec_str(n)[0] != '0',
        dec_str(n)[0] == '0' ==> n == 0,
        n < 10 ==> dec_str(n).len() == 1,
        n < 100 ==> dec_str(n).len() <= 2,
        n < 1000 ==> dec_str(n).len() <= 3,
    decreases n,
{
    if n < 10 {
        assert(dec_val(seq![digit_char(n)].drop_last()) == 0);
    } else {
        lemma_dec_str_props(n / 10);
        let s = dec_str(n);
        assert(s.drop_last() =~= dec_str(n / 10));
        assert(s[0] == dec_str(n / 10)[0]);
        assert(dec_val(s) == (n / 10) * 10 + n % 10);
        assert((n / 10) * 10 + n % 10 == n) by (nonlinear_arith);
        assert(n < 100 ==> n / 10 < 10);
        assert(n < 1000 ==> n / 10 < 100);
    }
}

pub proof fn lemma_hex_str_props(n: nat)
    ensures
        hex_str(n).len() >= 1,
        all_hex_digits(hex_str(n)),
        hex_val(hex_str(n)) == n,
        n < 16 ==> hex_str(n).len() == 1,
        n < 0x100 ==> hex_str(n).len() <= 2,
        n < 0x1000 ==> hex_str(n).len() <= 3,
        n < 0x10000 ==> hex_str(n).len() <= 4,
    decreases n,
{
    if n < 16 {
        assert(hex_val(seq![hex_digit_char(n)].drop_last()) == 0);
    } else {
        lemma_hex_str_props(n / 16);
        let s = hex_str(n);
        assert(s.drop_last() =~= hex_str(n / 16));
        assert(hex_val(s) == (n / 16) * 16 + n % 16);
        assert((n / 16) * 16 + n % 16 == n) by (nonlinear_arith);
        assert(n < 0x100 ==> n / 16 < 16);
        assert(n < 0x1000 ==> n / 16 < 0x100);
        assert(n < 0x10000 ==> n / 16 < 0x1000);
    }
}

pub proof fn lemma_dec_val_bound(s: Seq<char>)
    requires
        all_digits(s),
    ensures
        s.len() <= 1 ==> dec_val(s) <= 9,
        s.len() <= 2 ==> dec_val(s) <= 99,
        s.len() <= 3 ==> dec_val(s) <= 999,
    decreases s.len(),
{
    if s.len() > 0 {
        assert(all_digits(s.drop_last())) by {
            assert(forall|i: int| 0 <= i < s.len() - 1 ==> s.drop_last()[i] == s[i]);
        }
        lemma_dec_val_bound(s.drop_last());
        assert(digit_val(s.last()) <= 9);
    }
}

pub proof fn lemma_hex_val_bound(s: Seq<char>)
    requires
        all_hex_digits(s),
    ensures
        s.len() <= 4 ==> hex_val(s) <= 0xffff,
        s.len() <= 3 ==> hex_val(s) <= 0xfff,
        s.len() <= 2 ==> hex_val(s) <= 0xff,
        s.len() <= 1 ==> hex_val(s) <= 0xf,
    decreases s.len(),
{
    if s.len() > 0 {
        assert(all_hex_digits(s.drop_last())) by {
            assert(forall|i: int| 0 <= i < s.len() - 1 ==> s.drop_last()[i] == s[i]);
        }
        lemma_hex_val_bound(s.drop_last());
        assert(hex_digit_val(s.last()) <= 15);
    }
}

/// Index of the first occurrence of `c` in `s`, or `s.len()` if absent.
pub open spec fn first_index_of(s: Seq<char>, c: char) -> int
    decreases s.len(),
{
    if s.len() == 0 {
        0
    } else if s[0] == c {
        0
    } else {
        1 + first_index_of(s.drop_first(), c)
    }
}

pub proof fn lemma_first_index_of_props(s: Seq<char>, c: char)
    ensures
        0 <= first_index_of(s, c) <= s.len(),
        first_index_of(s, c) < s.len() ==> s[first_index_of(s, c)] == c,
        forall|j: int| 0 <= j < first_index_of(s, c) ==> s[j] != c,
    decreases s.len(),
{
    if s.len() > 0 && s[0] != c {
        lemma_first_index_of_props(s.drop_first(), c);
        assert forall|j: int| 0 <= j < first_index_of(s, c) implies s[j] != c by {
            if j > 0 {
                assert(s[j] == s.drop_first()[j - 1]);
            }
        }
    }
}

/// The first occurrence is pinned by a witness: no `c` before `j`, and `c`
/// (or the end) at `j`.
pub proof fn lemma_first_index_of_is(s: Seq<char>, c: char, j: int)
    requires
        0 <= j <= s.len(),
        forall|k: int| 0 <= k < j ==> s[k] != c,
        j < s.len() ==> s[j] == c,
        j == s.len() ==> forall|k: int| 0 <= k < s.len() ==> s[k] != c,
    ensures
        first_index_of(s, c) == j,
    decreases s.len(),
{
    if s.len() > 0 && s[0] != c {
        lemma_first_index_of_is(s.drop_first(), c, j - 1);
    }
}

/// Index of the first whitespace character in `s`, or `s.len()` if absent.
pub open spec fn first_space(s: Seq<char>) -> int
    decreases s.len(),
{
    if s.len() == 0 {
        0
    } else if is_space(s[0]) {
        0
    } else {
        1 + first_space(s.drop_first())
    }
}

pub proof fn lemma_first_space_props(s: Seq<char>)
    ensures
        0 <= first_space(s) <= s.len(),
        first_space(s) < s.len() ==> is_space(s[first_space(s)]),
        forall|j: int| 0 <= j < first_space(s) ==> !is_space(s[j]),
    decreases s.len(),
{
    if s.len() > 0 && !is_space(s[0]) {
        lemma_first_space_props(s.drop_first());
        assert forall|j: int| 0 <= j < first_space(s) implies !is_space(s[j]) by {
            if j > 0 {
                assert(s[j] == s.drop_first()[j - 1]);
            }
        }
    }
}

pub proof fn lemma_first_space_is(s: Seq<char>, j: int)
    requires
        0 <= j <= s.len(),
        forall|k: int| 0 <= k < j ==> !is_space(s[k]),
        j < s.len() ==> is_space(s[j]),
        j == s.len() ==> forall|k: int| 0 <= k < s.len() ==> !is_space(s[k]),
    ensures
        first_space(s) == j,
    decreases s.len(),
{
    if s.len() > 0 && !is_space(s[0]) {
        lemma_first_space_is(s.drop_first(), j - 1);
    }
}

/// Index of the first non-whitespace character in `s`, or `s.len()` if all
/// of `s` is whitespace.
pub open spec fn first_nonspace(s: Seq<char>) -> int
    decreases s.len(),
{
    if s.len() == 0 {
        0
    } else if !is_space(s[0]) {
        0
    } else {
        1 + first_nonspace(s.drop_first())
    }
}

pub proof fn lemma_first_nonspace_props(s: Seq<char>)
    ensures
        0 <= first_nonspace(s) <= s.len(),
        first_nonspace(s) < s.len() ==> !is_space(s[first_nonspace(s)]),
        forall|j: int| 0 <= j < first_nonspace(s) ==> is_space(s[j]),
    decreases s.len(),
{
    if s.len() > 0 && is_space(s[0]) {
        lemma_first_nonspace_props(s.drop_first());
        assert forall|j: int| 0 <= j < first_nonspace(s) implies is_space(s[j]) by {
            if j > 0 {
                assert(s[j] == s.drop_first()[j - 1]);
            }
        }
    }
}

pub proof fn lemma_first_nonspace_is(s: Seq<char>, j: int)
    requires
        0 <= j <= s.len(),
        forall|k: int| 0 <= k < j ==> is_space(s[k]),
        j < s.len() ==> !is_space(s[j]),
        j == s.len() ==> forall|k: int| 0 <= k < s.len() ==> is_space(s[k]),
    ensures
        first_nonspace(s) == j,
    decreases s.len(),
{
    if s.len() > 0 && is_space(s[0]) {
        lemma_first_nonspace_is(s.drop_first(), j - 1);
    }
}

/// `s` with leading whitespace removed.
pub open spec fn trim_start(s: Seq<char>) -> Seq<char> {
    s.skip(first_nonspace(s))
}

/// `s` with trailing whitespace removed.
pub open spec fn trim_end(s: Seq<char>) -> Seq<char>
    decreases s.len(),
{
    if s.len() > 0 && is_space(s.last()) {
        trim_end(s.drop_last())
    } else {
        s
    }
}

/// `s` with whitespace removed from both ends.
pub open spec fn trim(s: Seq<char>) -> Seq<char> {
    trim_end(trim_start(s))
}

pub proof fn lemma_trim_end_is(s: Seq<char>, m: int)
    requires
        0 <= m <= s.len(),
        forall|k: int| m <= k < s.len() ==> is_space(s[k]),
        m > 0 ==> !is_space(s[m - 1]),
    ensures
        trim_end(s) == s.take(m),
    decreases s.len(),
{
    if s.len() > 0 && is_space(s.last()) {
        lemma_trim_end_is(s.drop_last(), m);
        assert(s.drop_last().take(m) =~= s.take(m));
    } else {
        assert(s.take(m) =~= s);
    }
}

/// A trimmed sequence is unchanged by trimming.
pub proof fn lemma_trim_of_token(s: Seq<char>)
    requires
        s.len() > 0 ==> !is_space(s[0]),
        s.len() > 0 ==> !is_space(s.last()),
    ensures
        trim(s) == s,
{
    lemma_first_nonspace_is(s, 0);
    assert(trim_start(s) =~= s);
    lemma_trim_end_is(s, s.len() as int);
    assert(s.take(s.len() as int) =~= s);
}

/// Split `s` at every occurrence of `sep`; the result always has at least
/// one (possibly empty) part, and `sep` occurs in none of the parts.
pub open spec fn split_on(s: Seq<char>, sep: char) -> Seq<Seq<char>>
    decreases s.len(),
    via split_on_decreases
{
    let i = first_index_of(s, sep);
    if i == s.len() {
        seq![s]
    } else {
        seq![s.take(i)] + split_on(s.skip(i + 1), sep)
    }
}

#[via_fn]
proof fn split_on_decreases(s: Seq<char>, sep: char) {
    lemma_first_index_of_props(s, sep);
}

/// Join `parts` with a single `sep` between consecutive parts.
pub open spec fn join(parts: Seq<Seq<char>>, sep: char) -> Seq<char>
    decreases parts.len(),
{
    if parts.len() == 0 {
        Seq::empty()
    } else if parts.len() == 1 {
        parts[0]
    } else {
        parts[0] + seq![sep] + join(parts.drop_first(), sep)
    }
}

pub proof fn lemma_split_on_props(s: Seq<char>, sep: char)
    ensures
        split_on(s, sep).len() >= 1,
        forall|i: int, j: int|
            0 <= i < split_on(s, sep).len() && 0 <= j < split_on(s, sep)[i].len()
                ==> #[trigger] split_on(s, sep)[i][j] != sep,
    decreases s.len(),
{
    lemma_first_index_of_props(s, sep);
    let i = first_index_of(s, sep);
    if i < s.len() {
        lemma_split_on_props(s.skip(i + 1), sep);
    }
}

/// Unfolding of a split at the first separator position, given a witness
/// for that position.
pub proof fn lemma_split_on_step(s: Seq<char>, sep: char, i: int)
    requires
        0 <= i <= s.len(),
        forall|k: int| 0 <= k < i ==> s[k] != sep,
        i < s.len() ==> s[i] == sep,
        i == s.len() ==> forall|k: int| 0 <= k < s.len() ==> s[k] != sep,
    ensures
        i < s.len() ==> split_on(s, sep) == seq![s.take(i)] + split_on(s.skip(i + 1), sep),
        i == s.len() ==> split_on(s, sep) == seq![s],
{
    lemma_first_index_of_is(s, sep, i);
}

/// Joining the parts of a split restores the original sequence.
pub proof fn lemma_split_join(s: Seq<char>, sep: char)
    ensures
        join(split_on(s, sep), sep) == s,
    decreases s.len(),
{
    lemma_first_index_of_props(s, sep);
    let i = first_index_of(s, sep);
    if i == s.len() {
        assert(join(seq![s], sep) == s);
    } else {
        lemma_split_join(s.skip(i + 1), sep);
        let parts = seq![s.take(i)] + split_on(s.skip(i + 1), sep);
        lemma_split_on_props(s.skip(i + 1), sep);
        assert(parts.drop_first() =~= split_on(s.skip(i + 1), sep));
        assert(join(parts, sep) =~= s.take(i) + seq![sep] + s.skip(i + 1));
        assert(s.take(i) + seq![sep] + s.skip(i + 1) =~= s);
    }
}

/// Splitting the join of separator-free parts restores the parts.
pub proof fn lemma_join_split(parts: Seq<Seq<char>>, sep: char)
    requires
        parts.len() >= 1,
        forall|i: int, j: int|
            0 <= i < parts.len() && 0 <= j < parts[i].len() ==> #[trigger] parts[i][j] != sep,
    ensures
        split_on(join(parts, sep), sep) == parts,
    decreases parts.len(),
{
    let s = join(parts, sep);
    if parts.len() == 1 {
        lemma_first_index_of_is(s, sep, s.len() as int);
        assert(split_on(s, sep) =~= parts);
    } else {
        let p0 = parts[0];
        let rest = join(parts.drop_first(), sep);
        assert(s == p0 + seq![sep] + rest);
        assert forall|k: int| 0 <= k < p0.len() implies s[k] != sep by {
            assert(s[k] == p0[k]);
        }
        assert(s[p0.len() as int] == sep);
        lemma_first_index_of_is(s, sep, p0.len() as int);
        assert(s.take(p0.len() as int) =~= p0);
        assert(s.skip(p0.len() as int + 1) =~= rest);
        assert forall|i: int, j: int|
            0 <= i < parts.drop_first().len() && 0 <= j < parts.drop_first()[i].len()
            implies #[trigger] parts.drop_first()[i][j] != sep by {
            assert(parts.drop_first()[i] == parts[i + 1]);
        }
        lemma_join_split(parts.drop_first(), sep);
        assert(split_on(s, sep) =~= seq![p0] + parts.drop_first());
        assert(seq![p0] + parts.drop_first() =~= parts);
    }
}

/// Appending one more part extends a join by a separator and the part.
pub proof fn lemma_join_push(parts: Seq<Seq<char>>, x: Seq<char>, sep: char)
    ensures
        join(parts.push(x), sep) == if parts.len() == 0 {
            x
        } else {
            join(parts, sep) + seq![sep] + x
        },
    decreases parts.len(),
{
    let p = parts.push(x);
    if parts.len() == 0 {
        assert(p.len() == 1);
        assert(p[0] == x);
    } else if parts.len() == 1 {
        assert(p.len() == 2);
        assert(p[0] == parts[0]);
        assert(p.drop_first() =~= seq![x]);
        assert(join(p.drop_first(), sep) == x);
    } else {
        assert(p.drop_first() =~= parts.drop_first().push(x));
        lemma_join_push(parts.drop_first(), x, sep);
        assert(join(p, sep) == p[0] + seq![sep] + join(p.drop_first(), sep));
        assert(p[0] == parts[0]);
        assert(parts[0] + seq![sep] + (join(parts.drop_first(), sep) + seq![sep] + x) =~= (parts[0]
            + seq![sep] + join(parts.drop_first(), sep)) + seq![sep] + x);
    }
}

/// Every character of a join satisfies a property that the separator and
/// every character of every part satisfy.
pub proof fn lemma_join_chars(parts: Seq<Seq<char>>, sep: char, p: spec_fn(char) -> bool)
    requires
        p(sep),
        forall|i: int, j: int|
            0 <= i < parts.len() && 0 <= j < parts[i].len() ==> p(#[trigger] parts[i][j]),
    ensures
        forall|k: int| 0 <= k < join(parts, sep).len() ==> p(#[trigger] join(parts, sep)[k]),
    decreases parts.len(),
{
    let s = join(parts, sep);
    if parts.len() == 0 {
    } else if parts.len() == 1 {
        assert forall|k: int| 0 <= k < s.len() implies p(#[trigger] s[k]) by {
            assert(s[k] == parts[0][k]);
        }
    } else {
        let p0 = parts[0];
        let rest = join(parts.drop_first(), sep);
        assert forall|i: int, j: int|
            0 <= i < parts.drop_first().len() && 0 <= j < parts.drop_first()[i].len() implies p(
            #[trigger] parts.drop_first()[i][j],
        ) by {
            assert(parts.drop_first()[i] == parts[i + 1]);
        }
        lemma_join_chars(parts.drop_first(), sep, p);
        assert forall|k: int| 0 <= k < s.len() implies p(#[trigger] s[k]) by {
            if k < p0.len() {
                assert(s[k] == p0[k]);
            } else if k == p0.len() {
                assert(s[k] == sep);
            } else {
                assert(s[k] == rest[k - p0.len() - 1]);
            }
        }
    }
}

/// A join of nonempty, separator-free parts has no two adjacent separators,
/// and neither starts nor ends with one.
pub proof fn lemma_join_no_adjacent(parts: Seq<Seq<char>>, sep: char)
    requires
        parts.len() >= 1,
        forall|i: int| 0 <= i < parts.len() ==> (#[trigger] parts[i]).len() > 0,
        forall|i: int, j: int|
            0 <= i < parts.len() && 0 <= j < parts[i].len() ==> #[trigger] parts[i][j] != sep,
    ensures
        join(parts, sep).len() > 0,
        join(parts, sep)[0] != sep,
        join(parts, sep).last() != sep,
        forall|k: int|
            0 <= k && k + 1 < join(parts, sep).len()
                ==> !(#[trigger] join(parts, sep)[k] == sep && join(parts, sep)[k + 1] == sep),
    decreases parts.len(),
{
    let s = join(parts, sep);
    if parts.len() == 1 {
        assert forall|k: int|
            0 <= k && k + 1 < s.len() implies !(#[trigger] s[k] == sep && s[k + 1] == sep) by {
            assert(s[k] == parts[0][k]);
        }
        assert(s[0] == parts[0][0]);
        assert(s.last() == parts[0][parts[0].len() - 1]);
    } else {
        let p0 = parts[0];
        let rest = join(parts.drop_first(), sep);
        assert forall|i: int| 0 <= i < parts.drop_first().len() implies (
        #[trigger] parts.drop_first()[i]).len() > 0 by {
            assert(parts.drop_first()[i] == parts[i + 1]);
        }
        assert forall|i: int, j: int|
            0 <= i < parts.drop_first().len() && 0 <= j < parts.drop_first()[i].len()
            implies #[trigger] parts.drop_first()[i][j] != sep by {
            assert(parts.drop_first()[i] == parts[i + 1]);
        }
        lemma_join_no_adjacent(parts.drop_first(), sep);
        assert(s[0] == p0[0]);
        assert(s.last() == rest[rest.len() - 1]);
        assert forall|k: int|
            0 <= k && k + 1 < s.len() implies !(#[trigger] s[k] == sep && s[k + 1] == sep) by {
            if k + 1 < p0.len() {
                assert(s[k] == p0[k]);
            } else if k + 1 == p0.len() {
                assert(s[k] == p0[k]);
            } else if k == p0.len() {
                assert(s[k + 1] == rest[0]);
            } else {
                assert(s[k] == rest[k - p0.len() - 1]);
                assert(s[k + 1] == rest[k - p0.len()]);
            }
        }
    }
}

/// The whitespace-separated tokens of `s`, in order, without empties.
pub open spec fn split_ws(s: Seq<char>) -> Seq<Seq<char>>
    decreases s.len(),
    via split_ws_decreases
{
    if s.len() == 0 {
        seq![]
    } else if is_space(s[0]) {
        split_ws(s.drop_first())
    } else {
        let j = first_space(s);
        seq![s.take(j)] + split_ws(s.skip(j))
    }
}

#[via_fn]
proof fn split_ws_decreases(s: Seq<char>) {
    if s.len() > 0 && !is_space(s[0]) {
        lemma_first_space_props(s);
    }
}

pub proof fn lemma_split_ws_props(s: Seq<char>)
    ensures
        forall|i: int| 0 <= i < split_ws(s).len() ==> (#[trigger] split_ws(s)[i]).len() > 0,
        forall|i: int, j: int|
            0 <= i < split_ws(s).len() && 0 <= j < split_ws(s)[i].len()
                ==> !is_space(#[trigger] split_ws(s)[i][j]),
    decreases s.len(),
{
    if s.len() == 0 {
    } else if is_space(s[0]) {
        lemma_split_ws_props(s.drop_first());
        assert(split_ws(s) == split_ws(s.drop_first()));
    } else {
        let j = first_space(s);
        lemma_first_space_props(s);
        assert(j >= 1);
        lemma_split_ws_props(s.skip(j));
        let tok = s.take(j);
        assert(forall|k: int| 0 <= k < tok.len() ==> !is_space(tok[k]));
        let r = split_ws(s);
        assert(r == seq![tok] + split_ws(s.skip(j)));
        assert forall|i: int| 0 <= i < r.len() implies (#[trigger] r[i]).len() > 0 by {
            if i > 0 {
                assert(r[i] == split_ws(s.skip(j))[i - 1]);
            }
        }
        assert forall|i: int, k: int|
            0 <= i < r.len() && 0 <= k < r[i].len() implies !is_space(#[trigger] r[i][k]) by {
            if i > 0 {
                assert(r[i] == split_ws(s.skip(j))[i - 1]);
            }
        }
    }
}

/// Every character of every token satisfies what every character of the
/// input satisfies.
pub proof fn lemma_split_ws_chars(s: Seq<char>, p: spec_fn(char) -> bool)
    requires
        forall|k: int| 0 <= k < s.len() ==> p(#[trigger] s[k]),
    ensures
        forall|i: int, j: int|
            0 <= i < split_ws(s).len() && 0 <= j < split_ws(s)[i].len()
                ==> p(#[trigger] split_ws(s)[i][j]),
    decreases s.len(),
{
    if s.len() == 0 {
    } else if is_space(s[0]) {
        assert forall|k: int| 0 <= k < s.drop_first().len() implies p(
            #[trigger] s.drop_first()[k],
        ) by {
            assert(s.drop_first()[k] == s[k + 1]);
        }
        lemma_split_ws_chars(s.drop_first(), p);
        assert(split_ws(s) == split_ws(s.drop_first()));
    } else {
        let j = first_space(s);
        lemma_first_space_props(s);
        assert forall|k: int| 0 <= k < s.skip(j).len() implies p(#[trigger] s.skip(j)[k]) by {
            assert(s.skip(j)[k] == s[j + k]);
        }
        lemma_split_ws_chars(s.skip(j), p);
        let r = split_ws(s);
        assert(r == seq![s.take(j)] + split_ws(s.skip(j)));
        assert forall|i: int, k: int|
            0 <= i < r.len() && 0 <= k < r[i].len() implies p(#[trigger] r[i][k]) by {
            if i == 0 {
                assert(r[0][k] == s[k]);
            } else {
                assert(r[i] == split_ws(s.skip(j))[i - 1]);
            }
        }
    }
}

/// An input that ends in a non-whitespace character yields at least one token.
pub proof fn lemma_split_ws_nonempty(s: Seq<char>)
    requires
        s.len() > 0,
        !is_space(s.last()),
    ensures
        split_ws(s).len() >= 1,
    decreases s.len(),
{
    if is_space(s[0]) {
        assert(s.len() >= 2);
        assert(s.drop_first().last() == s.last());
        lemma_split_ws_nonempty(s.drop_first());
    }
}

/// Split `s` at every occurrence of `sep`.
pub(crate) fn split_str(s: &str, sep: char) -> (parts: Vec<String>)
    ensures
        parts.deep_view() == split_on(s@, sep),
{
    let n = s.unicode_len();
    let mut parts: Vec<String> = Vec::new();
    let mut start: usize = 0;
    let mut i: usize = 0;
    proof {
        assert(s@.skip(0) =~= s@);
        assert(parts.deep_view() =~~= Seq::<Seq<char>>::empty());
        assert(Seq::<Seq<char>>::empty() + split_on(s@, sep) =~~= split_on(s@, sep));
    }
    while i < n
        invariant
            0 <= start <= i <= n,
            n == s@.len(),
            forall|k: int| start <= k < i ==> s@[k] != sep,
            split_on(s@, sep) == parts.deep_view() + split_on(s@.skip(start as int), sep),
        decreases n - i,
    {
        if s.get_char(i) == sep {
            let piece = s.substring_char(start, i).to_owned();
            let ghost prev = parts.deep_view();
            proof {
                let rest = s@.skip(start as int);
                assert forall|k: int| 0 <= k < i - start implies rest[k] != sep by {
                    assert(rest[k] == s@[start + k]);
                }
                assert(rest[i - start] == s@[i as int]);
                lemma_split_on_step(rest, sep, i - start);
                assert(rest.take(i - start) =~= s@.subrange(start as int, i as int));
                assert(rest.skip(i - start + 1) =~= s@.skip(i as int + 1));
            }
            parts.push(piece);
            proof {
                assert(parts.deep_view() =~~= prev.push(piece@));
                assert(prev.push(piece@) =~~= prev + seq![s@.subrange(start as int, i as int)]);
                assert(split_on(s@, sep) =~~= parts.deep_view() + split_on(
                    s@.skip(i as int + 1),
                    sep,
                ));
            }
            start = i + 1;
        }
        i += 1;
    }
    let piece = s.substring_char(start, n).to_owned();
    let ghost prev = parts.deep_view();
    proof {
        let rest = s@.skip(start as int);
        assert forall|k: int| 0 <= k < rest.len() implies rest[k] != sep by {
            assert(rest[k] == s@[start + k]);
        }
        lemma_split_on_step(rest, sep, rest.len() as int);
        assert(piece@ =~= rest);
    }
    parts.push(piece);
    proof {
        assert(parts.deep_view() =~~= prev.push(piece@));
        assert(prev + split_on(s@.skip(start as int), sep) =~~= prev.push(s@.skip(start as int)));
    }
    parts
}


} // verus!

//! IP address literals: a verified parser and canonical-form serializer for
//! the standard textual representation, version 4 (dotted decimal) and
//! version 6 (hexadecimal groups, with `::` compression and an optional
//! embedded version-4 tail).

use vstd::prelude::*;
use vstd::string::*;
use crate::text::split_str;
use crate::text::{
    all_digits, all_hex_digits, dec_str, dec_val, hex_str, hex_val, split_on, join,
    lemma_dec_str_props, lemma_hex_str_props, lemma_split_join, lemma_join_split,
    lemma_dec_val_bound, lemma_hex_val_bound, lemma_join_push, lemma_join_chars,
    lemma_join_no_adjacent, is_digit, is_hex_digit, digit_val, hex_digit_val, digit_char,
    hex_digit_char,
};

verus! {

/// An IP address, held as plain numeric components: four octets for a
/// version-4 address, eight 16-bit groups for a version-6 address.
#[derive(Clone, Copy, Debug, PartialEq, Eq, Structural)]
pub enum HostAddr {
    V4(u8, u8, u8, u8),
    V6(u16, u16, u16, u16, u16, u16, u16, u16),
}

/// The eight groups of a version-6 address, empty for a version-4 one.
pub open spec fn v6_segs(a: HostAddr) -> Seq<u16> {
    match a {
        HostAddr::V4(..) => Seq::empty(),
        HostAddr::V6(s0, s1, s2, s3, s4, s5, s6, s7) => seq![s0, s1, s2, s3, s4, s5, s6, s7],
    }
}

/// The version-6 address with the given eight groups.
pub open spec fn addr_from_segs(g: Seq<u16>) -> HostAddr
    recommends
        g.len() == 8,
{
    HostAddr::V6(g[0], g[1], g[2], g[3], g[4], g[5], g[6], g[7])
}

/// A decimal octet as it may appear in a version-4 literal: one to three
/// digits, no leading zero, value at most 255.
pub open spec fn is_dec_octet(p: Seq<char>) -> bool {
    &&& 1 <= p.len() <= 3
    &&& all_digits(p)
    &&& (p.len() > 1 ==> p[0] != '0')
    &&& dec_val(p) <= 255
}

/// Parse a version-4 literal: four dot-separated decimal octets.
pub open spec fn parse_v4(s: Seq<char>) -> Option<HostAddr> {
    let parts = split_on(s, '.');
    if parts.len() == 4 && is_dec_octet(parts[0]) && is_dec_octet(parts[1])
        && is_dec_octet(parts[2]) && is_dec_octet(parts[3]) {
        Some(HostAddr::V4(
            dec_val(parts[0]) as u8,
            dec_val(parts[1]) as u8,
            dec_val(parts[2]) as u8,
            dec_val(parts[3]) as u8,
        ))
    } else {
        None
    }
}

/// A hexadecimal group as it may appear in a version-6 literal: one to four
/// hexadecimal digits.
pub open spec fn is_hex_group(p: Seq<char>) -> bool {
    1 <= p.len() <= 4 && all_hex_digits(p)
}

/// Parse a colon-separated list of groups into 16-bit values. When
/// `allow_v4` holds, the final part may instead be an embedded version-4
/// literal, contributing two groups.
pub open spec fn parse_groups(parts: Seq<Seq<char>>, allow_v4: bool) -> Option<Seq<u16>>
    decreases parts.len(),
{
    if parts.len() == 0 {
        Some(Seq::empty())
    } else if parts.len() == 1 {
        if is_hex_group(parts[0]) {
            Some(seq![hex_val(parts[0]) as u16])
        } else {
            match (if allow_v4 { parse_v4(parts[0]) } else { None }) {
                Some(HostAddr::V4(a, b, c, d)) => Some(
                    seq![(a as u16 * 256 + b as u16) as u16, (c as u16 * 256 + d as u16) as u16],
                ),
                _ => None,
            }
        }
    } else {
        if is_hex_group(parts[0]) {
            match parse_groups(parts.drop_first(), allow_v4) {
                Some(g) => Some(seq![hex_val(parts[0]) as u16] + g),
                None => None,
            }
        } else {
            None
        }
    }
}

/// Index of the first occurrence of two consecutive colons in `s`, or
/// `s.len()` if there is none.
pub open spec fn first_dc(s: Seq<char>) -> int
    decreases s.len(),
{
    if s.len() < 2 {
        s.len() as int
    } else if s[0] == ':' && s[1] == ':' {
        0
    } else {
        1 + first_dc(s.drop_first())
    }
}

pub proof fn lemma_first_dc_is(s: Seq<char>, f: int)
    requires
        0 <= f <= s.len(),
        forall|j: int| 0 <= j < f && j + 1 < s.len() ==> !(#[trigger] s[j] == ':' && s[j + 1] == ':'),
        f < s.len() ==> f + 1 < s.len() && s[f] == ':' && s[f + 1] == ':',
        f == s.len() ==> forall|j: int|
            0 <= j && j + 1 < s.len() ==> !(#[trigger] s[j] == ':' && s[j + 1] == ':'),
    ensures
        first_dc(s) == f,
    decreases s.len(),
{
    if s.len() >= 2 && !(s[0] == ':' && s[1] == ':') {
        assert forall|j: int|
            0 <= j < f - 1 && j + 1 < s.drop_first().len()
            implies !(#[trigger] s.drop_first()[j] == ':' && s.drop_first()[j + 1] == ':') by {
            assert(s.drop_first()[j] == s[j + 1]);
            assert(s.drop_first()[j + 1] == s[j + 2]);
        }
        if f == s.len() {
            assert forall|j: int|
                0 <= j && j + 1 < s.drop_first().len()
                implies !(#[trigger] s.drop_first()[j] == ':' && s.drop_first()[j + 1] == ':') by {
                assert(s.drop_first()[j] == s[j + 1]);
                assert(s.drop_first()[j + 1] == s[j + 2]);
            }
        }
        lemma_first_dc_is(s.drop_first(), f - 1);
    }
}

/// `n` zero groups.
pub open spec fn zero_segs(n: int) -> Seq<u16> {
    Seq::new(n as nat, |i: int| 0u16)
}

/// Parse a version-6 literal into its eight groups.
pub open spec fn parse_v6(s: Seq<char>) -> Option<Seq<u16>> {
    let i = first_dc(s);
    if i == s.len() {
        match parse_groups(split_on(s, ':'), true) {
            Some(g) => if g.len() == 8 {
                Some(g)
            } else {
                None
            },
            None => None,
        }
    } else {
        let head = s.take(i);
        let tail = s.skip(i + 2);
        let hg = if head.len() == 0 {
            Some(Seq::<u16>::empty())
        } else {
            parse_groups(split_on(head, ':'), false)
        };
        let tg = if tail.len() == 0 {
            Some(Seq::<u16>::empty())
        } else {
            parse_groups(split_on(tail, ':'), true)
        };
        match (hg, tg) {
            (Some(h), Some(t)) => if h.len() + t.len() <= 7 {
                Some(h + zero_segs(8 - h.len() - t.len()) + t)
            } else {
                None
            },
            _ => None,
        }
    }
}

/// Parse an IP address literal: a version-4 literal, or else a version-6 one.
pub open spec fn parse_addr(s: Seq<char>) -> Option<HostAddr> {
    if parse_v4(s) is Some {
        parse_v4(s)
    } else {
        match parse_v6(s) {
            Some(g) => Some(addr_from_segs(g)),
            None => None,
        }
    }
}

fn parse_octet(s: &str) -> (r: Option<u8>)
    ensures
        match r {
            Some(v) => is_dec_octet(s@) && v as nat == dec_val(s@),
            None => !is_dec_octet(s@),
        },
{
    let n = s.unicode_len();
    if n < 1 || n > 3 {
        return None;
    }
    if n > 1 && s.get_char(0) == '0' {
        return None;
    }
    let mut val: u32 = 0;
    let mut i: usize = 0;
    while i < n
        invariant
            0 <= i <= n,
            n == s@.len(),
            1 <= n <= 3,
            all_digits(s@.take(i as int)),
            val as nat == dec_val(s@.take(i as int)),
        decreases n - i,
    {
        let c = s.get_char(i);
        let v = c as u32;
        if v < 48 || v > 57 {
            proof {
                assert(!is_digit(s@[i as int]));
                assert(!all_digits(s@));
            }
            return None;
        }
        proof {
            lemma_dec_val_bound(s@.take(i as int));
        }
        val = val * 10 + (v - 48);
        proof {
            assert(s@.take(i as int + 1).drop_last() =~= s@.take(i as int));
            assert(s@.take(i as int + 1).last() == s@[i as int]);
            assert(digit_val(s@[i as int]) == (v - 48) as nat);
            assert forall|k: int| 0 <= k < i + 1 implies is_digit(#[trigger] s@.take(
                i as int + 1,
            )[k]) by {
                if k < i {
                    assert(s@.take(i as int + 1)[k] == s@.take(i as int)[k]);
                }
            }
        }
        i += 1;
    }
    proof {
        assert(s@.take(n as int) =~= s@);
    }
    if val > 255 {
        return None;
    }
    Some(val as u8)
}

fn parse_group(s: &str) -> (r: Option<u16>)
    ensures
        match r {
            Some(v) => is_hex_group(s@) && v as nat == hex_val(s@),
            None => !is_hex_group(s@),
        },
{
    let n = s.unicode_len();
    if n < 1 || n > 4 {
        return None;
    }
    let mut val: u32 = 0;
    let mut i: usize = 0;
    while i < n
        invariant
            0 <= i <= n,
            n == s@.len(),
            1 <= n <= 4,
            all_hex_digits(s@.take(i as int)),
            val as nat == hex_val(s@.take(i as int)),
        decreases n - i,
    {
        let c = s.get_char(i);
        let v = c as u32;
        let d: u32 = if 48 <= v && v <= 57 {
            v - 48
        } else if 97 <= v && v <= 102 {
            v - 87
        } else if 65 <= v && v <= 70 {
            v - 55
        } else {
            proof {
                assert(!is_hex_digit(s@[i as int]));
                assert(!all_hex_digits(s@));
            }
            return None;
        };
        proof {
            lemma_hex_val_bound(s@.take(i as int));
        }
        val = val * 16 + d;
        proof {
            assert(s@.take(i as int + 1).drop_last() =~= s@.take(i as int));
            assert(s@.take(i as int + 1).last() == s@[i as int]);
            assert(hex_digit_val(s@[i as int]) == d as nat);
            assert forall|k: int| 0 <= k < i + 1 implies is_hex_digit(#[trigger] s@.take(
                i as int + 1,
            )[k]) by {
                if k < i {
                    assert(s@.take(i as int + 1)[k] == s@.take(i as int)[k]);
                }
            }
        }
        i += 1;
    }
    proof {
        assert(s@.take(n as int) =~= s@);
        lemma_hex_val_bound(s@);
    }
    Some(val as u16)
}

/// `Some(pre + g)` when `r` is `Some(g)`.
pub open spec fn opt_prepend(pre: Seq<u16>, r: Option<Seq<u16>>) -> Option<Seq<u16>> {
    match r {
        Some(g) => Some(pre + g),
        None => None,
    }
}

fn parse_group_list(parts: &Vec<String>, allow_v4: bool) -> (r: Option<Vec<u16>>)
    ensures
        match r {
            Some(v) => parse_groups(parts.deep_view(), allow_v4) == Some(v@),
            None => parse_groups(parts.deep_view(), allow_v4) is None,
        },
{
    let ghost whole = parts.deep_view();
    let len = parts.len();
    let mut out: Vec<u16> = Vec::new();
    if len == 0 {
        proof {
            assert(whole.len() == 0);
            assert(out@ =~= Seq::<u16>::empty());
        }
        return Some(out);
    }
    let mut k: usize = 0;
    proof {
        assert(whole.skip(0) =~= whole);
        assert(out@ =~= Seq::<u16>::empty());
        assert(parse_groups(whole, allow_v4) == opt_prepend(out@, parse_groups(whole, allow_v4)))
            by {
            match parse_groups(whole, allow_v4) {
                Some(g) => {
                    assert(Seq::<u16>::empty() + g =~= g);
                },
                None => {},
            }
        }
    }
    while k < len - 1
        invariant
            0 <= k <= len - 1,
            len >= 1,
            len == whole.len(),
            whole == parts.deep_view(),
            len == parts@.len(),
            parse_groups(whole, allow_v4) == opt_prepend(out@, parse_groups(
                whole.skip(k as int),
                allow_v4,
            )),
        decreases len - k,
    {
        proof {
            assert(whole[k as int] == parts@[k as int]@);
            assert(whole.skip(k as int)[0] == whole[k as int]);
            assert(whole.skip(k as int).len() >= 2);
        }
        match parse_group(parts[k].as_str()) {
            Some(v) => {
                let ghost prev = out@;
                out.push(v);
                proof {
                    assert(whole.skip(k as int).drop_first() =~= whole.skip(k as int + 1));
                    assert(out@ =~= prev.push(v));
                    match parse_groups(whole.skip(k as int + 1), allow_v4) {
                        Some(g) => {
                            assert(parse_groups(whole.skip(k as int), allow_v4) == Some(
                                seq![hex_val(whole[k as int]) as u16] + g,
                            ));
                            assert(prev + (seq![hex_val(whole[k as int]) as u16] + g) =~= out@ + g);
                        },
                        None => {},
                    }
                }
            },
            None => {
                return None;
            },
        }
        k += 1;
    }
    proof {
        assert(whole.skip(k as int).len() == 1);
        assert(whole.skip(k as int)[0] == whole[k as int]);
        assert(whole[k as int] == parts@[k as int]@);
    }
    match parse_group(parts[k].as_str()) {
        Some(v) => {
            let ghost prev = out@;
            out.push(v);
            proof {
                assert(out@ =~= prev.push(v));
                assert(prev + seq![hex_val(whole[k as int]) as u16] =~= out@);
            }
            Some(out)
        },
        None => {
            if allow_v4 {
                match v4_from_str(parts[k].as_str()) {
                    Some(HostAddr::V4(a, b, c, d)) => {
                        let ghost prev = out@;
                        let hi: u16 = (a as u16) * 256 + (b as u16);
                        let lo: u16 = (c as u16) * 256 + (d as u16);
                        out.push(hi);
                        out.push(lo);
                        proof {
                            assert(out@ =~= prev.push(hi).push(lo));
                            assert(prev + seq![hi, lo] =~= out@);
                        }
                        Some(out)
                    },
                    Some(HostAddr::V6(..)) => {
                        proof {
                            assert(false);
                        }
                        None
                    },
                    None => None,
                }
            } else {
                None
            }
        },
    }
}

fn v4_from_str(s: &str) -> (r: Option<HostAddr>)
    ensures
        r == parse_v4(s@),
{
    let parts = split_str(s, '.');
    proof {
        assert(parts@.len() == parts.deep_view().len());
    }
    if parts.len() != 4 {
        return None;
    }
    proof {
        assert forall|k: int| 0 <= k < 4 implies parts.deep_view()[k] == #[trigger] parts@[k]@ by {}
    }
    let a = match parse_octet(parts[0].as_str()) {
        Some(v) => v,
        None => {
            return None;
        },
    };
    let b = match parse_octet(parts[1].as_str()) {
        Some(v) => v,
        None => {
            return None;
        },
    };
    let c = match parse_octet(parts[2].as_str()) {
        Some(v) => v,
        None => {
            return None;
        },
    };
    let d = match parse_octet(parts[3].as_str()) {
        Some(v) => v,
        None => {
            return None;
        },
    };
    Some(HostAddr::V4(a, b, c, d))
}

fn v6_from_str(s: &str) -> (r: Option<HostAddr>)
    ensures
        r == match parse_v6(s@) {
            Some(g) => Some(addr_from_segs(g)),
            None => None::<HostAddr>,
        },
{
    let n = s.unicode_len();
    let mut i: usize = 0;
    let mut found = false;
    while !found && n >= 2 && i < n - 1
        invariant
            0 <= i <= n,
            n == s@.len(),
            forall|j: int| 0 <= j < i && j + 1 < n ==> !(#[trigger] s@[j] == ':' && s@[j + 1] == ':'),
            found ==> i + 1 < n && s@[i as int] == ':' && s@[i as int + 1] == ':',
        decreases (if found { 0int } else { 1int }), n - i,
    {
        if s.get_char(i) == ':' && s.get_char(i + 1) == ':' {
            found = true;
        } else {
            i += 1;
        }
    }
    if !found {
        proof {
            lemma_first_dc_is(s@, n as int);
        }
        let parts = split_str(s, ':');
        match parse_group_list(&parts, true) {
            Some(v) => {
                if v.len() == 8 {
                    Some(HostAddr::V6(v[0], v[1], v[2], v[3], v[4], v[5], v[6], v[7]))
                } else {
                    None
                }
            },
            None => None,
        }
    } else {
        proof {
            lemma_first_dc_is(s@, i as int);
        }
        let head = s.substring_char(0, i);
        let tail = s.substring_char(i + 2, n);
        proof {
            assert(head@ =~= s@.take(i as int));
            assert(tail@ =~= s@.skip(i as int + 2));
        }
        let hg: Option<Vec<u16>> = if head.unicode_len() == 0 {
            Some(Vec::new())
        } else {
            let hparts = split_str(head, ':');
            parse_group_list(&hparts, false)
        };
        let tg: Option<Vec<u16>> = if tail.unicode_len() == 0 {
            Some(Vec::new())
        } else {
            let tparts = split_str(tail, ':');
            parse_group_list(&tparts, true)
        };
        match (hg, tg) {
            (Some(h), Some(t)) => {
                if h.len() <= 7 && t.len() <= 7 - h.len() {
                    let zeros = 8 - h.len() - t.len();
                    let ghost hseq = h@;
                    let ghost tseq = t@;
                    let mut out = h;
                    let mut z: usize = 0;
                    while z < zeros
                        invariant
                            0 <= z <= zeros,
                            out@ =~= hseq + zero_segs(z as int),
                        decreases zeros - z,
                    {
                        out.push(0);
                        proof {
                            assert(out@ =~= hseq + zero_segs(z as int + 1));
                        }
                        z += 1;
                    }
                    let mut w: usize = 0;
                    while w < t.len()
                        invariant
                            0 <= w <= t.len(),
                            tseq == t@,
                            out@ =~= hseq + zero_segs((8 - hseq.len() - tseq.len()) as int)
                                + tseq.take(w as int),
                        decreases t.len() - w,
                    {
                        out.push(t[w]);
                        proof {
                            assert(tseq.take(w as int + 1) =~= tseq.take(w as int).push(
                                tseq[w as int],
                            ));
                            assert(out@ =~= hseq + zero_segs((8 - hseq.len() - tseq.len()) as int)
                                + tseq.take(w as int + 1));
                        }
                        w += 1;
                    }
                    proof {
                        assert(tseq.take(tseq.len() as int) =~= tseq);
                        assert(out@.len() == 8);
                        assert(parse_v6(s@) == Some(out@));
                    }
                    Some(HostAddr::V6(out[0], out[1], out[2], out[3], out[4], out[5], out[6], out[7]))
                } else {
                    None
                }
            },
            _ => None,
        }
    }
}

/// Canonical text of a version-4 address: dotted decimal octets.
pub open spec fn v4_text(a: u8, b: u8, c: u8, d: u8) -> Seq<char> {
    join(seq![dec_str(a as nat), dec_str(b as nat), dec_str(c as nat), dec_str(d as nat)], '.')
}

/// The hexadecimal numerals of the groups, in order.
pub open spec fn hex_texts(g: Seq<u16>) -> Seq<Seq<char>>
    decreases g.len(),
{
    if g.len() == 0 {
        seq![]
    } else {
        hex_texts(g.drop_last()).push(hex_str(g.last() as nat))
    }
}

pub proof fn lemma_hex_texts_props(g: Seq<u16>)
    ensures
        hex_texts(g).len() == g.len(),
        forall|i: int| 0 <= i < g.len() ==> #[trigger] hex_texts(g)[i] == hex_str(g[i] as nat),
    decreases g.len(),
{
    if g.len() > 0 {
        lemma_hex_texts_props(g.drop_last());
    }
}

/// Colon-joined lowercase hexadecimal groups.
pub open spec fn groups_text(g: Seq<u16>) -> Seq<char> {
    join(hex_texts(g), ':')
}

/// Length of the run of zero groups starting at index `i`.
pub open spec fn run_at(g: Seq<u16>, i: int) -> int
    decreases g.len() - i,
{
    if i < 0 || i >= g.len() || g[i] != 0 {
        0
    } else {
        1 + run_at(g, i + 1)
    }
}

/// The start of the earliest longest run of zero groups at or after `i`
/// (`g.len()` when only the empty run remains).
pub open spec fn best_from(g: Seq<u16>, i: int) -> int
    decreases g.len() - i,
{
    if i >= g.len() {
        i
    } else {
        let b = best_from(g, i + 1);
        if run_at(g, i) >= run_at(g, b) {
            i
        } else {
            b
        }
    }
}

/// Canonical text of a version-6 address: the earliest longest run of at
/// least two zero groups is compressed to `::`; otherwise all eight groups
/// are written out.
pub open spec fn v6_text(g: Seq<u16>) -> Seq<char> {
    let b = best_from(g, 0);
    let r = run_at(g, b);
    if r >= 2 {
        groups_text(g.take(b)) + seq![':', ':'] + groups_text(g.skip(b + r))
    } else {
        groups_text(g)
    }
}

/// Canonical textual form of an address.
pub open spec fn addr_text(a: HostAddr) -> Seq<char> {
    match a {
        HostAddr::V4(x, y, z, w) => v4_text(x, y, z, w),
        HostAddr::V6(..) => v6_text(v6_segs(a)),
    }
}

pub proof fn lemma_run_at_props(g: Seq<u16>, i: int)
    requires
        0 <= i <= g.len(),
    ensures
        0 <= run_at(g, i) <= g.len() - i,
        forall|k: int| i <= k < i + run_at(g, i) ==> g[k] == 0,
        i + run_at(g, i) < g.len() ==> g[i + run_at(g, i)] != 0,
    decreases g.len() - i,
{
    if i < g.len() && g[i] == 0 {
        lemma_run_at_props(g, i + 1);
    }
}

pub proof fn lemma_run_at_is(g: Seq<u16>, i: int, j: int)
    requires
        0 <= i <= j <= g.len(),
        forall|k: int| i <= k < j ==> g[k] == 0,
        j < g.len() ==> g[j] != 0,
    ensures
        run_at(g, i) == j - i,
    decreases g.len() - i,
{
    if i < j {
        lemma_run_at_is(g, i + 1, j);
    }
}

pub proof fn lemma_best_from_range(g: Seq<u16>, i: int)
    requires
        0 <= i <= g.len(),
    ensures
        i <= best_from(g, i) <= g.len(),
    decreases g.len() - i,
{
    if i < g.len() {
        lemma_best_from_range(g, i + 1);
    }
}

/// The earliest longest zero run is pinned by a witness.
pub proof fn lemma_best_from_is(g: Seq<u16>, i: int, b: int)
    requires
        0 <= i <= b <= g.len(),
        forall|j: int| i <= j < b ==> run_at(g, j) < run_at(g, b),
        forall|j: int| b < j <= g.len() ==> run_at(g, j) <= run_at(g, b),
    ensures
        best_from(g, i) == b,
    decreases g.len() - i,
{
    if i < g.len() {
        if i < b {
            lemma_best_from_is(g, i + 1, b);
        } else {
            lemma_best_from_range(g, i + 1);
            let b2 = best_from(g, i + 1);
            assert(run_at(g, b2) <= run_at(g, i));
        }
    }
}

fn append_digit(buf: &mut String, d: u8)
    requires
        d < 10,
    ensures
        final(buf)@ == old(buf)@ + seq![digit_char(d as nat)],
{
    proof {
        reveal_strlit("0");
        reveal_strlit("1");
        reveal_strlit("2");
        reveal_strlit("3");
        reveal_strlit("4");
        reveal_strlit("5");
        reveal_strlit("6");
        reveal_strlit("7");
        reveal_strlit("8");
        reveal_strlit("9");
    }
    let p: &str = match d {
        0 => "0",
        1 => "1",
        2 => "2",
        3 => "3",
        4 => "4",
        5 => "5",
        6 => "6",
        7 => "7",
        8 => "8",
        _ => "9",
    };
    proof {
        assert(p@ =~= seq![digit_char(d as nat)]);
    }
    buf.append(p);
}

fn append_hex_digit(buf: &mut String, d: u8)
    requires
        d < 16,
    ensures
        final(buf)@ == old(buf)@ + seq![hex_digit_char(d as nat)],
{
    if d < 10 {
        append_digit(buf, d);
        return ;
    }
    proof {
        reveal_strlit("a");
        reveal_strlit("b");
        reveal_strlit("c");
        reveal_strlit("d");
        reveal_strlit("e");
        reveal_strlit("f");
    }
    let p: &str = match d {
        10 => "a",
        11 => "b",
        12 => "c",
        13 => "d",
        14 => "e",
        _ => "f",
    };
    proof {
        assert(p@ =~= seq![hex_digit_char(d as nat)]);
    }
    buf.append(p);
}

fn append_dec_u8(buf: &mut String, n: u8)
    ensures
        final(buf)@ == old(buf)@ + dec_str(n as nat),
    decreases n,
{
    if n < 10 {
        append_digit(buf, n);
    } else {
        append_dec_u8(buf, n / 10);
        append_digit(buf, n % 10);
        proof {
            assert(old(buf)@ + dec_str((n / 10) as nat) + seq![digit_char((n % 10) as nat)]
                =~= old(buf)@ + dec_str(n as nat));
        }
    }
}

fn append_hex_u16(buf: &mut String, n: u16)
    ensures
        final(buf)@ == old(buf)@ + hex_str(n as nat),
    decreases n,
{
    if n < 16 {
        append_hex_digit(buf, n as u8);
    } else {
        append_hex_u16(buf, n / 16);
        append_hex_digit(buf, (n % 16) as u8);
        proof {
            assert(old(buf)@ + hex_str((n / 16) as nat) + seq![hex_digit_char((n % 16) as nat)]
                =~= old(buf)@ + hex_str(n as nat));
        }
    }
}

fn append_groups(buf: &mut String, g: &Vec<u16>, from: usize, to: usize)
    requires
        from <= to <= g@.len(),
    ensures
        final(buf)@ == old(buf)@ + groups_text(g@.subrange(from as int, to as int)),
{
    let ghost base = buf@;
    proof {
        assert(g@.subrange(from as int, from as int) =~= Seq::<u16>::empty());
        assert(base + groups_text(g@.subrange(from as int, from as int)) =~= base);
    }
    let mut k: usize = from;
    while k < to
        invariant
            from <= k <= to <= g@.len(),
            buf@ == base + groups_text(g@.subrange(from as int, k as int)),
        decreases to - k,
    {
        proof {
            reveal_strlit(":");
        }
        if k > from {
            buf.append(":");
        }
        append_hex_u16(buf, g[k]);
        proof {
            let pre = g@.subrange(from as int, k as int);
            let now = g@.subrange(from as int, k as int + 1);
            assert(now.drop_last() =~= pre);
            assert(hex_texts(now) == hex_texts(pre).push(hex_str(g@[k as int] as nat)));
            lemma_hex_texts_props(pre);
            lemma_join_push(hex_texts(pre), hex_str(g@[k as int] as nat), ':');
            if k == from {
                assert(hex_texts(pre).len() == 0);
                assert(buf@ =~= base + groups_text(now));
            } else {
                assert(hex_texts(pre).len() > 0);
                assert((":"@) =~= seq![':']);
                assert(buf@ =~= base + groups_text(now));
            }
        }
        k += 1;
    }
}

impl HostAddr {
    /// Parse the textual representation of an IP address.
    pub fn parse(s: &str) -> (r: Option<HostAddr>)
        ensures
            r == parse_addr(s@),
    {
        match v4_from_str(s) {
            Some(a) => Some(a),
            None => v6_from_str(s),
        }
    }

    /// Append the canonical textual form of this address to `buf`.
    pub fn write_into(&self, buf: &mut String)
        ensures
            final(buf)@ == old(buf)@ + addr_text(*self),
    {
        match self {
            HostAddr::V4(a, b, c, d) => {
                proof {
                    reveal_strlit(".");
                }
                append_dec_u8(buf, *a);
                buf.append(".");
                append_dec_u8(buf, *b);
                buf.append(".");
                append_dec_u8(buf, *c);
                buf.append(".");
                append_dec_u8(buf, *d);
                proof {
                    let ta = dec_str(*a as nat);
                    let tb = dec_str(*b as nat);
                    let tc = dec_str(*c as nat);
                    let td = dec_str(*d as nat);
                    let p4 = seq![td];
                    let p3 = seq![tc, td];
                    let p2 = seq![tb, tc, td];
                    let parts = seq![ta, tb, tc, td];
                    assert(join(p4, '.') == td);
                    assert(p3.drop_first() =~= p4);
                    assert(join(p3, '.') == tc + seq!['.'] + join(p4, '.'));
                    assert(p2.drop_first() =~= p3);
                    assert(join(p2, '.') == tb + seq!['.'] + join(p3, '.'));
                    assert(parts.drop_first() =~= p2);
                    assert(join(parts, '.') == ta + seq!['.'] + join(p2, '.'));
                    assert(("."@) =~= seq!['.']);
                    assert(buf@ =~= old(buf)@ + v4_text(*a, *b, *c, *d));
                }
            },
            HostAddr::V6(s0, s1, s2, s3, s4, s5, s6, s7) => {
                let segs: Vec<u16> = vec![*s0, *s1, *s2, *s3, *s4, *s5, *s6, *s7];
                let ghost g = v6_segs(*self);
                proof {
                    assert(segs@ =~= g);
                }
                let mut best: usize = 0;
                let mut bl = run_len(&segs, 0);
                let mut i: usize = 1;
                while i < 8
                    invariant
                        1 <= i <= 8,
                        segs@ == g,
                        g.len() == 8,
                        0 <= best < i,
                        bl as int == run_at(g, best as int),
                        forall|j: int| 0 <= j < best ==> run_at(g, j) < bl,
                        forall|j: int| best < j < i ==> run_at(g, j) <= bl,
                    decreases 8 - i,
                {
                    let rl = run_len(&segs, i);
                    if rl > bl {
                        best = i;
                        bl = rl;
                    }
                    i += 1;
                }
                proof {
                    assert(run_at(g, 8) == 0);
                    lemma_best_from_is(g, 0, best as int);
                }
                if bl >= 2 {
                    proof {
                        lemma_run_at_props(g, best as int);
                    }
                    append_groups(buf, &segs, 0, best);
                    proof {
                        reveal_strlit("::");
                    }
                    buf.append("::");
                    append_groups(buf, &segs, best + bl, 8);
                    proof {
                        assert(g.take(best as int) =~= g.subrange(0, best as int));
                        assert(g.skip(best as int + bl as int) =~= g.subrange(
                            best as int + bl as int,
                            8,
                        ));
                        assert(("::"@) =~= seq![':', ':']);
                        assert(buf@ =~= old(buf)@ + addr_text(*self));
                    }
                } else {
                    append_groups(buf, &segs, 0, 8);
                    proof {
                        assert(g.subrange(0, 8) =~= g);
                        assert(buf@ =~= old(buf)@ + addr_text(*self));
                    }
                }
            },
        }
    }

    /// The canonical textual form of this address.
    pub fn to_text(&self) -> (r: String)
        ensures
            r@ == addr_text(*self),
    {
        let mut s = String::new();
        self.write_into(&mut s);
        s
    }
}

/// The characters that may appear in an address text.
pub open spec fn is_addr_char(c: char) -> bool {
    is_hex_digit(c) || c == '.' || c == ':'
}

/// A version-4 parse leaves only digits and dots possible in the input.
proof fn lemma_v4_chars(s: Seq<char>)
    requires
        parse_v4(s) is Some,
    ensures
        forall|k: int| 0 <= k < s.len() ==> is_digit(#[trigger] s[k]) || s[k] == '.',
{
    let parts = split_on(s, '.');
    lemma_split_join(s, '.');
    assert forall|i: int, j: int|
        0 <= i < parts.len() && 0 <= j < parts[i].len() implies (is_digit(#[trigger] parts[i][j])
        || parts[i][j] == '.') by {
        assert(is_dec_octet(parts[i]));
    }
    lemma_join_chars(parts, '.', |c: char| is_digit(c) || c == '.');
}

proof fn lemma_hex_texts_wf(g: Seq<u16>)
    ensures
        forall|i: int| 0 <= i < hex_texts(g).len() ==> (#[trigger] hex_texts(g)[i]).len() > 0,
        forall|i: int, j: int|
            0 <= i < hex_texts(g).len() && 0 <= j < hex_texts(g)[i].len()
                ==> is_hex_digit(#[trigger] hex_texts(g)[i][j]) && hex_texts(g)[i][j] != ':'
                && hex_texts(g)[i][j] != '.',
        forall|i: int| 0 <= i < hex_texts(g).len() ==> is_hex_group(#[trigger] hex_texts(g)[i]),
{
    lemma_hex_texts_props(g);
    assert forall|i: int| 0 <= i < hex_texts(g).len() implies is_hex_group(
        #[trigger] hex_texts(g)[i],
    ) && hex_texts(g)[i].len() > 0 by {
        lemma_hex_str_props(g[i] as nat);
    }
    assert forall|i: int, j: int|
        0 <= i < hex_texts(g).len() && 0 <= j < hex_texts(g)[i].len() implies is_hex_digit(
        #[trigger] hex_texts(g)[i][j],
    ) && hex_texts(g)[i][j] != ':' && hex_texts(g)[i][j] != '.' by {
        assert(is_hex_group(hex_texts(g)[i]));
        assert(is_hex_digit(hex_texts(g)[i][j]));
    }
}

/// Hexadecimal group texts parse back to the group values.
proof fn lemma_parse_groups_of_hex(g: Seq<u16>, allow_v4: bool)
    requires
        g.len() >= 1,
    ensures
        parse_groups(hex_texts(g), allow_v4) == Some(g),
    decreases g.len(),
{
    let parts = hex_texts(g);
    lemma_hex_texts_props(g);
    lemma_hex_texts_wf(g);
    lemma_hex_str_props(g[0] as nat);
    assert(hex_val(parts[0]) == g[0] as nat);
    if g.len() == 1 {
        assert(parse_groups(parts, allow_v4) == Some(seq![hex_val(parts[0]) as u16]));
        assert(seq![hex_val(parts[0]) as u16] =~= g);
    } else {
        lemma_hex_texts_props(g.drop_first());
        assert(parts.drop_first() =~= hex_texts(g.drop_first()));
        lemma_parse_groups_of_hex(g.drop_first(), allow_v4);
        assert(parse_groups(parts, allow_v4) == Some(
            seq![hex_val(parts[0]) as u16] + g.drop_first(),
        ));
        assert(seq![hex_val(parts[0]) as u16] + g.drop_first() =~= g);
    }
}

/// The canonical text of an address is nonempty and made of address
/// characters only; the version-6 form always contains a colon.
pub proof fn lemma_addr_text_chars(a: HostAddr)
    ensures
        addr_text(a).len() >= 1,
        forall|k: int| 0 <= k < addr_text(a).len() ==> is_addr_char(#[trigger] addr_text(a)[k]),
        a is V6 ==> exists|k: int| 0 <= k < addr_text(a).len() && addr_text(a)[k] == ':',
{
    match a {
        HostAddr::V4(x, y, z, w) => {
            let parts = seq![
                dec_str(x as nat),
                dec_str(y as nat),
                dec_str(z as nat),
                dec_str(w as nat),
            ];
            lemma_dec_str_props(x as nat);
            lemma_dec_str_props(y as nat);
            lemma_dec_str_props(z as nat);
            lemma_dec_str_props(w as nat);
            assert forall|i: int, j: int|
                0 <= i < parts.len() && 0 <= j < parts[i].len() implies is_addr_char(
                #[trigger] parts[i][j],
            ) by {
                assert(is_digit(parts[i][j]));
            }
            lemma_join_chars(parts, '.', |c: char| is_addr_char(c));
            assert(addr_text(a) == join(parts, '.'));
            assert(join(parts, '.') == parts[0] + seq!['.'] + join(parts.drop_first(), '.'));
            assert(join(parts, '.').len() >= 1);
        },
        HostAddr::V6(..) => {
            let g = v6_segs(a);
            let b = best_from(g, 0);
            let r = run_at(g, b);
            lemma_hex_texts_wf(g);
            lemma_hex_texts_wf(g.take(b));
            lemma_hex_texts_wf(g.skip(b + r));
            lemma_join_chars(hex_texts(g), ':', |c: char| is_addr_char(c));
            lemma_join_chars(hex_texts(g.take(b)), ':', |c: char| is_addr_char(c));
            lemma_join_chars(hex_texts(g.skip(b + r)), ':', |c: char| is_addr_char(c));
            if r >= 2 {
                let hh = groups_text(g.take(b));
                let tt = groups_text(g.skip(b + r));
                let s = addr_text(a);
                assert(s == hh + seq![':', ':'] + tt);
                assert(s[hh.len() as int] == ':');
                assert forall|k: int| 0 <= k < s.len() implies is_addr_char(#[trigger] s[k]) by {
                    if k < hh.len() {
                        assert(s[k] == hh[k]);
                    } else if k < hh.len() + 2 {
                        assert(s[k] == ':');
                    } else {
                        assert(s[k] == tt[k - hh.len() - 2]);
                    }
                }
            } else {
                let parts = hex_texts(g);
                lemma_hex_texts_props(g);
                assert(parts.len() == 8);
                let s = addr_text(a);
                assert(s == join(parts, ':'));
                assert(join(parts, ':') == parts[0] + seq![':'] + join(parts.drop_first(), ':'));
                assert(s[parts[0].len() as int] == ':');
            }
        },
    }
}

/// Parsing the canonical text of an address yields the address back.
#[verifier::rlimit(50)]
pub proof fn lemma_addr_round_trip(a: HostAddr)
    ensures
        parse_addr(addr_text(a)) == Some(a),
{
    match a {
        HostAddr::V4(x, y, z, w) => {
            let parts = seq![
                dec_str(x as nat),
                dec_str(y as nat),
                dec_str(z as nat),
                dec_str(w as nat),
            ];
            lemma_dec_str_props(x as nat);
            lemma_dec_str_props(y as nat);
            lemma_dec_str_props(z as nat);
            lemma_dec_str_props(w as nat);
            assert forall|i: int, j: int|
                0 <= i < parts.len() && 0 <= j < parts[i].len()
                implies #[trigger] parts[i][j] != '.' by {
                assert(is_digit(parts[i][j]));
            }
            lemma_join_split(parts, '.');
            let s = addr_text(a);
            assert(s == join(parts, '.'));
            assert(split_on(s, '.') == parts);
            assert(is_dec_octet(parts[0]) && is_dec_octet(parts[1]) && is_dec_octet(parts[2])
                && is_dec_octet(parts[3]));
            assert(parse_v4(s) == Some(HostAddr::V4(x, y, z, w)));
        },
        HostAddr::V6(..) => {
            let g = v6_segs(a);
            let s = addr_text(a);
            lemma_addr_text_chars(a);
            assert(parse_v4(s) is None) by {
                if parse_v4(s) is Some {
                    lemma_v4_chars(s);
                    let k = choose|k: int| 0 <= k < s.len() && s[k] == ':';
                    assert(is_digit(s[k]) || s[k] == '.');
                    assert(false);
                }
            }
            let b = best_from(g, 0);
            let r = run_at(g, b);
            lemma_best_from_range(g, 0);
            lemma_run_at_props(g, b);
            lemma_hex_texts_wf(g);
            lemma_hex_texts_props(g);
            if r >= 2 {
                let hh = groups_text(g.take(b));
                let tt = groups_text(g.skip(b + r));
                assert(s == hh + seq![':', ':'] + tt);
                lemma_hex_texts_wf(g.take(b));
                lemma_hex_texts_props(g.take(b));
                lemma_hex_texts_wf(g.skip(b + r));
                lemma_hex_texts_props(g.skip(b + r));
                if b > 0 {
                    lemma_join_no_adjacent(hex_texts(g.take(b)), ':');
                }
                if b + r < 8 {
                    lemma_join_no_adjacent(hex_texts(g.skip(b + r)), ':');
                }
                assert(first_dc(s) == hh.len()) by {
                    assert(s[hh.len() as int] == ':');
                    assert(s[hh.len() as int + 1] == ':');
                    assert forall|j: int|
                        0 <= j < hh.len() && j + 1 < s.len() implies !(#[trigger] s[j] == ':'
                        && s[j + 1] == ':') by {
                        assert(b > 0);
                        if j + 1 < hh.len() {
                            assert(s[j] == hh[j]);
                            assert(s[j + 1] == hh[j + 1]);
                        } else {
                            assert(j + 1 == hh.len());
                            assert(s[j] == hh[j]);
                            assert(hh[j] == hh.last());
                        }
                    }
                    lemma_first_dc_is(s, hh.len() as int);
                }
                assert(s.take(hh.len() as int) =~= hh);
                assert(s.skip(hh.len() as int + 2) =~= tt);
                let hg = if hh.len() == 0 {
                    Some(Seq::<u16>::empty())
                } else {
                    parse_groups(split_on(hh, ':'), false)
                };
                let tg = if tt.len() == 0 {
                    Some(Seq::<u16>::empty())
                } else {
                    parse_groups(split_on(tt, ':'), true)
                };
                assert(hg == Some(g.take(b))) by {
                    if b == 0 {
                        assert(hex_texts(g.take(0)) =~~= Seq::<Seq<char>>::empty());
                        assert(hh.len() == 0);
                        assert(g.take(0) =~= Seq::<u16>::empty());
                    } else {
                        assert(hh.len() > 0);
                        lemma_join_split(hex_texts(g.take(b)), ':');
                        lemma_parse_groups_of_hex(g.take(b), false);
                    }
                }
                assert(tg == Some(g.skip(b + r))) by {
                    if b + r == 8 {
                        assert(hex_texts(g.skip(8)) =~~= Seq::<Seq<char>>::empty());
                        assert(tt.len() == 0);
                        assert(g.skip(8) =~= Seq::<u16>::empty());
                    } else {
                        assert(tt.len() > 0);
                        lemma_join_split(hex_texts(g.skip(b + r)), ':');
                        lemma_parse_groups_of_hex(g.skip(b + r), true);
                    }
                }
                assert(g.take(b).len() + g.skip(b + r).len() == 8 - r);
                assert(g.take(b) + zero_segs(r) + g.skip(b + r) =~= g);
                assert(parse_v6(s) == Some(g));
            } else {
                let parts = hex_texts(g);
                lemma_join_no_adjacent(parts, ':');
                assert(first_dc(s) == s.len()) by {
                    lemma_first_dc_is(s, s.len() as int);
                }
                lemma_join_split(parts, ':');
                assert(split_on(s, ':') == parts);
                lemma_parse_groups_of_hex(g, true);
                assert(parse_v6(s) == Some(g));
            }
            assert(addr_from_segs(g) == a);
        },
    }
}

fn run_len(g: &Vec<u16>, i: usize) -> (r: usize)
    requires
        i <= g@.len(),
    ensures
        r as int == run_at(g@, i as int),
        i + r <= g@.len(),
{
    let mut j = i;
    while j < g.len() && g[j] == 0
        invariant
            i <= j <= g@.len(),
            forall|k: int| i <= k < j ==> g@[k] == 0,
        decreases g@.len() - j,
    {
        j += 1;
    }
    proof {
        lemma_run_at_is(g@, i as int, j as int);
    }
    j - i
}

} // verus!

//! Byte-level primitives shared by every structured file in the coordination
//! store: decimal numbers, hex-encoded byte strings, labelled fields and
//! newline-terminated values, each with an exact parsing specification and
//! the inversion lemmas the round-trip proofs rest on.

use vstd::prelude::*;
use vstd::string::StringSliceAdditionalSpecFns;
use vstd::string::StrSliceExecFns;

verus! {

pub const NL: u8 = 10;

/// The bytes of an ASCII label, as the serializers and parsers see them.
pub open spec fn lit(s: &str) -> Seq<u8> {
    s.spec_bytes()
}

/// Copies a label into executable code; its view is exactly `lit`.
pub fn lit_bytes(s: &str) -> (r: Vec<u8>)
    ensures
        r@ == lit(s),
{
    s.as_bytes_vec()
}

/// Appends `p` to `out`.
pub fn push_all(out: &mut Vec<u8>, p: &Vec<u8>)
    ensures
        final(out)@ == old(out)@ + p@,
{
    let mut i: usize = 0;
    while i < p.len()
        invariant
            i <= p.len(),
            out@ == old(out)@ + p@.take(i as int),
        decreases p.len() - i,
    {
        out.push(p[i]);
        proof {
            assert(old(out)@ + p@.take(i + 1) =~= (old(out)@ + p@.take(i as int)).push(p@[i as int]));
        }
        i = i + 1;
    }
    proof {
        assert(p@.take(p.len() as int) =~= p@);
    }
}

/// Copies a byte vector.
pub fn copy_bytes(p: &Vec<u8>) -> (r: Vec<u8>)
    ensures
        r@ == p@,
{
    let mut r: Vec<u8> = Vec::new();
    push_all(&mut r, p);
    r
}

/// Compares two byte vectors.
pub fn bytes_eq(a: &Vec<u8>, b: &Vec<u8>) -> (r: bool)
    ensures
        r == (a@ == b@),
{
    if a.len() != b.len() {
        return false;
    }
    let mut i: usize = 0;
    while i < a.len()
        invariant
            i <= a.len(),
            a.len() == b.len(),
            forall|j: int| 0 <= j < i ==> a@[j] == b@[j],
        decreases a.len() - i,
    {
        if a[i] != b[i] {
            return false;
        }
        i = i + 1;
    }
    proof {
        assert(a@ =~= b@);
    }
    true
}

/// Consumes an exact byte sequence from the front of the input.
pub open spec fn expect(s: Seq<u8>, l: Seq<u8>) -> Option<Seq<u8>> {
    if s.len() >= l.len() && s.take(l.len() as int) == l {
        Some(s.skip(l.len() as int))
    } else {
        None
    }
}

pub proof fn lemma_expect_concat(l: Seq<u8>, rest: Seq<u8>)
    ensures
        expect(l + rest, l) == Some(rest),
{
    assert((l + rest).take(l.len() as int) =~= l);
    assert((l + rest).skip(l.len() as int) =~= rest);
}

/// Consumes `l` from `s` starting at `pos`; returns the new position.
pub fn expect_at(s: &Vec<u8>, pos: usize, l: &Vec<u8>) -> (r: Option<usize>)
    requires
        pos <= s.len(),
    ensures
        match r {
            Some(p) => {
                &&& pos <= p <= s.len()
                &&& expect(s@.skip(pos as int), l@) == Some(s@.skip(p as int))
            },
            None => expect(s@.skip(pos as int), l@) is None,
        },
{
    if s.len() - pos < l.len() {
        return None;
    }
    let mut i: usize = 0;
    while i < l.len()
        invariant
            i <= l.len(),
            pos + l.len() <= s.len(),
            forall|j: int| 0 <= j < i ==> s@[pos + j] == l@[j],
        decreases l.len() - i,
    {
        if s[pos + i] != l[i] {
            proof {
                assert(s@.skip(pos as int).take(l@.len() as int)[i as int] != l@[i as int]);
            }
            return None;
        }
        i = i + 1;
    }
    proof {
        assert(s@.skip(pos as int).take(l@.len() as int) =~= l@);
        assert(s@.skip(pos as int).skip(l@.len() as int) =~= s@.skip(pos + l.len()));
    }
    Some(pos + l.len())
}

/// Index of the first newline byte, if any.
pub open spec fn find_nl(s: Seq<u8>) -> Option<int>
    decreases s.len(),
{
    if s.len() == 0 {
        None
    } else if s[0] == NL {
        Some(0)
    } else {
        match find_nl(s.drop_first()) {
            None => None,
            Some(i) => Some(i + 1),
        }
    }
}

/// A value free of newline bytes, so it can stand on a line of its own.
pub open spec fn no_nl(s: Seq<u8>) -> bool {
    forall|i: int| 0 <= i < s.len() ==> s[i] != NL
}

/// Splits off the first newline-terminated value.
pub open spec fn take_line(s: Seq<u8>) -> Option<(Seq<u8>, Seq<u8>)> {
    match find_nl(s) {
        None => None,
        Some(i) => Some((s.take(i), s.skip(i + 1))),
    }
}

pub proof fn lemma_find_nl_position(s: Seq<u8>, k: int)
    requires
        0 <= k < s.len(),
        s[k] == NL,
        forall|j: int| 0 <= j < k ==> s[j] != NL,
    ensures
        find_nl(s) == Some(k),
    decreases k,
{
    if k == 0 {
    } else {
        lemma_find_nl_position(s.drop_first(), k - 1);
    }
}

pub proof fn lemma_find_nl_none(s: Seq<u8>)
    requires
        no_nl(s),
    ensures
        find_nl(s) is None,
    decreases s.len(),
{
    if s.len() > 0 {
        lemma_find_nl_none(s.drop_first());
    }
}

/// A newline-free value followed by a newline parses back to itself.
pub proof fn lemma_take_line_concat(v: Seq<u8>, rest: Seq<u8>)
    requires
        no_nl(v),
    ensures
        take_line(v + seq![NL] + rest) == Some((v, rest)),
{
    let s = v + seq![NL] + rest;
    assert(s[v.len() as int] == NL);
    lemma_find_nl_position(s, v.len() as int);
    assert(s.take(v.len() as int) =~= v);
    assert(s.skip(v.len() as int + 1) =~= rest);
}

/// Splits off the first newline-terminated value, starting at `pos`;
/// returns the value and the position just past its newline.
pub fn take_line_at(s: &Vec<u8>, pos: usize) -> (r: Option<(Vec<u8>, usize)>)
    requires
        pos <= s.len(),
    ensures
        match r {
            Some(p) => {
                &&& pos <= p.1 <= s.len()
                &&& take_line(s@.skip(pos as int)) == Some((p.0@, s@.skip(p.1 as int)))
            },
            None => take_line(s@.skip(pos as int)) is None,
        },
{
    let mut i: usize = pos;
    while i < s.len() && s[i] != NL
        invariant
            pos <= i <= s.len(),
            forall|j: int| pos <= j < i ==> s@[j] != NL,
        decreases s.len() - i,
    {
        i = i + 1;
    }
    if i == s.len() {
        proof {
            assert(no_nl(s@.skip(pos as int)));
            lemma_find_nl_none(s@.skip(pos as int));
        }
        return None;
    }
    proof {
        lemma_find_nl_position(s@.skip(pos as int), i - pos);
    }
    let mut v: Vec<u8> = Vec::new();
    let mut j: usize = pos;
    while j < i
        invariant
            pos <= j <= i <= s.len(),
            v@ == s@.subrange(pos as int, j as int),
        decreases i - j,
    {
        v.push(s[j]);
        proof {
            assert(s@.subrange(pos as int, j + 1) =~= s@.subrange(pos as int, j as int).push(s@[j as int]));
        }
        j = j + 1;
    }
    proof {
        assert(s@.skip(pos as int).take(i - pos) =~= s@.subrange(pos as int, i as int));
        assert(s@.skip(pos as int).skip(i - pos + 1) =~= s@.skip(i + 1));
    }
    Some((v, i + 1))
}

/// A fixed-width field.
pub open spec fn take_fixed(s: Seq<u8>, n: int) -> Option<(Seq<u8>, Seq<u8>)> {
    if s.len() >= n {
        Some((s.take(n), s.skip(n)))
    } else {
        None
    }
}

pub proof fn lemma_take_fixed_concat(v: Seq<u8>, rest: Seq<u8>)
    ensures
        take_fixed(v + rest, v.len() as int) == Some((v, rest)),
{
    assert((v + rest).take(v.len() as int) =~= v);
    assert((v + rest).skip(v.len() as int) =~= rest);
}

/// A fixed-width field starting at `pos`.
pub fn take_fixed_at(s: &Vec<u8>, pos: usize, n: usize) -> (r: Option<(Vec<u8>, usize)>)
    requires
        pos <= s.len(),
    ensures
        match r {
            Some(p) => {
                &&& pos <= p.1 <= s.len()
                &&& take_fixed(s@.skip(pos as int), n as int) == Some((p.0@, s@.skip(p.1 as int)))
            },
            None => take_fixed(s@.skip(pos as int), n as int) is None,
        },
{
    if s.len() - pos < n {
        return None;
    }
    let mut v: Vec<u8> = Vec::new();
    let mut j: usize = pos;
    while j < pos + n
        invariant
            pos <= j <= pos + n <= s.len(),
            v@ == s@.subrange(pos as int, j as int),
        decreases pos + n - j,
    {
        v.push(s[j]);
        proof {
            assert(s@.subrange(pos as int, j + 1) =~= s@.subrange(pos as int, j as int).push(s@[j as int]));
        }
        j = j + 1;
    }
    proof {
        assert(s@.skip(pos as int).take(n as int) =~= s@.subrange(pos as int, pos + n));
        assert(s@.skip(pos as int).skip(n as int) =~= s@.skip(pos + n));
    }
    Some((v, pos + n))
}

pub open spec fn is_digit(b: u8) -> bool {
    48 <= b <= 57
}

/// The shortest decimal form of `n`, most significant digit first.
pub open spec fn dec_digits(n: nat) -> Seq<u8>
    decreases n,
{
    if n < 10 {
        seq![(48 + n) as u8]
    } else {
        dec_digits(n / 10).push((48 + n % 10) as u8)
    }
}

pub proof fn lemma_dec_digits_are_digits(n: nat)
    ensures
        dec_digits(n).len() >= 1,
        forall|i: int| 0 <= i < dec_digits(n).len() ==> is_digit(#[trigger] dec_digits(n)[i]),
    decreases n,
{
    if n >= 10 {
        lemma_dec_digits_are_digits(n / 10);
    }
}

/// The length of the leading run of decimal digits.
pub open spec fn digit_run(s: Seq<u8>) -> int
    decreases s.len(),
{
    if s.len() == 0 || !is_digit(s[0]) {
        0
    } else {
        1 + digit_run(s.drop_first())
    }
}

pub proof fn lemma_digit_run_concat(v: Seq<u8>, rest: Seq<u8>)
    requires
        forall|i: int| 0 <= i < v.len() ==> is_digit(#[trigger] v[i]),
        rest.len() == 0 || !is_digit(rest[0]),
    ensures
        digit_run(v + rest) == v.len(),
    decreases v.len(),
{
    if v.len() == 0 {
        assert(v + rest =~= rest);
    } else {
        assert((v + rest).drop_first() =~= v.drop_first() + rest);
        lemma_digit_run_concat(v.drop_first(), rest);
    }
}

/// The value of an all-digit run, if it fits a `u64`.
pub open spec fn dec_val(s: Seq<u8>) -> Option<u64>
    decreases s.len(),
{
    if s.len() == 0 {
        None
    } else if s.len() == 1 {
        if is_digit(s[0]) {
            Some((s[0] - 48) as u64)
        } else {
            None
        }
    } else {
        match dec_val(s.drop_last()) {
            None => None,
            Some(v) => {
                if is_digit(s.last()) && v * 10 + (s.last() - 48) <= u64::MAX {
                    Some((v * 10 + (s.last() - 48)) as u64)
                } else {
                    None
                }
            },
        }
    }
}

pub proof fn lemma_dec_val_of_digits(n: u64)
    ensures
        dec_val(dec_digits(n as nat)) == Some(n),
    decreases n,
{
    if n < 10 {
    } else {
        lemma_dec_val_of_digits(n / 10);
        lemma_dec_digits_are_digits((n / 10) as nat);
        let s = dec_digits(n as nat);
        assert(s.drop_last() =~= dec_digits((n / 10) as nat));
        assert((n / 10) * 10 + n % 10 == n) by {
            vstd::arithmetic::div_mod::lemma_fundamental_div_mod(n as int, 10);
        }
    }
}

/// If some nonempty digit prefix already overflows, the whole run does.
pub proof fn lemma_dec_val_none_grows(s: Seq<u8>, j: int)
    requires
        1 <= j <= s.len(),
        dec_val(s.take(j)) is None,
    ensures
        dec_val(s) is None,
    decreases s.len() - j,
{
    if j == s.len() {
        assert(s.take(j) =~= s);
    } else {
        assert(s.take(j + 1).drop_last() =~= s.take(j));
        lemma_dec_val_none_grows(s, j + 1);
    }
}

pub proof fn lemma_digit_run_at_least(s: Seq<u8>, k: int)
    requires
        0 <= k <= s.len(),
        forall|j: int| 0 <= j < k ==> is_digit(#[trigger] s[j]),
    ensures
        digit_run(s) >= k,
    decreases k,
{
    if k > 0 {
        assert(is_digit(s[0]));
        assert forall|j: int| 0 <= j < k - 1 implies is_digit(#[trigger] s.drop_first()[j]) by {
            assert(s.drop_first()[j] == s[j + 1]);
        }
        lemma_digit_run_at_least(s.drop_first(), k - 1);
        assert(digit_run(s) == 1 + digit_run(s.drop_first()));
    } else {
        lemma_digit_run_bounds(s);
    }
}

/// Overflow on a digit prefix dooms the whole number.
proof fn lemma_overflow_parse_none(t: Seq<u8>, k: int)
    requires
        1 <= k <= t.len(),
        forall|j: int| 0 <= j < k ==> is_digit(#[trigger] t[j]),
        dec_val(t.take(k)) is None,
    ensures
        parse_dec(t) is None,
{
    lemma_digit_run_bounds(t);
    lemma_digit_run_at_least(t, k);
    assert(t.take(digit_run(t)).take(k) =~= t.take(k));
    lemma_dec_val_none_grows(t.take(digit_run(t)), k);
}

/// Parses the leading decimal number; fails on no digits or overflow.
pub open spec fn parse_dec(s: Seq<u8>) -> Option<(u64, Seq<u8>)> {
    let k = digit_run(s);
    if k == 0 {
        None
    } else {
        match dec_val(s.take(k)) {
            None => None,
            Some(v) => Some((v, s.skip(k))),
        }
    }
}

/// A serialized number followed by a non-digit parses back to itself.
pub proof fn lemma_parse_dec_concat(n: u64, rest: Seq<u8>)
    requires
        rest.len() == 0 || !is_digit(rest[0]),
    ensures
        parse_dec(dec_digits(n as nat) + rest) == Some((n, rest)),
{
    let d = dec_digits(n as nat);
    lemma_dec_digits_are_digits(n as nat);
    lemma_digit_run_concat(d, rest);
    let s = d + rest;
    assert(s.take(d.len() as int) =~= d);
    assert(s.skip(d.len() as int) =~= rest);
    lemma_dec_val_of_digits(n);
}

/// Renders `n` in decimal.
pub fn u64_to_dec(n: u64) -> (r: Vec<u8>)
    ensures
        r@ == dec_digits(n as nat),
    decreases n,
{
    if n < 10 {
        let mut v: Vec<u8> = Vec::new();
        v.push(48 + n as u8);
        v
    } else {
        let mut v = u64_to_dec(n / 10);
        v.push(48 + (n % 10) as u8);
        v
    }
}

/// Parses the decimal number starting at `pos`.
pub fn parse_dec_at(s: &Vec<u8>, pos: usize) -> (r: Option<(u64, usize)>)
    requires
        pos <= s.len(),
    ensures
        match r {
            Some(p) => {
                &&& pos <= p.1 <= s.len()
                &&& parse_dec(s@.skip(pos as int)) == Some((p.0, s@.skip(p.1 as int)))
            },
            None => parse_dec(s@.skip(pos as int)) is None,
        },
{
    let ghost t = s@.skip(pos as int);
    if pos == s.len() || !(48 <= s[pos] && s[pos] <= 57) {
        return None;
    }
    let mut i: usize = pos;
    let mut acc: u64 = 0;
    let mut first = true;
    while i < s.len() && 48 <= s[i] && s[i] <= 57
        invariant
            pos <= i <= s.len(),
            t == s@.skip(pos as int),
            pos < s.len() && is_digit(s@[pos as int]),
            forall|j: int| pos <= j < i ==> is_digit(#[trigger] s@[j]),
            first <==> i == pos,
            !first ==> dec_val(t.take(i - pos)) == Some(acc),
        decreases s.len() - i,
    {
        let d = s[i] - 48;
        proof {
            assert(t.take(i - pos + 1).drop_last() =~= t.take(i - pos));
            assert(t.take(i - pos + 1).last() == s@[i as int]);
        }
        if first {
            acc = d as u64;
            first = false;
            proof {
                assert(t.take(1).len() == 1);
            }
        } else {
            let m = match acc.checked_mul(10) {
                Some(m) => m,
                None => {
                    proof {
                        assert(dec_val(t.take(i - pos + 1)) is None);
                        lemma_overflow_parse_none(t, i - pos + 1);
                    }
                    return None;
                },
            };
            acc = match m.checked_add(d as u64) {
                Some(a) => a,
                None => {
                    proof {
                        assert(dec_val(t.take(i - pos + 1)) is None);
                        lemma_overflow_parse_none(t, i - pos + 1);
                    }
                    return None;
                },
            };
        }
        i = i + 1;
    }
    proof {
        lemma_digit_run_exact(t, i - pos);
        assert(t.skip(i - pos) =~= s@.skip(i as int));
    }
    Some((acc, i))
}

pub proof fn lemma_digit_run_bounds(s: Seq<u8>)
    ensures
        0 <= digit_run(s) <= s.len(),
    decreases s.len(),
{
    if s.len() > 0 && is_digit(s[0]) {
        lemma_digit_run_bounds(s.drop_first());
    }
}

/// The digit run ends exactly where the digits end.
pub proof fn lemma_digit_run_exact(s: Seq<u8>, k: int)
    requires
        0 <= k <= s.len(),
        forall|j: int| 0 <= j < k ==> is_digit(#[trigger] s[j]),
        k == s.len() || !is_digit(s[k]),
    ensures
        digit_run(s) == k,
    decreases k,
{
    if k == 0 {
    } else {
        lemma_digit_run_exact(s.drop_first(), k - 1);
    }
}

pub open spec fn is_hex_digit(b: u8) -> bool {
    is_digit(b) || (97 <= b <= 102)
}

pub open spec fn hex_char(n: u8) -> u8 {
    if n < 10 {
        (48 + n) as u8
    } else {
        (87 + n) as u8
    }
}

pub open spec fn hex_val(b: u8) -> u8 {
    if b <= 57 {
        (b - 48) as u8
    } else {
        (b - 87) as u8
    }
}

/// Lower-case hex encoding, two characters per byte.
pub open spec fn hex_of(bs: Seq<u8>) -> Seq<u8>
    decreases bs.len(),
{
    if bs.len() == 0 {
        Seq::empty()
    } else {
        hex_of(bs.drop_last()) + seq![hex_char(bs.last() / 16), hex_char(bs.last() % 16)]
    }
}

pub proof fn lemma_hex_of_chars(bs: Seq<u8>)
    ensures
        hex_of(bs).len() == 2 * bs.len(),
        forall|i: int| 0 <= i < hex_of(bs).len() ==> is_hex_digit(#[trigger] hex_of(bs)[i]),
    decreases bs.len(),
{
    if bs.len() > 0 {
        lemma_hex_of_chars(bs.drop_last());
    }
}

/// Decodes a full hex string of even length.
pub open spec fn hex_parse(s: Seq<u8>) -> Option<Seq<u8>>
    decreases s.len(),
{
    if s.len() % 2 == 1 {
        None
    } else if s.len() == 0 {
        Some(Seq::empty())
    } else {
        let hi = s[s.len() - 2];
        let lo = s[s.len() - 1];
        if is_hex_digit(hi) && is_hex_digit(lo) {
            match hex_parse(s.take(s.len() - 2)) {
                None => None,
                Some(p) => Some(p.push((hex_val(hi) * 16 + hex_val(lo)) as u8)),
            }
        } else {
            None
        }
    }
}

pub proof fn lemma_hex_round_trip(bs: Seq<u8>)
    ensures
        hex_parse(hex_of(bs)) == Some(bs),
    decreases bs.len(),
{
    lemma_hex_of_chars(bs);
    if bs.len() == 0 {
        assert(hex_parse(hex_of(bs)) == Some(Seq::<u8>::empty()));
        assert(bs =~= Seq::<u8>::empty());
    } else {
        lemma_hex_round_trip(bs.drop_last());
        lemma_hex_of_chars(bs.drop_last());
        let s = hex_of(bs);
        assert(s.take(s.len() - 2) =~= hex_of(bs.drop_last()));
        let b = bs.last();
        assert(hex_val(hex_char(b / 16)) == b / 16);
        assert(hex_val(hex_char(b % 16)) == b % 16);
        assert((b / 16) * 16 + b % 16 == b) by {
            vstd::arithmetic::div_mod::lemma_fundamental_div_mod(b as int, 16);
        }
        assert(bs.drop_last().push(b) =~= bs);
    }
}

/// Renders bytes in lower-case hex.
pub fn to_hex(bs: &Vec<u8>) -> (r: Vec<u8>)
    ensures
        r@ == hex_of(bs@),
{
    let mut r: Vec<u8> = Vec::new();
    let mut i: usize = 0;
    while i < bs.len()
        invariant
            i <= bs.len(),
            r@ == hex_of(bs@.take(i as int)),
        decreases bs.len() - i,
    {
        let b = bs[i];
        let hi = b / 16;
        let lo = b % 16;
        r.push(if hi < 10 { 48 + hi } else { 87 + hi });
        r.push(if lo < 10 { 48 + lo } else { 87 + lo });
        proof {
            assert(bs@.take(i + 1).drop_last() =~= bs@.take(i as int));
            assert(bs@.take(i + 1).last() == bs@[i as int]);
        }
        i = i + 1;
    }
    proof {
        assert(bs@.take(bs.len() as int) =~= bs@);
    }
    r
}

/// A malformed pair anywhere makes the whole hex string invalid.
pub proof fn lemma_hex_parse_bad_pair(s: Seq<u8>, i: int)
    requires
        s.len() % 2 == 0,
        0 <= i,
        2 * i + 1 < s.len(),
        !is_hex_digit(s[2 * i]) || !is_hex_digit(s[2 * i + 1]),
    ensures
        hex_parse(s) is None,
    decreases s.len(),
{
    if 2 * i + 2 < s.len() {
        assert(s.take(s.len() - 2)[2 * i] == s[2 * i]);
        assert(s.take(s.len() - 2)[2 * i + 1] == s[2 * i + 1]);
        lemma_hex_parse_bad_pair(s.take(s.len() - 2), i);
    }
}

/// Decodes a hex string.
pub fn from_hex(s: &Vec<u8>) -> (r: Option<Vec<u8>>)
    ensures
        match r {
            Some(v) => hex_parse(s@) == Some(v@),
            None => hex_parse(s@) is None,
        },
{
    if s.len() % 2 == 1 {
        return None;
    }
    let mut out: Vec<u8> = Vec::new();
    let mut i: usize = 0;
    while 2 * i < s.len()
        invariant
            s.len() % 2 == 0,
            0 <= 2 * i <= s.len(),
            hex_parse(s@.take(2 * i)) == Some(out@),
        decreases s.len() - 2 * i,
    {
        let hi = s[2 * i];
        let lo = s[2 * i + 1];
        let hv = if 48 <= hi && hi <= 57 {
            hi - 48
        } else if 97 <= hi && hi <= 102 {
            hi - 87
        } else {
            proof {
                lemma_hex_parse_bad_pair(s@, i as int);
            }
            return None;
        };
        let lv = if 48 <= lo && lo <= 57 {
            lo - 48
        } else if 97 <= lo && lo <= 102 {
            lo - 87
        } else {
            proof {
                lemma_hex_parse_bad_pair(s@, i as int);
            }
            return None;
        };
        out.push(hv * 16 + lv);
        proof {
            assert(s@.take(2 * i + 2).take(2 * i as int) =~= s@.take(2 * i as int));
            assert(s@.take(2 * i + 2)[2 * i + 2 - 2] == s@[2 * i as int]);
            assert(s@.take(2 * i + 2)[2 * i + 2 - 1] == s@[2 * i + 1]);
        }
        i = i + 1;
    }
    proof {
        assert(s@.take(s.len() as int) =~= s@);
    }
    Some(out)
}

} // verus!

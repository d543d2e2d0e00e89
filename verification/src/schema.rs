//! The structured files exchanged through the coordination store: the
//! layout manifest, per-participant identity bundles, the account balances
//! file and the vesting file. Every schema has an exact byte-level
//! serialization specification, a parser that is its inverse, and the
//! round-trip lemma tying the two together.

use vstd::prelude::*;

use crate::codec::{
    dec_digits, expect, expect_at, hex_of, hex_parse, is_digit, lit, lit_bytes, no_nl, parse_dec,
    parse_dec_at, push_all, take_fixed, take_fixed_at, take_line, take_line_at, u64_to_dec, NL,
};
use crate::codec::{
    bytes_eq, copy_bytes, from_hex, lemma_expect_concat, lemma_hex_of_chars, lemma_hex_round_trip,
    lemma_parse_dec_concat, lemma_take_line_concat, to_hex,
};
use crate::errors::GenesisError;

verus! {

/// A participant name or file reference: usable as a path component and as
/// a one-line field value.
pub open spec fn valid_name(s: Seq<u8>) -> bool {
    &&& s.len() >= 1
    &&& forall|i: int| 0 <= i < s.len() ==> {
        let b = #[trigger] s[i];
        (48 <= b <= 57) || (97 <= b <= 122) || (65 <= b <= 90) || b == 45 || b == 95 || b == 46
    }
}

/// Checks `valid_name` on a byte vector.
pub fn check_name(s: &Vec<u8>) -> (r: bool)
    ensures
        r == valid_name(s@),
{
    if s.len() == 0 {
        return false;
    }
    let mut i: usize = 0;
    while i < s.len()
        invariant
            i <= s.len(),
            s@.len() >= 1,
            forall|j: int| 0 <= j < i ==> {
                let b = #[trigger] s@[j];
                (48 <= b <= 57) || (97 <= b <= 122) || (65 <= b <= 90) || b == 45 || b == 95 || b == 46
            },
        decreases s.len() - i,
    {
        let b = s[i];
        if !((48 <= b && b <= 57) || (97 <= b && b <= 122) || (65 <= b && b <= 90) || b == 45
            || b == 95 || b == 46) {
            return false;
        }
        i = i + 1;
    }
    true
}

pub proof fn lemma_valid_name_no_nl(s: Seq<u8>)
    requires
        valid_name(s),
    ensures
        no_nl(s),
{
}

/// The views of a sequence of byte vectors.
pub open spec fn views(s: Seq<Vec<u8>>) -> Seq<Seq<u8>> {
    Seq::new(s.len(), |i: int| s[i]@)
}

pub open spec fn opt_view(o: Option<Vec<u8>>) -> Option<Seq<u8>> {
    match o {
        None => None,
        Some(v) => Some(v@),
    }
}

/// The mathematical content of a layout manifest.
pub ghost struct LayoutModel {
    pub root_key: Option<Seq<u8>>,
    pub chain_id: u8,
    pub users: Seq<Seq<u8>>,
    pub is_test: bool,
    pub balances_ref: Option<Seq<u8>>,
    pub vesting_ref: Option<Seq<u8>>,
}

/// The network's bootstrap manifest.
#[derive(Debug, PartialEq, Eq)]
pub struct LayoutDescriptor {
    pub root_key: Option<Vec<u8>>,
    pub chain_id: u8,
    pub users: Vec<Vec<u8>>,
    pub is_test: bool,
    pub balances_ref: Option<Vec<u8>>,
    pub vesting_ref: Option<Vec<u8>>,
}

impl View for LayoutDescriptor {
    type V = LayoutModel;

    open spec fn view(&self) -> LayoutModel {
        LayoutModel {
            root_key: opt_view(self.root_key),
            chain_id: self.chain_id,
            users: views(self.users@),
            is_test: self.is_test,
            balances_ref: opt_view(self.balances_ref),
            vesting_ref: opt_view(self.vesting_ref),
        }
    }
}

/// A layout that serializes to a loadable file.
pub open spec fn layout_wf(m: LayoutModel) -> bool {
    &&& m.users.len() <= u64::MAX
    &&& (match m.root_key {
        Some(k) => k.len() == 32,
        None => true,
    })
    &&& forall|i: int| 0 <= i < m.users.len() ==> valid_name(#[trigger] m.users[i])
    &&& (match m.balances_ref {
        Some(r) => valid_name(r),
        None => true,
    })
    &&& (match m.vesting_ref {
        Some(r) => valid_name(r),
        None => true,
    })
}

pub open spec fn opt_field(o: Option<Seq<u8>>) -> Seq<u8> {
    match o {
        None => Seq::empty(),
        Some(v) => v,
    }
}

pub open spec fn key_field(o: Option<Seq<u8>>) -> Seq<u8> {
    match o {
        None => Seq::empty(),
        Some(k) => hex_of(k),
    }
}

/// A line holding a label and a decimal number.
pub open spec fn dec_line(label: Seq<u8>, n: nat) -> Seq<u8> {
    label + dec_digits(n) + seq![NL]
}

pub open spec fn parse_dec_line(s: Seq<u8>, label: Seq<u8>) -> Option<(u64, Seq<u8>)> {
    match expect(s, label) {
        None => None,
        Some(s1) => match parse_dec(s1) {
            None => None,
            Some((v, s2)) => match expect(s2, seq![NL]) {
                None => None,
                Some(s3) => Some((v, s3)),
            },
        },
    }
}

pub proof fn lemma_dec_line(label: Seq<u8>, n: u64, rest: Seq<u8>)
    ensures
        parse_dec_line(dec_line(label, n as nat) + rest, label) == Some((n, rest)),
{
    let inner = dec_digits(n as nat) + (seq![NL] + rest);
    assert(dec_line(label, n as nat) + rest =~= label + inner);
    lemma_expect_concat(label, inner);
    assert((seq![NL] + rest)[0] == NL);
    lemma_parse_dec_concat(n, seq![NL] + rest);
    lemma_expect_concat(seq![NL], rest);
}

/// A line holding a label and a newline-free value.
pub open spec fn val_line(label: Seq<u8>, v: Seq<u8>) -> Seq<u8> {
    label + v + seq![NL]
}

pub open spec fn parse_val_line(s: Seq<u8>, label: Seq<u8>) -> Option<(Seq<u8>, Seq<u8>)> {
    match expect(s, label) {
        None => None,
        Some(s1) => take_line(s1),
    }
}

pub proof fn lemma_val_line(label: Seq<u8>, v: Seq<u8>, rest: Seq<u8>)
    requires
        no_nl(v),
    ensures
        parse_val_line(val_line(label, v) + rest, label) == Some((v, rest)),
{
    assert(val_line(label, v) + rest =~= label + (v + seq![NL] + rest));
    lemma_expect_concat(label, v + seq![NL] + rest);
    lemma_take_line_concat(v, rest);
}

/// Parses `n` dashed item lines.
pub open spec fn parse_items(s: Seq<u8>, n: nat) -> Option<(Seq<Seq<u8>>, Seq<u8>)>
    decreases n,
{
    if n == 0 {
        Some((Seq::empty(), s))
    } else {
        match parse_val_line(s, lit("- ")) {
            None => None,
            Some((name, s2)) => match parse_items(s2, (n - 1) as nat) {
                None => None,
                Some((rest, s3)) => Some((seq![name] + rest, s3)),
            },
        }
    }
}

/// One `- value` line per item.
pub open spec fn item_lines(users: Seq<Seq<u8>>) -> Seq<u8>
    decreases users.len(),
{
    if users.len() == 0 {
        Seq::empty()
    } else {
        val_line(lit("- "), users[0]) + item_lines(users.drop_first())
    }
}

/// Serializing then parsing dashed item lines recovers them.
pub proof fn lemma_items_round_trip(users: Seq<Seq<u8>>, rest: Seq<u8>)
    requires
        forall|i: int| 0 <= i < users.len() ==> no_nl(#[trigger] users[i]),
    ensures
        parse_items(item_lines(users) + rest, users.len()) == Some((users, rest)),
    decreases users.len(),
{
    if users.len() == 0 {
        assert(item_lines(users) + rest =~= rest);
        assert(users =~= Seq::<Seq<u8>>::empty());
    } else {
        let u0 = users[0];
        let tail = users.drop_first();
        assert(item_lines(users) + rest =~= val_line(lit("- "), u0) + (item_lines(tail) + rest));
        lemma_val_line(lit("- "), u0, item_lines(tail) + rest);
        assert(forall|i: int| 0 <= i < tail.len() ==> no_nl(#[trigger] tail[i]));
        lemma_items_round_trip(tail, rest);
        assert(seq![u0] + tail =~= users);
    }
}

/// Parses an optional hex-encoded 32-byte key field value.
pub open spec fn parse_key_field(v: Seq<u8>) -> Option<Option<Seq<u8>>> {
    if v.len() == 0 {
        Some(None)
    } else {
        match hex_parse(v) {
            None => None,
            Some(k) => if k.len() == 32 {
                Some(Some(k))
            } else {
                None
            },
        }
    }
}

pub proof fn lemma_key_field_round_trip(o: Option<Seq<u8>>)
    requires
        match o {
            Some(k) => k.len() == 32,
            None => true,
        },
    ensures
        no_nl(key_field(o)),
        parse_key_field(key_field(o)) == Some(o),
{
    match o {
        Some(k) => {
            lemma_hex_of_chars(k);
            lemma_hex_round_trip(k);
        },
        None => {},
    }
}

/// The serialized form of a layout manifest.
pub open spec fn layout_bytes(m: LayoutModel) -> Seq<u8> {
    dec_line(lit("chain_id: "), m.chain_id as nat) + dec_line(
        lit("is_test: "),
        if m.is_test {
            1
        } else {
            0
        },
    ) + val_line(lit("root_key: "), key_field(m.root_key)) + dec_line(
        lit("users: "),
        m.users.len(),
    ) + item_lines(m.users) + val_line(lit("balances: "), opt_field(m.balances_ref)) + val_line(
        lit("vesting: "),
        opt_field(m.vesting_ref),
    )
}

/// Parses a whole layout file; the input must be consumed exactly.
pub open spec fn parse_layout(s: Seq<u8>) -> Option<LayoutModel> {
    match parse_dec_line(s, lit("chain_id: ")) {
        None => None,
        Some((chain, s)) => if chain > 255 {
            None
        } else {
            match parse_dec_line(s, lit("is_test: ")) {
                None => None,
                Some((t, s)) => if t > 1 {
                    None
                } else {
                    match parse_val_line(s, lit("root_key: ")) {
                        None => None,
                        Some((kv, s)) => match parse_key_field(kv) {
                            None => None,
                            Some(key) => match parse_dec_line(s, lit("users: ")) {
                                None => None,
                                Some((n, s)) => match parse_items(s, n as nat) {
                                    None => None,
                                    Some((users, s)) => match parse_val_line(s, lit("balances: ")) {
                                        None => None,
                                        Some((bv, s)) => match parse_val_line(s, lit("vesting: ")) {
                                            None => None,
                                            Some((vv, s)) => if s.len() == 0 {
                                                Some(
                                                    LayoutModel {
                                                        root_key: key,
                                                        chain_id: chain as u8,
                                                        users: users,
                                                        is_test: t == 1,
                                                        balances_ref: if bv.len() == 0 {
                                                            None
                                                        } else {
                                                            Some(bv)
                                                        },
                                                        vesting_ref: if vv.len() == 0 {
                                                            None
                                                        } else {
                                                            Some(vv)
                                                        },
                                                    },
                                                )
                                            } else {
                                                None
                                            },
                                        },
                                    },
                                },
                            },
                        },
                    }
                },
            }
        },
    }
}

/// Loading a serialized layout yields the layout again.
#[verifier::rlimit(100)]
pub proof fn lemma_layout_round_trip(m: LayoutModel)
    requires
        layout_wf(m),
    ensures
        parse_layout(layout_bytes(m)) == Some(m),
{
    let tb: nat = if m.is_test {
        1
    } else {
        0
    };
    let c1 = dec_line(lit("chain_id: "), m.chain_id as nat);
    let c2 = dec_line(lit("is_test: "), tb);
    let c3 = val_line(lit("root_key: "), key_field(m.root_key));
    let c4 = dec_line(lit("users: "), m.users.len());
    let c5 = item_lines(m.users);
    let c6 = val_line(lit("balances: "), opt_field(m.balances_ref));
    let c7 = val_line(lit("vesting: "), opt_field(m.vesting_ref));
    let s1 = c2 + (c3 + (c4 + (c5 + (c6 + c7))));
    assert(layout_bytes(m) =~= c1 + s1);
    lemma_dec_line(lit("chain_id: "), m.chain_id as u64, s1);
    let s2 = c3 + (c4 + (c5 + (c6 + c7)));
    assert(s1 =~= c2 + s2);
    lemma_dec_line(lit("is_test: "), tb as u64, s2);
    let s3 = c4 + (c5 + (c6 + c7));
    assert(s2 =~= c3 + s3);
    lemma_key_field_round_trip(m.root_key);
    lemma_val_line(lit("root_key: "), key_field(m.root_key), s3);
    let s4 = c5 + (c6 + c7);
    assert(s3 =~= c4 + s4);
    lemma_dec_line(lit("users: "), m.users.len() as u64, s4);
    let s5 = c6 + c7;
    assert(s4 =~= c5 + s5);
    assert forall|i: int| 0 <= i < m.users.len() implies no_nl(#[trigger] m.users[i]) by {
        lemma_valid_name_no_nl(m.users[i]);
    }
    lemma_items_round_trip(m.users, s5);
    let s6 = c7;
    assert(s5 =~= c6 + s6);
    assert(no_nl(opt_field(m.balances_ref))) by {
        match m.balances_ref {
            Some(r) => lemma_valid_name_no_nl(r),
            None => {},
        }
    }
    lemma_val_line(lit("balances: "), opt_field(m.balances_ref), s6);
    assert(s6 =~= c7 + Seq::<u8>::empty());
    assert(no_nl(opt_field(m.vesting_ref))) by {
        match m.vesting_ref {
            Some(r) => lemma_valid_name_no_nl(r),
            None => {},
        }
    }
    lemma_val_line(lit("vesting: "), opt_field(m.vesting_ref), Seq::<u8>::empty());
    assert(match m.balances_ref {
        Some(r) => r.len() != 0,
        None => true,
    });
    assert(match m.vesting_ref {
        Some(r) => r.len() != 0,
        None => true,
    });
    let got = parse_layout(layout_bytes(m));
    assert(got is Some);
    let g = got->Some_0;
    assert(g.root_key == m.root_key);
    assert(g.chain_id == m.chain_id);
    assert(g.users == m.users);
    assert(g.is_test == m.is_test);
    assert(g.balances_ref == m.balances_ref);
    assert(g.vesting_ref == m.vesting_ref);
}

/// Renders `label` followed by a decimal number and newline.
pub fn push_dec_line_pub(out: &mut Vec<u8>, label: &str, n: u64)
    ensures
        final(out)@ == old(out)@ + dec_line(lit(label), n as nat),
{
    push_dec_line(out, label, n)
}

/// Renders `label` followed by a one-line value and newline.
pub fn push_val_line_pub(out: &mut Vec<u8>, label: &str, v: &Vec<u8>)
    ensures
        final(out)@ == old(out)@ + val_line(lit(label), v@),
{
    push_val_line(out, label, v)
}

/// Renders `label` followed by a decimal number and newline.
fn push_dec_line(out: &mut Vec<u8>, label: &str, n: u64)
    ensures
        final(out)@ == old(out)@ + dec_line(lit(label), n as nat),
{
    let lv = lit_bytes(label);
    push_all(out, &lv);
    let d = u64_to_dec(n);
    push_all(out, &d);
    out.push(NL);
    proof {
        assert(old(out)@ + dec_line(lit(label), n as nat) =~= ((old(out)@ + lit(label))
            + dec_digits(n as nat)).push(NL));
    }
}

/// Renders `label` followed by a one-line value and newline.
fn push_val_line(out: &mut Vec<u8>, label: &str, v: &Vec<u8>)
    ensures
        final(out)@ == old(out)@ + val_line(lit(label), v@),
{
    let lv = lit_bytes(label);
    push_all(out, &lv);
    push_all(out, v);
    out.push(NL);
    proof {
        assert(old(out)@ + val_line(lit(label), v@) =~= ((old(out)@ + lit(label)) + v@).push(NL));
    }
}

/// Renders dashed item lines from `idx` on.
fn push_items(out: &mut Vec<u8>, users: &Vec<Vec<u8>>, idx: usize)
    requires
        idx <= users.len(),
    ensures
        final(out)@ == old(out)@ + item_lines(views(users@).skip(idx as int)),
    decreases users.len() - idx,
{
    if idx == users.len() {
        proof {
            assert(views(users@).skip(idx as int) =~= Seq::<Seq<u8>>::empty());
            assert(old(out)@ + Seq::<u8>::empty() =~= old(out)@);
            assert(item_lines(Seq::<Seq<u8>>::empty()) == Seq::<u8>::empty());
        }
    } else {
        push_val_line(out, "- ", &users[idx]);
        push_items(out, users, idx + 1);
        proof {
            let vs = views(users@).skip(idx as int);
            assert(vs[0] == users@[idx as int]@);
            assert(vs.drop_first() =~= views(users@).skip(idx as int + 1));
            assert(old(out)@ + item_lines(vs) =~= (old(out)@ + val_line(lit("- "), users@[idx as int]@))
                + item_lines(views(users@).skip(idx as int + 1)));
        }
    }
}

/// Builds a single-byte newline vector.
fn nl_vec() -> (r: Vec<u8>)
    ensures
        r@ == seq![NL],
{
    let mut v: Vec<u8> = Vec::new();
    v.push(NL);
    proof {
        assert(v@ =~= seq![NL]);
    }
    v
}

/// Consumes a `label<number>` line starting at `pos`.
fn parse_dec_line_at(s: &Vec<u8>, pos: usize, label: &str) -> (r: Option<(u64, usize)>)
    requires
        pos <= s.len(),
    ensures
        match r {
            Some(p) => {
                &&& pos <= p.1 <= s.len()
                &&& parse_dec_line(s@.skip(pos as int), lit(label)) == Some((p.0, s@.skip(p.1 as int)))
            },
            None => parse_dec_line(s@.skip(pos as int), lit(label)) is None,
        },
{
    let lv = lit_bytes(label);
    match expect_at(s, pos, &lv) {
        None => None,
        Some(p1) => match parse_dec_at(s, p1) {
            None => None,
            Some((v, p2)) => {
                let nv = nl_vec();
                match expect_at(s, p2, &nv) {
                    None => None,
                    Some(p3) => Some((v, p3)),
                }
            },
        },
    }
}

/// Consumes a `label<value>` line starting at `pos`.
fn parse_val_line_at(s: &Vec<u8>, pos: usize, label: &str) -> (r: Option<(Vec<u8>, usize)>)
    requires
        pos <= s.len(),
    ensures
        match r {
            Some(p) => {
                &&& pos <= p.1 <= s.len()
                &&& parse_val_line(s@.skip(pos as int), lit(label)) == Some((p.0@, s@.skip(p.1 as int)))
            },
            None => parse_val_line(s@.skip(pos as int), lit(label)) is None,
        },
{
    let lv = lit_bytes(label);
    match expect_at(s, pos, &lv) {
        None => None,
        Some(p1) => take_line_at(s, p1),
    }
}

/// Consumes `n` dashed item lines starting at `pos`.
fn parse_items_at(s: &Vec<u8>, pos: usize, n: u64) -> (r: Option<(Vec<Vec<u8>>, usize)>)
    requires
        pos <= s.len(),
    ensures
        match r {
            Some(p) => {
                &&& pos <= p.1 <= s.len()
                &&& parse_items(s@.skip(pos as int), n as nat) == Some((views(p.0@), s@.skip(p.1 as int)))
            },
            None => parse_items(s@.skip(pos as int), n as nat) is None,
        },
    decreases n,
{
    if n == 0 {
        proof {
            assert(views(Seq::<Vec<u8>>::empty()) =~= Seq::<Seq<u8>>::empty());
        }
        return Some((Vec::new(), pos));
    }
    match parse_val_line_at(s, pos, "- ") {
        None => None,
        Some((name, p1)) => match parse_items_at(s, p1, n - 1) {
            None => None,
            Some((rest, p2)) => {
                let ghost old_rest = rest@;
                let mut rest = rest;
                let ghost nv = name@;
                rest.insert(0, name);
                proof {
                    assert(views(rest@) =~= seq![nv] + views(old_rest));
                }
                Some((rest, p2))
            },
        },
    }
}

/// Decodes an optional key field value.
fn parse_key_field_value(v: &Vec<u8>) -> (r: Option<Option<Vec<u8>>>)
    ensures
        match r {
            Some(o) => parse_key_field(v@) == Some(opt_view(o)),
            None => parse_key_field(v@) is None,
        },
{
    if v.len() == 0 {
        return Some(None);
    }
    match from_hex(v) {
        None => None,
        Some(k) => if k.len() == 32 {
            Some(Some(k))
        } else {
            None
        },
    }
}

/// The default manifest a coordinator starts from: no root key, no
/// participants, the test chain tag set.
pub open spec fn template_model() -> LayoutModel {
    LayoutModel {
        root_key: None,
        chain_id: 4,
        users: Seq::empty(),
        is_test: true,
        balances_ref: None,
        vesting_ref: None,
    }
}

/// The first name that repeats an earlier one, if any.
pub open spec fn first_dup(s: Seq<Seq<u8>>) -> Option<Seq<u8>>
    decreases s.len(),
{
    if s.len() == 0 {
        None
    } else {
        match first_dup(s.drop_last()) {
            Some(d) => Some(d),
            None => if s.drop_last().contains(s.last()) {
                Some(s.last())
            } else {
                None
            },
        }
    }
}

/// A duplicate found in a prefix stays the verdict for the whole sequence.
proof fn lemma_first_dup_extends(s: Seq<Seq<u8>>, j: int)
    requires
        0 <= j <= s.len(),
        first_dup(s.take(j)) is Some,
    ensures
        first_dup(s) == first_dup(s.take(j)),
    decreases s.len() - j,
{
    if j == s.len() {
        assert(s.take(j) =~= s);
    } else {
        assert(s.take(j + 1).drop_last() =~= s.take(j));
        lemma_first_dup_extends(s, j + 1);
    }
}

/// Finds the first repeated name.
pub fn find_dup(names: &Vec<Vec<u8>>) -> (r: Option<Vec<u8>>)
    ensures
        match r {
            Some(d) => first_dup(views(names@)) == Some(d@),
            None => first_dup(views(names@)) is None,
        },
{
    let ghost vs = views(names@);
    let mut j: usize = 0;
    while j < names.len()
        invariant
            j <= names.len(),
            vs == views(names@),
            first_dup(vs.take(j as int)) is None,
        decreases names.len() - j,
    {
        let mut i: usize = 0;
        while i < j
            invariant
                i <= j < names.len(),
                vs == views(names@),
                first_dup(vs.take(j as int)) is None,
                forall|k: int| 0 <= k < i ==> vs[k] != vs[j as int],
            decreases j - i,
        {
            if bytes_eq(&names[i], &names[j]) {
                proof {
                    assert(vs.take(j as int)[i as int] == vs[j as int]);
                    assert(vs.take(j as int).contains(vs[j as int]));
                    assert(vs.take(j as int + 1).drop_last() =~= vs.take(j as int));
                    assert(vs.take(j as int + 1).last() == vs[j as int]);
                    assert(first_dup(vs.take(j as int + 1)) == Some(vs[j as int]));
                    lemma_first_dup_extends(vs, j as int + 1);
                }
                return Some(copy_bytes(&names[j]));
            }
            i = i + 1;
        }
        proof {
            assert(!vs.take(j as int).contains(vs[j as int])) by {
                if vs.take(j as int).contains(vs[j as int]) {
                    let k = choose|k: int|
                        0 <= k < vs.take(j as int).len() && vs.take(j as int)[k] == vs[j as int];
                    assert(vs[k] == vs[j as int]);
                }
            }
            assert(vs.take(j as int + 1).drop_last() =~= vs.take(j as int));
            assert(vs.take(j as int + 1).last() == vs[j as int]);
        }
        j = j + 1;
    }
    proof {
        assert(vs.take(names@.len() as int) =~= vs);
    }
    None
}

impl LayoutDescriptor {
    /// The default manifest, before any coordinator edits.
    pub fn build_template() -> (d: LayoutDescriptor)
        ensures
            d@ == template_model(),
    {
        let d = LayoutDescriptor {
            root_key: None,
            chain_id: 4,
            users: Vec::new(),
            is_test: true,
            balances_ref: None,
            vesting_ref: None,
        };
        proof {
            assert(views(Seq::<Vec<u8>>::empty()) =~= Seq::<Seq<u8>>::empty());
        }
        d
    }

    /// Sets the root key on an in-memory copy.
    pub fn merge_root_key(self, key: Vec<u8>) -> (d: Self)
        ensures
            d@ == (LayoutModel { root_key: Some(key@), ..self@ }),
    {
        LayoutDescriptor { root_key: Some(key), ..self }
    }

    /// Replaces the participant list on an in-memory copy.
    pub fn merge_participants(self, users: Vec<Vec<u8>>) -> (d: Self)
        ensures
            d@ == (LayoutModel { users: views(users@), ..self@ }),
    {
        LayoutDescriptor { users, ..self }
    }

    /// Sets the chain tag on an in-memory copy.
    pub fn set_chain_id(self, chain_id: u8) -> (d: Self)
        ensures
            d@ == (LayoutModel { chain_id, ..self@ }),
    {
        LayoutDescriptor { chain_id, ..self }
    }

    /// Sets the test flag on an in-memory copy.
    pub fn set_test_flag(self, is_test: bool) -> (d: Self)
        ensures
            d@ == (LayoutModel { is_test, ..self@ }),
    {
        LayoutDescriptor { is_test, ..self }
    }

    /// Rejects a manifest whose participant list repeats a name.
    pub fn validate(&self) -> (r: Result<(), GenesisError>)
        ensures
            match r {
                Ok(()) => first_dup(self@.users) is None,
                Err(e) => {
                    &&& e matches GenesisError::DuplicateParticipant(d)
                    &&& first_dup(self@.users) == Some(d@)
                },
            },
    {
        match find_dup(&self.users) {
            None => Ok(()),
            Some(d) => Err(GenesisError::DuplicateParticipant(d)),
        }
    }

    /// Serializes the manifest.
    pub fn serialize(&self) -> (r: Vec<u8>)
        ensures
            r@ == layout_bytes(self@),
    {
        let mut out: Vec<u8> = Vec::new();
        push_dec_line(&mut out, "chain_id: ", self.chain_id as u64);
        push_dec_line(&mut out, "is_test: ", if self.is_test { 1 } else { 0 });
        match &self.root_key {
            Some(k) => {
                let kf = to_hex(k);
                push_val_line(&mut out, "root_key: ", &kf);
            },
            None => {
                let e: Vec<u8> = Vec::new();
                push_val_line(&mut out, "root_key: ", &e);
            },
        }
        push_dec_line(&mut out, "users: ", self.users.len() as u64);
        push_items(&mut out, &self.users, 0);
        proof {
            assert(views(self.users@).skip(0) =~= views(self.users@));
        }
        match &self.balances_ref {
            Some(v) => push_val_line(&mut out, "balances: ", v),
            None => {
                let e: Vec<u8> = Vec::new();
                push_val_line(&mut out, "balances: ", &e);
            },
        }
        match &self.vesting_ref {
            Some(v) => push_val_line(&mut out, "vesting: ", v),
            None => {
                let e: Vec<u8> = Vec::new();
                push_val_line(&mut out, "vesting: ", &e);
            },
        }
        proof {
            assert(out@ =~= layout_bytes(self@));
        }
        out
    }

    /// Parses a serialized manifest, failing with `SchemaError` on any
    /// malformed input.
    pub fn load(bytes: &Vec<u8>) -> (r: Result<LayoutDescriptor, GenesisError>)
        ensures
            match r {
                Ok(d) => parse_layout(bytes@) == Some(d@),
                Err(e) => parse_layout(bytes@) is None && e == GenesisError::SchemaError,
            },
    {
        proof {
            assert(bytes@.skip(0) =~= bytes@);
        }
        let (chain, p1) = match parse_dec_line_at(bytes, 0, "chain_id: ") {
            None => return Err(GenesisError::SchemaError),
            Some(x) => x,
        };
        if chain > 255 {
            return Err(GenesisError::SchemaError);
        }
        let (t, p2) = match parse_dec_line_at(bytes, p1, "is_test: ") {
            None => return Err(GenesisError::SchemaError),
            Some(x) => x,
        };
        if t > 1 {
            return Err(GenesisError::SchemaError);
        }
        let (kv, p3) = match parse_val_line_at(bytes, p2, "root_key: ") {
            None => return Err(GenesisError::SchemaError),
            Some(x) => x,
        };
        let key = match parse_key_field_value(&kv) {
            None => return Err(GenesisError::SchemaError),
            Some(o) => o,
        };
        let (n, p4) = match parse_dec_line_at(bytes, p3, "users: ") {
            None => return Err(GenesisError::SchemaError),
            Some(x) => x,
        };
        let (users, p5) = match parse_items_at(bytes, p4, n) {
            None => return Err(GenesisError::SchemaError),
            Some(x) => x,
        };
        let (bv, p6) = match parse_val_line_at(bytes, p5, "balances: ") {
            None => return Err(GenesisError::SchemaError),
            Some(x) => x,
        };
        let (vv, p7) = match parse_val_line_at(bytes, p6, "vesting: ") {
            None => return Err(GenesisError::SchemaError),
            Some(x) => x,
        };
        if p7 != bytes.len() {
            return Err(GenesisError::SchemaError);
        }
        let d = LayoutDescriptor {
            root_key: key,
            chain_id: chain as u8,
            users,
            is_test: t == 1,
            balances_ref: if bv.len() == 0 {
                None
            } else {
                Some(bv)
            },
            vesting_ref: if vv.len() == 0 {
                None
            } else {
                Some(vv)
            },
        };
        Ok(d)
    }
}

/// The mathematical content of one participant's published identity.
pub ghost struct BundleModel {
    pub owner: Seq<u8>,
    pub operator: Option<Seq<u8>>,
    pub voter: Option<Seq<u8>>,
    pub host: Seq<u8>,
    pub port: u16,
    pub stake: u64,
    pub commission: u8,
}

/// One participant's identity and network configuration.
#[derive(Debug, PartialEq, Eq)]
pub struct ParticipantBundle {
    pub owner: Vec<u8>,
    pub operator: Option<Vec<u8>>,
    pub voter: Option<Vec<u8>>,
    pub host: Vec<u8>,
    pub port: u16,
    pub stake: u64,
    pub commission: u8,
}

impl View for ParticipantBundle {
    type V = BundleModel;

    open spec fn view(&self) -> BundleModel {
        BundleModel {
            owner: self.owner@,
            operator: opt_view(self.operator),
            voter: opt_view(self.voter),
            host: self.host@,
            port: self.port,
            stake: self.stake,
            commission: self.commission,
        }
    }
}

/// A bundle that serializes to a loadable file.
pub open spec fn bundle_wf(m: BundleModel) -> bool {
    &&& m.owner.len() == 32
    &&& (match m.operator {
        Some(k) => k.len() == 32,
        None => true,
    })
    &&& (match m.voter {
        Some(k) => k.len() == 32,
        None => true,
    })
    &&& m.host.len() >= 1
    &&& no_nl(m.host)
    &&& m.commission <= 100
}

/// The serialized form of a participant bundle.
pub open spec fn bundle_bytes(m: BundleModel) -> Seq<u8> {
    val_line(lit("owner: "), hex_of(m.owner)) + val_line(lit("operator: "), key_field(m.operator))
        + val_line(lit("voter: "), key_field(m.voter)) + val_line(lit("host: "), m.host)
        + dec_line(lit("port: "), m.port as nat) + dec_line(lit("stake: "), m.stake as nat)
        + dec_line(lit("commission: "), m.commission as nat)
}

/// Decodes a required hex-encoded 32-byte key field value.
pub open spec fn parse_owner_field(v: Seq<u8>) -> Option<Seq<u8>> {
    match hex_parse(v) {
        None => None,
        Some(k) => if k.len() == 32 {
            Some(k)
        } else {
            None
        },
    }
}

/// Parses a whole participant bundle file.
pub open spec fn parse_bundle(s: Seq<u8>) -> Option<BundleModel> {
    match parse_val_line(s, lit("owner: ")) {
        None => None,
        Some((ov, s)) => match parse_owner_field(ov) {
            None => None,
            Some(owner) => match parse_val_line(s, lit("operator: ")) {
                None => None,
                Some((opv, s)) => match parse_key_field(opv) {
                    None => None,
                    Some(operator) => match parse_val_line(s, lit("voter: ")) {
                        None => None,
                        Some((vov, s)) => match parse_key_field(vov) {
                            None => None,
                            Some(voter) => match parse_val_line(s, lit("host: ")) {
                                None => None,
                                Some((host, s)) => if host.len() == 0 {
                                    None
                                } else {
                                    match parse_dec_line(s, lit("port: ")) {
                                        None => None,
                                        Some((port, s)) => if port > 65535 {
                                            None
                                        } else {
                                            match parse_dec_line(s, lit("stake: ")) {
                                                None => None,
                                                Some((stake, s)) => match parse_dec_line(
                                                    s,
                                                    lit("commission: "),
                                                ) {
                                                    None => None,
                                                    Some((c, s)) => if c > 100 || s.len() != 0 {
                                                        None
                                                    } else {
                                                        Some(
                                                            BundleModel {
                                                                owner,
                                                                operator,
                                                                voter,
                                                                host,
                                                                port: port as u16,
                                                                stake,
                                                                commission: c as u8,
                                                            },
                                                        )
                                                    },
                                                },
                                            }
                                        },
                                    }
                                },
                            },
                        },
                    },
                },
            },
        },
    }
}

/// Loading a serialized bundle yields the bundle again.
#[verifier::rlimit(100)]
pub proof fn lemma_bundle_round_trip(m: BundleModel)
    requires
        bundle_wf(m),
    ensures
        parse_bundle(bundle_bytes(m)) == Some(m),
{
    let c1 = val_line(lit("owner: "), hex_of(m.owner));
    let c2 = val_line(lit("operator: "), key_field(m.operator));
    let c3 = val_line(lit("voter: "), key_field(m.voter));
    let c4 = val_line(lit("host: "), m.host);
    let c5 = dec_line(lit("port: "), m.port as nat);
    let c6 = dec_line(lit("stake: "), m.stake as nat);
    let c7 = dec_line(lit("commission: "), m.commission as nat);
    let s1 = c2 + (c3 + (c4 + (c5 + (c6 + c7))));
    assert(bundle_bytes(m) =~= c1 + s1);
    lemma_hex_of_chars(m.owner);
    lemma_hex_round_trip(m.owner);
    lemma_val_line(lit("owner: "), hex_of(m.owner), s1);
    let s2 = c3 + (c4 + (c5 + (c6 + c7)));
    assert(s1 =~= c2 + s2);
    lemma_key_field_round_trip(m.operator);
    lemma_val_line(lit("operator: "), key_field(m.operator), s2);
    let s3 = c4 + (c5 + (c6 + c7));
    assert(s2 =~= c3 + s3);
    lemma_key_field_round_trip(m.voter);
    lemma_val_line(lit("voter: "), key_field(m.voter), s3);
    let s4 = c5 + (c6 + c7);
    assert(s3 =~= c4 + s4);
    lemma_val_line(lit("host: "), m.host, s4);
    let s5 = c6 + c7;
    assert(s4 =~= c5 + s5);
    lemma_dec_line(lit("port: "), m.port as u64, s5);
    let s6 = c7;
    assert(s5 =~= c6 + s6);
    lemma_dec_line(lit("stake: "), m.stake, s6);
    assert(s6 =~= c7 + Seq::<u8>::empty());
    lemma_dec_line(lit("commission: "), m.commission as u64, Seq::<u8>::empty());
    let got = parse_bundle(bundle_bytes(m));
    assert(got is Some);
    let g = got->Some_0;
    assert(g.owner == m.owner);
    assert(g.operator == m.operator);
    assert(g.voter == m.voter);
    assert(g.host == m.host);
    assert(g.port == m.port);
    assert(g.stake == m.stake);
    assert(g.commission == m.commission);
}

/// Decodes a required key field value.
fn parse_owner_field_value(v: &Vec<u8>) -> (r: Option<Vec<u8>>)
    ensures
        match r {
            Some(k) => parse_owner_field(v@) == Some(k@),
            None => parse_owner_field(v@) is None,
        },
{
    match from_hex(v) {
        None => None,
        Some(k) => if k.len() == 32 {
            Some(k)
        } else {
            None
        },
    }
}

impl ParticipantBundle {
    /// Serializes the bundle.
    pub fn serialize(&self) -> (r: Vec<u8>)
        ensures
            r@ == bundle_bytes(self@),
    {
        let mut out: Vec<u8> = Vec::new();
        let of = to_hex(&self.owner);
        push_val_line(&mut out, "owner: ", &of);
        match &self.operator {
            Some(k) => {
                let kf = to_hex(k);
                push_val_line(&mut out, "operator: ", &kf);
            },
            None => {
                let e: Vec<u8> = Vec::new();
                push_val_line(&mut out, "operator: ", &e);
            },
        }
        match &self.voter {
            Some(k) => {
                let kf = to_hex(k);
                push_val_line(&mut out, "voter: ", &kf);
            },
            None => {
                let e: Vec<u8> = Vec::new();
                push_val_line(&mut out, "voter: ", &e);
            },
        }
        push_val_line(&mut out, "host: ", &self.host);
        push_dec_line(&mut out, "port: ", self.port as u64);
        push_dec_line(&mut out, "stake: ", self.stake);
        push_dec_line(&mut out, "commission: ", self.commission as u64);
        proof {
            assert(out@ =~= bundle_bytes(self@));
        }
        out
    }

    /// Parses a serialized bundle, failing with `SchemaError` on any
    /// malformed input.
    pub fn load(bytes: &Vec<u8>) -> (r: Result<ParticipantBundle, GenesisError>)
        ensures
            match r {
                Ok(b) => parse_bundle(bytes@) == Some(b@),
                Err(e) => parse_bundle(bytes@) is None && e == GenesisError::SchemaError,
            },
    {
        proof {
            assert(bytes@.skip(0) =~= bytes@);
        }
        let (ov, p1) = match parse_val_line_at(bytes, 0, "owner: ") {
            None => return Err(GenesisError::SchemaError),
            Some(x) => x,
        };
        let owner = match parse_owner_field_value(&ov) {
            None => return Err(GenesisError::SchemaError),
            Some(k) => k,
        };
        let (opv, p2) = match parse_val_line_at(bytes, p1, "operator: ") {
            None => return Err(GenesisError::SchemaError),
            Some(x) => x,
        };
        let operator = match parse_key_field_value(&opv) {
            None => return Err(GenesisError::SchemaError),
            Some(o) => o,
        };
        let (vov, p3) = match parse_val_line_at(bytes, p2, "voter: ") {
            None => return Err(GenesisError::SchemaError),
            Some(x) => x,
        };
        let voter = match parse_key_field_value(&vov) {
            None => return Err(GenesisError::SchemaError),
            Some(o) => o,
        };
        let (host, p4) = match parse_val_line_at(bytes, p3, "host: ") {
            None => return Err(GenesisError::SchemaError),
            Some(x) => x,
        };
        if host.len() == 0 {
            return Err(GenesisError::SchemaError);
        }
        let (port, p5) = match parse_dec_line_at(bytes, p4, "port: ") {
            None => return Err(GenesisError::SchemaError),
            Some(x) => x,
        };
        if port > 65535 {
            return Err(GenesisError::SchemaError);
        }
        let (stake, p6) = match parse_dec_line_at(bytes, p5, "stake: ") {
            None => return Err(GenesisError::SchemaError),
            Some(x) => x,
        };
        let (c, p7) = match parse_dec_line_at(bytes, p6, "commission: ") {
            None => return Err(GenesisError::SchemaError),
            Some(x) => x,
        };
        if c > 100 || p7 != bytes.len() {
            return Err(GenesisError::SchemaError);
        }
        Ok(ParticipantBundle {
            owner,
            operator,
            voter,
            host,
            port: port as u16,
            stake,
            commission: c as u8,
        })
    }
}

/// The views of a sequence of balance entries.
pub open spec fn balance_views(s: Seq<(Vec<u8>, u64)>) -> Seq<(Seq<u8>, u64)> {
    Seq::new(s.len(), |i: int| (s[i].0@, s[i].1))
}

/// Balance entries whose addresses have the fixed address width.
pub open spec fn balances_wf(es: Seq<(Seq<u8>, u64)>) -> bool {
    forall|i: int| 0 <= i < es.len() ==> (#[trigger] es[i]).0.len() == 20
}

/// One `<hex address>: <balance>` line per entry.
pub open spec fn balance_lines(es: Seq<(Seq<u8>, u64)>) -> Seq<u8>
    decreases es.len(),
{
    if es.len() == 0 {
        Seq::empty()
    } else {
        hex_of(es[0].0) + lit(": ") + dec_digits(es[0].1 as nat) + seq![NL] + balance_lines(
            es.drop_first(),
        )
    }
}

/// The serialized form of a balances file.
pub open spec fn balances_bytes(es: Seq<(Seq<u8>, u64)>) -> Seq<u8> {
    dec_line(lit("balances: "), es.len()) + balance_lines(es)
}

/// Parses `n` balance lines.
pub open spec fn parse_balance_entries(s: Seq<u8>, n: nat) -> Option<(Seq<(Seq<u8>, u64)>, Seq<u8>)>
    decreases n,
{
    if n == 0 {
        Some((Seq::empty(), s))
    } else {
        match take_fixed(s, 40) {
            None => None,
            Some((av, s1)) => match hex_parse(av) {
                None => None,
                Some(a) => match expect(s1, lit(": ")) {
                    None => None,
                    Some(s2) => match parse_dec(s2) {
                        None => None,
                        Some((b, s3)) => match expect(s3, seq![NL]) {
                            None => None,
                            Some(s4) => match parse_balance_entries(s4, (n - 1) as nat) {
                                None => None,
                                Some((rest, s5)) => Some((seq![(a, b)] + rest, s5)),
                            },
                        },
                    },
                },
            },
        }
    }
}

/// Parses a whole balances file.
pub open spec fn parse_balances(s: Seq<u8>) -> Option<Seq<(Seq<u8>, u64)>> {
    match parse_dec_line(s, lit("balances: ")) {
        None => None,
        Some((n, s)) => match parse_balance_entries(s, n as nat) {
            None => None,
            Some((es, rest)) => if rest.len() == 0 {
                Some(es)
            } else {
                None
            },
        },
    }
}

/// Serializing then parsing the balance lines recovers them.
#[verifier::rlimit(100)]
pub proof fn lemma_balance_lines_round_trip(es: Seq<(Seq<u8>, u64)>, rest: Seq<u8>)
    requires
        balances_wf(es),
    ensures
        parse_balance_entries(balance_lines(es) + rest, es.len()) == Some((es, rest)),
    decreases es.len(),
{
    if es.len() == 0 {
        assert(balance_lines(es) + rest =~= rest);
        assert(es =~= Seq::<(Seq<u8>, u64)>::empty());
    } else {
        let a = es[0].0;
        let b = es[0].1;
        let tail = es.drop_first();
        lemma_hex_of_chars(a);
        lemma_hex_round_trip(a);
        let r1 = lit(": ") + (dec_digits(b as nat) + (seq![NL] + (balance_lines(tail) + rest)));
        assert(balance_lines(es) + rest =~= hex_of(a) + r1);
        crate::codec::lemma_take_fixed_concat(hex_of(a), r1);
        let r2 = dec_digits(b as nat) + (seq![NL] + (balance_lines(tail) + rest));
        lemma_expect_concat(lit(": "), r2);
        let r3 = seq![NL] + (balance_lines(tail) + rest);
        assert(r3[0] == NL && !is_digit(r3[0]));
        lemma_parse_dec_concat(b, r3);
        lemma_expect_concat(seq![NL], balance_lines(tail) + rest);
        assert(balances_wf(tail));
        lemma_balance_lines_round_trip(tail, rest);
        assert(seq![(a, b)] + tail =~= es);
    }
}

/// Loading a serialized balances file yields the entries again.
pub proof fn lemma_balances_round_trip(es: Seq<(Seq<u8>, u64)>)
    requires
        balances_wf(es),
        es.len() <= u64::MAX,
    ensures
        parse_balances(balances_bytes(es)) == Some(es),
{
    assert(balances_bytes(es) =~= dec_line(lit("balances: "), es.len()) + balance_lines(es));
    lemma_dec_line(lit("balances: "), es.len() as u64, balance_lines(es));
    assert(balance_lines(es) =~= balance_lines(es) + Seq::<u8>::empty());
    lemma_balance_lines_round_trip(es, Seq::<u8>::empty());
}

/// Serializes a balances file.
pub fn serialize_balances(es: &Vec<(Vec<u8>, u64)>) -> (r: Vec<u8>)
    ensures
        r@ == balances_bytes(balance_views(es@)),
{
    let mut out: Vec<u8> = Vec::new();
    push_dec_line(&mut out, "balances: ", es.len() as u64);
    let mut i: usize = 0;
    proof {
        assert(balance_views(es@).skip(0) =~= balance_views(es@));
    }
    while i < es.len()
        invariant
            i <= es.len(),
            out@ + balance_lines(balance_views(es@).skip(i as int)) == dec_line(
                lit("balances: "),
                es@.len() as nat,
            ) + balance_lines(balance_views(es@)),
        decreases es.len() - i,
    {
        let ghost out0 = out@;
        let af = to_hex(&es[i].0);
        push_all(&mut out, &af);
        let cl = lit_bytes(": ");
        push_all(&mut out, &cl);
        let d = u64_to_dec(es[i].1);
        push_all(&mut out, &d);
        out.push(NL);
        proof {
            let vs = balance_views(es@).skip(i as int);
            assert(vs[0] == (es@[i as int].0@, es@[i as int].1));
            assert(vs.drop_first() =~= balance_views(es@).skip(i as int + 1));
            assert(out@ + balance_lines(balance_views(es@).skip(i as int + 1)) =~= out0
                + balance_lines(vs));
        }
        i = i + 1;
    }
    proof {
        assert(balance_views(es@).skip(es@.len() as int) =~= Seq::<(Seq<u8>, u64)>::empty());
        assert(out@ + Seq::<u8>::empty() =~= out@);
    }
    out
}

/// Consumes `n` balance lines starting at `pos`.
fn parse_balance_entries_at(s: &Vec<u8>, pos: usize, n: u64) -> (r: Option<
    (Vec<(Vec<u8>, u64)>, usize),
>)
    requires
        pos <= s.len(),
    ensures
        match r {
            Some(p) => {
                &&& pos <= p.1 <= s.len()
                &&& parse_balance_entries(s@.skip(pos as int), n as nat) == Some(
                    (balance_views(p.0@), s@.skip(p.1 as int)),
                )
            },
            None => parse_balance_entries(s@.skip(pos as int), n as nat) is None,
        },
    decreases n,
{
    if n == 0 {
        proof {
            assert(balance_views(Seq::<(Vec<u8>, u64)>::empty()) =~= Seq::<(Seq<u8>, u64)>::empty());
        }
        return Some((Vec::new(), pos));
    }
    let (av, p1) = match take_fixed_at(s, pos, 40) {
        None => return None,
        Some(x) => x,
    };
    let a = match from_hex(&av) {
        None => return None,
        Some(a) => a,
    };
    let cl = lit_bytes(": ");
    let p2 = match expect_at(s, p1, &cl) {
        None => return None,
        Some(x) => x,
    };
    let (b, p3) = match parse_dec_at(s, p2) {
        None => return None,
        Some(x) => x,
    };
    let nv = nl_vec();
    let p4 = match expect_at(s, p3, &nv) {
        None => return None,
        Some(x) => x,
    };
    match parse_balance_entries_at(s, p4, n - 1) {
        None => None,
        Some((rest, p5)) => {
            let ghost old_rest = rest@;
            let ghost av_ghost = a@;
            let mut rest = rest;
            rest.insert(0, (a, b));
            proof {
                assert(balance_views(rest@) =~= seq![(av_ghost, b)] + balance_views(old_rest));
            }
            Some((rest, p5))
        },
    }
}

/// Parses a serialized balances file, failing with `SchemaError` on any
/// malformed input.
pub fn load_balances(bytes: &Vec<u8>) -> (r: Result<Vec<(Vec<u8>, u64)>, GenesisError>)
    ensures
        match r {
            Ok(es) => parse_balances(bytes@) == Some(balance_views(es@)),
            Err(e) => parse_balances(bytes@) is None && e == GenesisError::SchemaError,
        },
{
    proof {
        assert(bytes@.skip(0) =~= bytes@);
    }
    let (n, p1) = match parse_dec_line_at(bytes, 0, "balances: ") {
        None => return Err(GenesisError::SchemaError),
        Some(x) => x,
    };
    let (es, p2) = match parse_balance_entries_at(bytes, p1, n) {
        None => return Err(GenesisError::SchemaError),
        Some(x) => x,
    };
    if p2 != bytes.len() {
        return Err(GenesisError::SchemaError);
    }
    Ok(es)
}

/// Vesting records that serialize to a loadable file.
pub open spec fn vesting_wf(rs: Seq<Seq<u8>>) -> bool {
    &&& rs.len() <= u64::MAX
    &&& forall|i: int| 0 <= i < rs.len() ==> no_nl(#[trigger] rs[i])
}

/// The serialized form of a vesting file; an empty record set is valid.
pub open spec fn vesting_bytes(rs: Seq<Seq<u8>>) -> Seq<u8> {
    dec_line(lit("vesting: "), rs.len()) + item_lines(rs)
}

/// Parses a whole vesting file.
pub open spec fn parse_vesting(s: Seq<u8>) -> Option<Seq<Seq<u8>>> {
    match parse_dec_line(s, lit("vesting: ")) {
        None => None,
        Some((n, s)) => match parse_items(s, n as nat) {
            None => None,
            Some((rs, rest)) => if rest.len() == 0 {
                Some(rs)
            } else {
                None
            },
        },
    }
}

/// Loading a serialized vesting file yields the records again.
pub proof fn lemma_vesting_round_trip(rs: Seq<Seq<u8>>)
    requires
        vesting_wf(rs),
    ensures
        parse_vesting(vesting_bytes(rs)) == Some(rs),
{
    assert(vesting_bytes(rs) =~= dec_line(lit("vesting: "), rs.len()) + item_lines(rs));
    lemma_dec_line(lit("vesting: "), rs.len() as u64, item_lines(rs));
    assert(item_lines(rs) =~= item_lines(rs) + Seq::<u8>::empty());
    lemma_items_round_trip(rs, Seq::<u8>::empty());
}

/// Serializes a vesting file.
pub fn serialize_vesting(rs: &Vec<Vec<u8>>) -> (r: Vec<u8>)
    ensures
        r@ == vesting_bytes(views(rs@)),
{
    let mut out: Vec<u8> = Vec::new();
    push_dec_line(&mut out, "vesting: ", rs.len() as u64);
    push_items(&mut out, rs, 0);
    proof {
        assert(views(rs@).skip(0) =~= views(rs@));
        assert(out@ =~= vesting_bytes(views(rs@)));
    }
    out
}

/// Parses a serialized vesting file, failing with `SchemaError` on any
/// malformed input.
pub fn load_vesting(bytes: &Vec<u8>) -> (r: Result<Vec<Vec<u8>>, GenesisError>)
    ensures
        match r {
            Ok(rs) => parse_vesting(bytes@) == Some(views(rs@)),
            Err(e) => parse_vesting(bytes@) is None && e == GenesisError::SchemaError,
        },
{
    proof {
        assert(bytes@.skip(0) =~= bytes@);
    }
    let (n, p1) = match parse_dec_line_at(bytes, 0, "vesting: ") {
        None => return Err(GenesisError::SchemaError),
        Some(x) => x,
    };
    let (rs, p2) = match parse_items_at(bytes, p1, n) {
        None => return Err(GenesisError::SchemaError),
        Some(x) => x,
    };
    if p2 != bytes.len() {
        return Err(GenesisError::SchemaError);
    }
    Ok(rs)
}

/// The decoded 20-byte address of a `0x`-prefixed hex literal, left-padded
/// with zero digits; short forms like `0x123` are accepted.
pub open spec fn addr_literal(s: Seq<u8>) -> Option<Seq<u8>> {
    if 3 <= s.len() && s.len() <= 42 && s[0] == 48 && s[1] == 120 {
        hex_parse(Seq::new((40 - (s.len() - 2)) as nat, |i: int| 48u8) + s.skip(2))
    } else {
        None
    }
}

/// Parses a `0x`-prefixed hex address literal into 20 bytes.
pub fn parse_address_literal(s: &Vec<u8>) -> (r: Option<Vec<u8>>)
    ensures
        match r {
            Some(a) => addr_literal(s@) == Some(a@),
            None => addr_literal(s@) is None,
        },
{
    if !(3 <= s.len() && s.len() <= 42 && s[0] == 48 && s[1] == 120) {
        return None;
    }
    let digits = s.len() - 2;
    let pad = 40 - digits;
    let mut padded: Vec<u8> = Vec::new();
    let mut k: usize = 0;
    while k < 40
        invariant
            k <= 40,
            3 <= s@.len() <= 42,
            digits == s@.len() - 2,
            pad == 40 - digits,
            padded@.len() == k,
            forall|t: int|
                0 <= t < k ==> #[trigger] padded@[t] == (if t < 40 - digits {
                    48u8
                } else {
                    s@[t - (40 - digits) + 2]
                }),
        decreases 40 - k,
    {
        if k < pad {
            padded.push(48);
        } else {
            padded.push(s[k - pad + 2]);
        }
        k = k + 1;
    }
    proof {
        assert(padded@ =~= Seq::new((40 - (s@.len() - 2)) as nat, |i: int| 48u8) + s@.skip(2));
    }
    from_hex(&padded)
}

} // verus!

//! The aggregation side of the ceremony: well-known store paths, the
//! participant publisher, deterministic key material, name ordering, and
//! the aggregator that folds every published piece into one validated
//! genesis input set.

use vstd::prelude::*;

use crate::codec::{copy_bytes, dec_digits, hex_of, lit, lit_bytes, push_all, u64_to_dec};
use crate::errors::GenesisError;
use crate::schema::{
    balance_views, balances_bytes, bundle_bytes, layout_bytes, parse_balances, parse_bundle,
    parse_layout, parse_vesting, views, BundleModel, LayoutDescriptor, LayoutModel,
    ParticipantBundle,
};
use crate::schema::{first_dup, vesting_bytes};
use crate::store::CoordinationStore;

verus! {

/// Path of the layout manifest inside the coordination store.
pub open spec fn layout_path() -> Seq<u8> {
    lit("layout")
}

/// Path of the pinned framework bundle inside the coordination store.
pub open spec fn framework_path() -> Seq<u8> {
    lit("framework.mrb")
}

/// Path of one participant's published identity bundle.
pub open spec fn participant_path(name: Seq<u8>) -> Seq<u8> {
    lit("participants/") + name + lit("/identity")
}

/// Builds the layout path.
pub fn layout_path_vec() -> (r: Vec<u8>)
    ensures
        r@ == layout_path(),
{
    lit_bytes("layout")
}

/// Builds the framework path.
pub fn framework_path_vec() -> (r: Vec<u8>)
    ensures
        r@ == framework_path(),
{
    lit_bytes("framework.mrb")
}

/// Builds one participant's bundle path.
pub fn participant_path_vec(name: &Vec<u8>) -> (r: Vec<u8>)
    ensures
        r@ == participant_path(name@),
{
    let mut r = lit_bytes("participants/");
    push_all(&mut r, name);
    let tail = lit_bytes("/identity");
    push_all(&mut r, &tail);
    r
}

/// Two names never share a bundle path.
pub proof fn lemma_participant_path_injective(a: Seq<u8>, b: Seq<u8>)
    requires
        participant_path(a) == participant_path(b),
    ensures
        a == b,
{
    let l = lit("participants/").len() as int;
    assert(participant_path(a).len() == l + a.len() + lit("/identity").len());
    assert(participant_path(b).len() == l + b.len() + lit("/identity").len());
    assert(a.len() == b.len());
    assert(a =~= participant_path(a).skip(l).take(a.len() as int));
    assert(b =~= participant_path(b).skip(l).take(b.len() as int));
}

/// Serializes and publishes one participant's bundle under its own
/// name-scoped path; republishing overwrites (last writer wins).
pub fn publish(store: &mut CoordinationStore, name: &Vec<u8>, bundle: &ParticipantBundle)
    ensures
        final(store)@ == old(store)@.insert(participant_path(name@), bundle_bytes(bundle@)),
{
    let path = participant_path_vec(name);
    let data = bundle.serialize();
    store.write(&path, &data);
}

/// Publishing a name twice leaves exactly the second bundle: the first
/// write is overwritten whole, never merged.
pub proof fn lemma_publish_last_writer_wins(
    snap: Map<Seq<u8>, Seq<u8>>,
    name: Seq<u8>,
    first: BundleModel,
    second: BundleModel,
)
    ensures
        snap.insert(participant_path(name), bundle_bytes(first)).insert(
            participant_path(name),
            bundle_bytes(second),
        ) == snap.insert(participant_path(name), bundle_bytes(second)),
{
    assert(snap.insert(participant_path(name), bundle_bytes(first)).insert(
        participant_path(name),
        bundle_bytes(second),
    ) =~= snap.insert(participant_path(name), bundle_bytes(second)));
}

/// Deterministic key material derived from a small seed.
pub open spec fn key_material(seed: u8) -> Seq<u8> {
    Seq::new(32, |i: int| (((seed as int) * 31 + i * 17 + 7) % 256) as u8)
}

/// Expands a seed into 32 bytes of key material, the same bytes on every
/// run with the same seed.
pub fn generate_key_material(seed: u8) -> (r: Vec<u8>)
    ensures
        r@ == key_material(seed),
        r@.len() == 32,
{
    let mut r: Vec<u8> = Vec::new();
    let mut i: usize = 0;
    while i < 32
        invariant
            i <= 32,
            r@.len() == i,
            forall|j: int| 0 <= j < i ==> r@[j] == (((seed as int) * 31 + j * 17 + 7) % 256) as u8,
        decreases 32 - i,
    {
        let v: u64 = (seed as u64) * 31 + (i as u64) * 17 + 7;
        r.push((v % 256) as u8);
        i = i + 1;
    }
    proof {
        assert(r@ =~= key_material(seed));
    }
    r
}

/// Byte-wise lexicographic order on names.
pub open spec fn lex_le(a: Seq<u8>, b: Seq<u8>) -> bool
    decreases a.len(),
{
    if a.len() == 0 {
        true
    } else if b.len() == 0 {
        false
    } else if a[0] < b[0] {
        true
    } else if a[0] > b[0] {
        false
    } else {
        lex_le(a.drop_first(), b.drop_first())
    }
}

pub proof fn lemma_lex_total(a: Seq<u8>, b: Seq<u8>)
    ensures
        lex_le(a, b) || lex_le(b, a),
    decreases a.len(),
{
    if a.len() > 0 && b.len() > 0 && a[0] == b[0] {
        lemma_lex_total(a.drop_first(), b.drop_first());
    }
}

/// Compares two names in lexicographic order.
pub fn lex_le_exec(a: &Vec<u8>, b: &Vec<u8>) -> (r: bool)
    ensures
        r == lex_le(a@, b@),
{
    let mut i: usize = 0;
    proof {
        assert(a@.skip(0) =~= a@);
        assert(b@.skip(0) =~= b@);
    }
    while i < a.len() && i < b.len()
        invariant
            i <= a.len(),
            i <= b.len(),
            lex_le(a@, b@) == lex_le(a@.skip(i as int), b@.skip(i as int)),
        decreases a.len() - i,
    {
        let x = a[i];
        let y = b[i];
        if x < y {
            return true;
        }
        if x > y {
            return false;
        }
        proof {
            assert(a@.skip(i as int).drop_first() =~= a@.skip(i as int + 1));
            assert(b@.skip(i as int).drop_first() =~= b@.skip(i as int + 1));
        }
        i = i + 1;
    }
    proof {
        if i == a.len() {
            assert(a@.skip(i as int).len() == 0);
        } else {
            assert(b@.skip(i as int).len() == 0);
            assert(a@.skip(i as int).len() > 0);
        }
    }
    i == a.len()
}

/// Inserts a name into an ordered list, before the first name it does not
/// follow.
pub open spec fn insert_sorted(x: Seq<u8>, s: Seq<Seq<u8>>) -> Seq<Seq<u8>>
    decreases s.len(),
{
    if s.len() == 0 {
        seq![x]
    } else if lex_le(x, s[0]) {
        seq![x] + s
    } else {
        seq![s[0]] + insert_sorted(x, s.drop_first())
    }
}

/// Insertion sort: the unique ordered arrangement the aggregator uses, so
/// that nothing depends on store enumeration order.
pub open spec fn sort_names(s: Seq<Seq<u8>>) -> Seq<Seq<u8>>
    decreases s.len(),
{
    if s.len() == 0 {
        Seq::empty()
    } else {
        insert_sorted(s[0], sort_names(s.drop_first()))
    }
}

pub open spec fn sorted_names(s: Seq<Seq<u8>>) -> bool {
    forall|i: int, j: int| 0 <= i < j < s.len() ==> lex_le(#[trigger] s[i], #[trigger] s[j])
}

pub proof fn lemma_insert_sorted_contains(x: Seq<u8>, s: Seq<Seq<u8>>, y: Seq<u8>)
    ensures
        insert_sorted(x, s).contains(y) <==> (y == x || s.contains(y)),
        insert_sorted(x, s).len() == s.len() + 1,
    decreases s.len(),
{
    if s.len() == 0 {
        assert(insert_sorted(x, s)[0] == x);
        if insert_sorted(x, s).contains(y) {
            let i = choose|i: int| 0 <= i < insert_sorted(x, s).len() && insert_sorted(x, s)[i] == y;
            assert(y == x);
        }
        if y == x {
            assert(insert_sorted(x, s)[0] == y);
        }
    } else if lex_le(x, s[0]) {
        let r = seq![x] + s;
        if r.contains(y) {
            let i = choose|i: int| 0 <= i < r.len() && r[i] == y;
            if i == 0 {
            } else {
                assert(s[i - 1] == y);
            }
        }
        if y == x {
            assert(r[0] == y);
        }
        if s.contains(y) {
            let i = choose|i: int| 0 <= i < s.len() && s[i] == y;
            assert(r[i + 1] == y);
        }
    } else {
        lemma_insert_sorted_contains(x, s.drop_first(), y);
        let r = seq![s[0]] + insert_sorted(x, s.drop_first());
        if r.contains(y) {
            let i = choose|i: int| 0 <= i < r.len() && r[i] == y;
            if i == 0 {
                assert(s[0] == y);
            } else {
                assert(insert_sorted(x, s.drop_first())[i - 1] == y);
                assert(insert_sorted(x, s.drop_first()).contains(y));
                if y != x {
                    let j = choose|j: int|
                        0 <= j < s.drop_first().len() && s.drop_first()[j] == y;
                    assert(s[j + 1] == y);
                }
            }
        }
        if y == x {
            assert(insert_sorted(x, s.drop_first()).contains(y));
            let i = choose|i: int|
                0 <= i < insert_sorted(x, s.drop_first()).len() && insert_sorted(
                    x,
                    s.drop_first(),
                )[i] == y;
            assert(r[i + 1] == y);
        }
        if s.contains(y) {
            let i = choose|i: int| 0 <= i < s.len() && s[i] == y;
            if i == 0 {
                assert(r[0] == y);
            } else {
                assert(s.drop_first()[i - 1] == y);
                assert(s.drop_first().contains(y));
                assert(insert_sorted(x, s.drop_first()).contains(y));
                let j = choose|j: int|
                    0 <= j < insert_sorted(x, s.drop_first()).len() && insert_sorted(
                        x,
                        s.drop_first(),
                    )[j] == y;
                assert(r[j + 1] == y);
            }
        }
    }
}

/// Sorting keeps exactly the names it was given.
pub proof fn lemma_sort_names_contains(s: Seq<Seq<u8>>, y: Seq<u8>)
    ensures
        sort_names(s).contains(y) <==> s.contains(y),
        sort_names(s).len() == s.len(),
    decreases s.len(),
{
    if s.len() > 0 {
        lemma_sort_names_contains(s.drop_first(), y);
        lemma_insert_sorted_contains(s[0], sort_names(s.drop_first()), y);
        if s.contains(y) {
            let i = choose|i: int| 0 <= i < s.len() && s[i] == y;
            if i > 0 {
                assert(s.drop_first()[i - 1] == y);
            }
        }
        if s.drop_first().contains(y) {
            let i = choose|i: int| 0 <= i < s.drop_first().len() && s.drop_first()[i] == y;
            assert(s[i + 1] == y);
        }
    }
}

proof fn lemma_insert_sorted_ordered(x: Seq<u8>, s: Seq<Seq<u8>>)
    requires
        sorted_names(s),
    ensures
        sorted_names(insert_sorted(x, s)),
    decreases s.len(),
{
    if s.len() == 0 {
    } else if lex_le(x, s[0]) {
        let r = seq![x] + s;
        assert forall|i: int, j: int| 0 <= i < j < r.len() implies lex_le(
            #[trigger] r[i],
            #[trigger] r[j],
        ) by {
            if i == 0 {
                if j > 1 {
                    assert(lex_le(s[0], s[j - 1]));
                    lemma_lex_le_trans(x, s[0], s[j - 1]);
                }
            } else {
                assert(lex_le(s[i - 1], s[j - 1]));
            }
        }
    } else {
        assert(sorted_names(s.drop_first())) by {
            assert forall|i: int, j: int| 0 <= i < j < s.drop_first().len() implies lex_le(
                #[trigger] s.drop_first()[i],
                #[trigger] s.drop_first()[j],
            ) by {
                assert(s[i + 1] == s.drop_first()[i]);
                assert(s[j + 1] == s.drop_first()[j]);
            }
        }
        lemma_insert_sorted_ordered(x, s.drop_first());
        let t = insert_sorted(x, s.drop_first());
        let r = seq![s[0]] + t;
        lemma_lex_total(x, s[0]);
        assert(lex_le(s[0], x));
        assert forall|i: int, j: int| 0 <= i < j < r.len() implies lex_le(
            #[trigger] r[i],
            #[trigger] r[j],
        ) by {
            if i == 0 {
                assert(t[j - 1] == r[j]);
                assert(t.contains(t[j - 1]));
                lemma_insert_sorted_contains(x, s.drop_first(), t[j - 1]);
                if t[j - 1] == x {
                } else {
                    let k = choose|k: int|
                        0 <= k < s.drop_first().len() && s.drop_first()[k] == t[j - 1];
                    assert(s[k + 1] == t[j - 1]);
                    assert(lex_le(s[0], s[k + 1]));
                }
            } else {
                assert(lex_le(t[i - 1], t[j - 1]));
            }
        }
    }
}

pub proof fn lemma_lex_le_trans(a: Seq<u8>, b: Seq<u8>, c: Seq<u8>)
    requires
        lex_le(a, b),
        lex_le(b, c),
    ensures
        lex_le(a, c),
    decreases a.len(),
{
    if a.len() > 0 && b.len() > 0 && c.len() > 0 && a[0] == b[0] && b[0] == c[0] {
        lemma_lex_le_trans(a.drop_first(), b.drop_first(), c.drop_first());
    }
}

/// The aggregator's name ordering really is ordered.
pub proof fn lemma_sort_names_ordered(s: Seq<Seq<u8>>)
    ensures
        sorted_names(sort_names(s)),
    decreases s.len(),
{
    if s.len() > 0 {
        lemma_sort_names_ordered(s.drop_first());
        lemma_insert_sorted_ordered(s[0], sort_names(s.drop_first()));
    }
}

fn insert_sorted_exec(x: Vec<u8>, s: Vec<Vec<u8>>) -> (r: Vec<Vec<u8>>)
    ensures
        views(r@) == insert_sorted(x@, views(s@)),
    decreases s.len(),
{
    let ghost xv = x@;
    let ghost sv = views(s@);
    if s.len() == 0 {
        let mut r: Vec<Vec<u8>> = Vec::new();
        r.push(x);
        proof {
            assert(views(r@) =~= seq![xv]);
            assert(insert_sorted(xv, sv) == seq![xv]) by {
                assert(sv.len() == 0);
            }
        }
        r
    } else if lex_le_exec(&x, &s[0]) {
        let mut r = s;
        r.insert(0, x);
        proof {
            assert(views(r@) =~= seq![xv] + sv);
            assert(lex_le(xv, sv[0]));
        }
        r
    } else {
        let mut s = s;
        let h = s.remove(0);
        proof {
            assert(views(s@) =~= sv.drop_first());
        }
        let t = insert_sorted_exec(x, s);
        let mut r = t;
        r.insert(0, h);
        proof {
            assert(views(r@) =~= seq![sv[0]] + insert_sorted(xv, sv.drop_first()));
            assert(!lex_le(xv, sv[0]));
        }
        r
    }
}

/// Sorts the participant names.
pub fn sort_names_exec(names: &Vec<Vec<u8>>) -> (r: Vec<Vec<u8>>)
    ensures
        views(r@) == sort_names(views(names@)),
{
    let r = sort_from(names, 0);
    proof {
        assert(views(names@).skip(0) =~= views(names@));
    }
    r
}

fn sort_from(names: &Vec<Vec<u8>>, idx: usize) -> (r: Vec<Vec<u8>>)
    requires
        idx <= names.len(),
    ensures
        views(r@) == sort_names(views(names@).skip(idx as int)),
    decreases names.len() - idx,
{
    if idx == names.len() {
        proof {
            assert(views(names@).skip(idx as int) =~= Seq::<Seq<u8>>::empty());
            assert(views(Seq::<Vec<u8>>::empty()) =~= Seq::<Seq<u8>>::empty());
        }
        Vec::new()
    } else {
        let rest = sort_from(names, idx + 1);
        let r = insert_sorted_exec(copy_bytes(&names[idx]), rest);
        proof {
            let vs = views(names@).skip(idx as int);
            assert(vs[0] == names@[idx as int]@);
            assert(vs.drop_first() =~= views(names@).skip(idx as int + 1));
        }
        r
    }
}

/// The mathematical content of a validated genesis input set.
pub ghost struct InputSetModel {
    pub chain_id: u8,
    pub is_test: bool,
    pub root_key: Seq<u8>,
    pub users: Seq<Seq<u8>>,
    pub bundles: Seq<BundleModel>,
    pub balances: Seq<(Seq<u8>, u64)>,
    pub vesting: Seq<Seq<u8>>,
    pub framework: Seq<u8>,
}

/// The views of a sequence of bundles.
pub open spec fn bundle_views(s: Seq<ParticipantBundle>) -> Seq<BundleModel> {
    Seq::new(s.len(), |i: int| s[i]@)
}

/// The fully validated aggregate handed to the ledger genesis builder:
/// complete and valid, or never produced.
#[derive(Debug, PartialEq, Eq)]
pub struct GenesisInputSet {
    pub chain_id: u8,
    pub is_test: bool,
    pub root_key: Vec<u8>,
    pub users: Vec<Vec<u8>>,
    pub bundles: Vec<ParticipantBundle>,
    pub balances: Vec<(Vec<u8>, u64)>,
    pub vesting: Vec<Vec<u8>>,
    pub framework: Vec<u8>,
}

impl View for GenesisInputSet {
    type V = InputSetModel;

    open spec fn view(&self) -> InputSetModel {
        InputSetModel {
            chain_id: self.chain_id,
            is_test: self.is_test,
            root_key: self.root_key@,
            users: views(self.users@),
            bundles: bundle_views(self.bundles@),
            balances: balance_views(self.balances@),
            vesting: views(self.vesting@),
            framework: self.framework@,
        }
    }
}

/// How an aggregation attempt fails, over mathematical values.
pub ghost enum AggError {
    Schema,
    MissingRootKey,
    MissingParticipant(Seq<u8>),
    DuplicateParticipant(Seq<u8>),
    DuplicateAddress,
    NotFound,
}

/// The executable error that stands for an abstract aggregation error.
pub open spec fn err_matches(e: GenesisError, m: AggError) -> bool {
    match m {
        AggError::Schema => e == GenesisError::SchemaError,
        AggError::MissingRootKey => e == GenesisError::MissingRootKey,
        AggError::MissingParticipant(n) => e matches GenesisError::MissingParticipant(v) && v@ == n,
        AggError::DuplicateParticipant(n) => e matches GenesisError::DuplicateParticipant(v) && v@
            == n,
        AggError::DuplicateAddress => e == GenesisError::DuplicateAddress,
        AggError::NotFound => e == GenesisError::NotFound,
    }
}

/// The first listed name with no published bundle in the store.
pub open spec fn first_missing(snap: Map<Seq<u8>, Seq<u8>>, names: Seq<Seq<u8>>) -> Option<Seq<u8>>
    decreases names.len(),
{
    if names.len() == 0 {
        None
    } else if !snap.contains_key(participant_path(names[0])) {
        Some(names[0])
    } else {
        first_missing(snap, names.drop_first())
    }
}

/// When every name before `i` is present, the verdict is decided from `i` on.
proof fn lemma_first_missing_from(snap: Map<Seq<u8>, Seq<u8>>, names: Seq<Seq<u8>>, i: int)
    requires
        0 <= i <= names.len(),
        forall|j: int| 0 <= j < i ==> snap.contains_key(participant_path(#[trigger] names[j])),
    ensures
        first_missing(snap, names) == first_missing(snap, names.skip(i)),
    decreases i,
{
    if i > 0 {
        assert(snap.contains_key(participant_path(names[0])));
        assert(names.drop_first().skip(i - 1) =~= names.skip(i));
        assert forall|j: int| 0 <= j < i - 1 implies snap.contains_key(
            participant_path(#[trigger] names.drop_first()[j]),
        ) by {
            assert(names.drop_first()[j] == names[j + 1]);
        }
        lemma_first_missing_from(snap, names.drop_first(), i - 1);
    } else {
        assert(names.skip(0) =~= names);
    }
}

/// Every published bundle of the listed names, parsed; `None` when any one
/// is malformed.
pub open spec fn read_bundles(snap: Map<Seq<u8>, Seq<u8>>, names: Seq<Seq<u8>>) -> Option<
    Seq<BundleModel>,
> {
    if exists|i: int|
        0 <= i < names.len() && parse_bundle(snap[participant_path(#[trigger] names[i])]) is None {
        None
    } else {
        Some(
            Seq::new(
                names.len(),
                |i: int| parse_bundle(snap[participant_path(names[i])])->Some_0,
            ),
        )
    }
}

/// The addresses of a balance entry sequence.
pub open spec fn addr_seq(es: Seq<(Seq<u8>, u64)>) -> Seq<Seq<u8>> {
    Seq::new(es.len(), |i: int| es[i].0)
}

/// The total of all balances.
pub open spec fn sum_balances(es: Seq<(Seq<u8>, u64)>) -> int
    decreases es.len(),
{
    if es.len() == 0 {
        0
    } else {
        sum_balances(es.drop_last()) + es.last().1
    }
}

proof fn lemma_sum_balances_prefix(es: Seq<(Seq<u8>, u64)>, k: int)
    requires
        0 <= k <= es.len(),
    ensures
        sum_balances(es.take(k)) <= sum_balances(es),
    decreases es.len() - k,
{
    if k == es.len() {
        assert(es.take(k) =~= es);
    } else {
        assert(es.take(k + 1).drop_last() =~= es.take(k));
        assert(es.take(k + 1).last() == es[k]);
        lemma_sum_balances_prefix(es, k + 1);
    }
}

/// Reads and validates the balances file named by the layout, if any.
pub open spec fn balances_step(snap: Map<Seq<u8>, Seq<u8>>, r: Option<Seq<u8>>) -> Result<
    Seq<(Seq<u8>, u64)>,
    AggError,
> {
    match r {
        None => Ok(Seq::empty()),
        Some(p) => if !snap.contains_key(p) {
            Err(AggError::NotFound)
        } else {
            match parse_balances(snap[p]) {
                None => Err(AggError::Schema),
                Some(es) => if first_dup(addr_seq(es)) is Some {
                    Err(AggError::DuplicateAddress)
                } else if sum_balances(es) > u64::MAX {
                    Err(AggError::Schema)
                } else {
                    Ok(es)
                },
            }
        },
    }
}

/// Reads the vesting file named by the layout, if any; an empty record set
/// is valid and common.
pub open spec fn vesting_step(snap: Map<Seq<u8>, Seq<u8>>, r: Option<Seq<u8>>) -> Result<
    Seq<Seq<u8>>,
    AggError,
> {
    match r {
        None => Ok(Seq::empty()),
        Some(p) => if !snap.contains_key(p) {
            Err(AggError::NotFound)
        } else {
            match parse_vesting(snap[p]) {
                None => Err(AggError::Schema),
                Some(rs) => Ok(rs),
            }
        },
    }
}

/// What aggregation yields on a given coordination-store snapshot: a pure
/// function of the snapshot, so two runs can never disagree.
pub open spec fn spec_aggregate(snap: Map<Seq<u8>, Seq<u8>>) -> Result<InputSetModel, AggError> {
    if !snap.contains_key(layout_path()) {
        Err(AggError::NotFound)
    } else {
        match parse_layout(snap[layout_path()]) {
            None => Err(AggError::Schema),
            Some(lay) => match lay.root_key {
                None => Err(AggError::MissingRootKey),
                Some(rk) => match first_dup(lay.users) {
                    Some(d) => Err(AggError::DuplicateParticipant(d)),
                    None => {
                        let sorted = sort_names(lay.users);
                        match first_missing(snap, sorted) {
                            Some(nm) => Err(AggError::MissingParticipant(nm)),
                            None => match read_bundles(snap, sorted) {
                                None => Err(AggError::Schema),
                                Some(bundles) => match balances_step(snap, lay.balances_ref) {
                                    Err(e) => Err(e),
                                    Ok(bal) => match vesting_step(snap, lay.vesting_ref) {
                                        Err(e) => Err(e),
                                        Ok(vest) => if !snap.contains_key(framework_path()) {
                                            Err(AggError::NotFound)
                                        } else {
                                            Ok(
                                                InputSetModel {
                                                    chain_id: lay.chain_id,
                                                    is_test: lay.is_test,
                                                    root_key: rk,
                                                    users: sorted,
                                                    bundles: bundles,
                                                    balances: bal,
                                                    vesting: vest,
                                                    framework: snap[framework_path()],
                                                },
                                            )
                                        },
                                    },
                                },
                            },
                        }
                    },
                },
            },
        }
    }
}

/// Reads every listed participant's published file, in the given order,
/// failing with the first missing name.
fn read_participant_files(store: &CoordinationStore, sorted: &Vec<Vec<u8>>) -> (r: Result<
    Vec<Vec<u8>>,
    GenesisError,
>)
    ensures
        match r {
            Ok(raw) => {
                &&& first_missing(store@, views(sorted@)) is None
                &&& raw@.len() == sorted@.len()
                &&& forall|j: int|
                    0 <= j < raw@.len() ==> store@.contains_key(
                        participant_path(#[trigger] views(sorted@)[j]),
                    ) && raw@[j]@ == store@[participant_path(views(sorted@)[j])]
            },
            Err(e) => {
                &&& e matches GenesisError::MissingParticipant(v)
                &&& first_missing(store@, views(sorted@)) == Some(v@)
            },
        },
{
    let ghost snap = store@;
    let ghost snames = views(sorted@);
    let mut raw: Vec<Vec<u8>> = Vec::new();
    let mut i: usize = 0;
    while i < sorted.len()
        invariant
            i <= sorted.len(),
            snap == store@,
            snames == views(sorted@),
            raw@.len() == i,
            forall|j: int| 0 <= j < i ==> snap.contains_key(participant_path(#[trigger] snames[j])),
            forall|j: int| 0 <= j < i ==> (#[trigger] raw@[j])@ == snap[participant_path(snames[j])],
        decreases sorted.len() - i,
    {
        let p = participant_path_vec(&sorted[i]);
        match store.read(&p) {
            None => {
                proof {
                    lemma_first_missing_from(snap, snames, i as int);
                    assert(snames.skip(i as int)[0] == snames[i as int]);
                }
                return Err(GenesisError::MissingParticipant(copy_bytes(&sorted[i])));
            },
            Some(b) => {
                raw.push(b);
            },
        }
        i = i + 1;
    }
    proof {
        lemma_first_missing_from(snap, snames, snames.len() as int);
        assert(snames.skip(snames.len() as int) =~= Seq::<Seq<u8>>::empty());
    }
    Ok(raw)
}

/// Parses every read participant file, failing on the first malformed one.
fn parse_participant_files(raw: &Vec<Vec<u8>>) -> (r: Result<Vec<ParticipantBundle>, GenesisError>)
    ensures
        match r {
            Ok(bs) => {
                &&& bs@.len() == raw@.len()
                &&& forall|j: int|
                    0 <= j < raw@.len() ==> parse_bundle((#[trigger] raw@[j])@) is Some
                        && bs@[j]@ == parse_bundle(raw@[j]@)->Some_0
            },
            Err(e) => e == GenesisError::SchemaError && exists|j: int|
                0 <= j < raw@.len() && parse_bundle((#[trigger] raw@[j])@) is None,
        },
{
    let mut bs: Vec<ParticipantBundle> = Vec::new();
    let mut i: usize = 0;
    while i < raw.len()
        invariant
            i <= raw.len(),
            bs@.len() == i,
            forall|j: int|
                0 <= j < i ==> parse_bundle((#[trigger] raw@[j])@) is Some && bs@[j]@
                    == parse_bundle(raw@[j]@)->Some_0,
        decreases raw.len() - i,
    {
        match ParticipantBundle::load(&raw[i]) {
            Err(_) => {
                return Err(GenesisError::SchemaError);
            },
            Ok(b) => {
                bs.push(b);
            },
        }
        i = i + 1;
    }
    Ok(bs)
}

/// Reads and validates the balances file at `rp`.
fn balances_from_store(store: &CoordinationStore, rp: &Vec<u8>) -> (r: Result<
    Vec<(Vec<u8>, u64)>,
    GenesisError,
>)
    ensures
        match r {
            Ok(es) => balances_step(store@, Some(rp@)) == Ok::<_, AggError>(balance_views(es@)),
            Err(e) => balances_step(store@, Some(rp@)) matches Err(em) && err_matches(e, em),
        },
{
    let bb = match store.read(rp) {
        None => return Err(GenesisError::NotFound),
        Some(b) => b,
    };
    let es = match crate::schema::load_balances(&bb) {
        Err(e) => return Err(e),
        Ok(es) => es,
    };
    let mut addrs: Vec<Vec<u8>> = Vec::new();
    let mut k: usize = 0;
    while k < es.len()
        invariant
            k <= es.len(),
            addrs@.len() == k,
            forall|j: int| 0 <= j < k ==> (#[trigger] addrs@[j])@ == es@[j].0@,
        decreases es.len() - k,
    {
        addrs.push(copy_bytes(&es[k].0));
        k = k + 1;
    }
    proof {
        assert(views(addrs@) =~= addr_seq(balance_views(es@)));
    }
    match crate::schema::find_dup(&addrs) {
        Some(_) => return Err(GenesisError::DuplicateAddress),
        None => {},
    }
    let ghost bv = balance_views(es@);
    let mut total: u64 = 0;
    let mut k: usize = 0;
    proof {
        assert(bv.take(0) =~= Seq::<(Seq<u8>, u64)>::empty());
    }
    while k < es.len()
        invariant
            k <= es.len(),
            bv == balance_views(es@),
            total == sum_balances(bv.take(k as int)),
            store@.contains_key(rp@),
            parse_balances(store@[rp@]) == Some(bv),
            first_dup(addr_seq(bv)) is None,
        decreases es.len() - k,
    {
        proof {
            assert(bv.take(k as int + 1).drop_last() =~= bv.take(k as int));
            assert(bv.take(k as int + 1).last() == bv[k as int]);
        }
        total = match total.checked_add(es[k].1) {
            Some(t) => t,
            None => {
                proof {
                    lemma_sum_balances_prefix(bv, k as int + 1);
                }
                return Err(GenesisError::SchemaError);
            },
        };
        k = k + 1;
    }
    proof {
        assert(bv.take(es@.len() as int) =~= bv);
    }
    Ok(es)
}

/// Reads and parses the vesting file at `rp`.
fn vesting_from_store(store: &CoordinationStore, rp: &Vec<u8>) -> (r: Result<
    Vec<Vec<u8>>,
    GenesisError,
>)
    ensures
        match r {
            Ok(rs) => vesting_step(store@, Some(rp@)) == Ok::<_, AggError>(views(rs@)),
            Err(e) => vesting_step(store@, Some(rp@)) matches Err(em) && err_matches(e, em),
        },
{
    let vb = match store.read(rp) {
        None => return Err(GenesisError::NotFound),
        Some(b) => b,
    };
    match crate::schema::load_vesting(&vb) {
        Err(e) => Err(e),
        Ok(rs) => Ok(rs),
    }
}

/// Reads, validates and assembles the genesis input set from the store.
#[verifier::rlimit(100)]
pub fn aggregate(store: &CoordinationStore) -> (r: Result<GenesisInputSet, GenesisError>)
    ensures
        match spec_aggregate(store@) {
            Ok(m) => r matches Ok(g) && g@ == m,
            Err(em) => r matches Err(e) && err_matches(e, em),
        },
{
    let ghost snap = store@;
    let lp = layout_path_vec();
    let lb = match store.read(&lp) {
        None => return Err(GenesisError::NotFound),
        Some(b) => b,
    };
    let lay = match LayoutDescriptor::load(&lb) {
        Err(e) => return Err(e),
        Ok(d) => d,
    };
    let rk = match &lay.root_key {
        None => return Err(GenesisError::MissingRootKey),
        Some(k) => copy_bytes(k),
    };
    match lay.validate() {
        Err(e) => return Err(e),
        Ok(()) => {},
    }
    let sorted = sort_names_exec(&lay.users);
    let ghost snames = sort_names(views(lay.users@));
    let raw = match read_participant_files(store, &sorted) {
        Err(e) => return Err(e),
        Ok(raw) => raw,
    };
    let bundles = match parse_participant_files(&raw) {
        Err(e) => {
            proof {
                let j = choose|j: int| 0 <= j < raw@.len() && parse_bundle((#[trigger] raw@[j])@) is None;
                assert(parse_bundle(store@[participant_path(snames[j])]) is None);
                assert(read_bundles(snap, snames) is None);
            }
            return Err(e);
        },
        Ok(bs) => bs,
    };
    proof {
        assert(read_bundles(snap, snames) is Some);
        assert(bundle_views(bundles@) =~= read_bundles(snap, snames)->Some_0);
    }
    let balances: Vec<(Vec<u8>, u64)> = match &lay.balances_ref {
        None => {
            proof {
                assert(balance_views(Seq::<(Vec<u8>, u64)>::empty()) =~= Seq::<
                    (Seq<u8>, u64),
                >::empty());
            }
            Vec::new()
        },
        Some(rp) => match balances_from_store(store, rp) {
            Err(e) => return Err(e),
            Ok(es) => es,
        },
    };
    let vesting: Vec<Vec<u8>> = match &lay.vesting_ref {
        None => {
            proof {
                assert(views(Seq::<Vec<u8>>::empty()) =~= Seq::<Seq<u8>>::empty());
            }
            Vec::new()
        },
        Some(rp) => match vesting_from_store(store, rp) {
            Err(e) => return Err(e),
            Ok(rs) => rs,
        },
    };
    let fp = framework_path_vec();
    let framework = match store.read(&fp) {
        None => return Err(GenesisError::NotFound),
        Some(b) => b,
    };
    let g = GenesisInputSet {
        chain_id: lay.chain_id,
        is_test: lay.is_test,
        root_key: rk,
        users: sorted,
        bundles,
        balances,
        vesting,
        framework,
    };
    Ok(g)
}

/// The paired `- name` line and bundle body for each participant, in
/// sorted order.
pub open spec fn encode_pairs(users: Seq<Seq<u8>>, bundles: Seq<BundleModel>) -> Seq<u8>
    decreases users.len(),
{
    if users.len() == 0 || bundles.len() == 0 {
        Seq::empty()
    } else {
        crate::schema::val_line(lit("- "), users[0]) + bundle_bytes(bundles[0]) + encode_pairs(
            users.drop_first(),
            bundles.drop_first(),
        )
    }
}

/// The canonical byte encoding of a genesis input set: the artifact body.
/// A function of the input set alone, so byte-identical across runs.
pub open spec fn encode_input_set(m: InputSetModel) -> Seq<u8> {
    crate::schema::dec_line(lit("chain_id: "), m.chain_id as nat) + crate::schema::dec_line(
        lit("is_test: "),
        if m.is_test {
            1
        } else {
            0
        },
    ) + crate::schema::val_line(lit("root_key: "), hex_of(m.root_key)) + crate::schema::dec_line(
        lit("users: "),
        m.users.len(),
    ) + encode_pairs(m.users, m.bundles) + balances_bytes(m.balances) + vesting_bytes(m.vesting)
        + crate::schema::dec_line(lit("framework: "), m.framework.len()) + m.framework
}

/// An encoded input set is never empty.
pub proof fn lemma_encode_nonempty(m: InputSetModel)
    ensures
        encode_input_set(m).len() > 0,
{
    crate::codec::lemma_dec_digits_are_digits(m.chain_id as nat);
}

fn push_pairs(out: &mut Vec<u8>, users: &Vec<Vec<u8>>, bundles: &Vec<ParticipantBundle>, idx: usize)
    requires
        idx <= users.len(),
        idx <= bundles.len(),
    ensures
        final(out)@ == old(out)@ + encode_pairs(
            views(users@).skip(idx as int),
            bundle_views(bundles@).skip(idx as int),
        ),
    decreases users.len() - idx,
{
    let ghost us = views(users@).skip(idx as int);
    let ghost bs = bundle_views(bundles@).skip(idx as int);
    if idx == users.len() || idx == bundles.len() {
        proof {
            assert(us.len() == 0 || bs.len() == 0);
            assert(old(out)@ + Seq::<u8>::empty() =~= old(out)@);
        }
    } else {
        crate::schema::push_val_line_pub(out, "- ", &users[idx]);
        let bb = bundles[idx].serialize();
        push_all(out, &bb);
        push_pairs(out, users, bundles, idx + 1);
        proof {
            assert(us[0] == users@[idx as int]@);
            assert(bs[0] == bundles@[idx as int]@);
            assert(us.drop_first() =~= views(users@).skip(idx as int + 1));
            assert(bs.drop_first() =~= bundle_views(bundles@).skip(idx as int + 1));
            assert(old(out)@ + encode_pairs(us, bs) =~= ((old(out)@ + crate::schema::val_line(
                lit("- "),
                us[0],
            )) + bundle_bytes(bs[0])) + encode_pairs(
                views(users@).skip(idx as int + 1),
                bundle_views(bundles@).skip(idx as int + 1),
            ));
        }
    }
}

impl GenesisInputSet {
    /// Encodes the input set into the genesis artifact body.
    pub fn encode(&self) -> (r: Vec<u8>)
        ensures
            r@ == encode_input_set(self@),
    {
        let mut out: Vec<u8> = Vec::new();
        crate::schema::push_dec_line_pub(&mut out, "chain_id: ", self.chain_id as u64);
        crate::schema::push_dec_line_pub(&mut out, "is_test: ", if self.is_test { 1 } else { 0 });
        let kf = crate::codec::to_hex(&self.root_key);
        crate::schema::push_val_line_pub(&mut out, "root_key: ", &kf);
        crate::schema::push_dec_line_pub(&mut out, "users: ", self.users.len() as u64);
        push_pairs(&mut out, &self.users, &self.bundles, 0);
        proof {
            assert(views(self.users@).skip(0) =~= views(self.users@));
            assert(bundle_views(self.bundles@).skip(0) =~= bundle_views(self.bundles@));
        }
        let bb = crate::schema::serialize_balances(&self.balances);
        push_all(&mut out, &bb);
        let vb = crate::schema::serialize_vesting(&self.vesting);
        push_all(&mut out, &vb);
        crate::schema::push_dec_line_pub(&mut out, "framework: ", self.framework.len() as u64);
        push_all(&mut out, &self.framework);
        proof {
            assert(out@ =~= encode_input_set(self@));
        }
        out
    }
}

/// What the whole pipeline yields on a snapshot: the artifact body and the
/// waypoint text, or the first error.
pub open spec fn spec_pipeline(snap: Map<Seq<u8>, Seq<u8>>) -> Result<(Seq<u8>, Seq<u8>), AggError> {
    match spec_aggregate(snap) {
        Err(e) => Err(e),
        Ok(m) => {
            let blob = encode_input_set(m);
            Ok(
                (
                    blob,
                    crate::waypoint::waypoint_text(
                        crate::waypoint::Waypoint {
                            version: 0,
                            digest: crate::waypoint::digest64(blob),
                        },
                    ),
                ),
            )
        },
    }
}

/// Runs aggregation, artifact encoding and waypoint derivation: the
/// contents of `genesis.blob` and `waypoint.txt` for this snapshot.
pub fn run_genesis(store: &CoordinationStore) -> (r: Result<(Vec<u8>, Vec<u8>), GenesisError>)
    ensures
        match spec_pipeline(store@) {
            Ok(p) => r matches Ok(o) && o.0@ == p.0 && o.1@ == p.1,
            Err(em) => r matches Err(e) && err_matches(e, em),
        },
{
    let input = match aggregate(store) {
        Err(e) => return Err(e),
        Ok(g) => g,
    };
    let blob = input.encode();
    proof {
        lemma_encode_nonempty(input@);
    }
    let wp = match crate::waypoint::Waypoint::derive(&blob) {
        Err(_) => return Err(GenesisError::InvalidArtifact),
        Ok(w) => w,
    };
    let text = wp.to_text();
    Ok((blob, text))
}

/// Name of the artifact file in the output directory.
pub fn genesis_blob_name() -> (r: Vec<u8>)
    ensures
        r@ == lit("genesis.blob"),
{
    lit_bytes("genesis.blob")
}

/// Name of the waypoint file in the output directory.
pub fn waypoint_file_name() -> (r: Vec<u8>)
    ensures
        r@ == lit("waypoint.txt"),
{
    lit_bytes("waypoint.txt")
}

/// Path of the balances file reference the helpers use.
pub open spec fn balances_file_path() -> Seq<u8> {
    lit("balances")
}

/// Path of the vesting file reference the helpers use.
pub open spec fn vesting_file_path() -> Seq<u8> {
    lit("vesting")
}

/// Builds the balances file path.
pub fn balances_file_path_vec() -> (r: Vec<u8>)
    ensures
        r@ == balances_file_path(),
{
    lit_bytes("balances")
}

/// Builds the vesting file path.
pub fn vesting_file_path_vec() -> (r: Vec<u8>)
    ensures
        r@ == vesting_file_path(),
{
    lit_bytes("vesting")
}

/// Writes a serialized layout manifest into the store, at its well-known
/// path.
pub fn setup_store(store: &mut CoordinationStore, layout: &LayoutDescriptor)
    ensures
        final(store)@ == old(store)@.insert(layout_path(), layout_bytes(layout@)),
{
    let p = layout_path_vec();
    let data = layout.serialize();
    store.write(&p, &data);
}

/// Pins the framework bundle into the store, at its well-known path.
pub fn add_framework(store: &mut CoordinationStore, framework: &Vec<u8>)
    ensures
        final(store)@ == old(store)@.insert(framework_path(), framework@),
{
    let p = framework_path_vec();
    store.write(&p, framework);
}

/// Builds a bundle from plain values and publishes it under `username`.
pub fn set_validator_config(
    store: &mut CoordinationStore,
    username: &Vec<u8>,
    owner_key: Vec<u8>,
    host: Vec<u8>,
    port: u16,
    stake: u64,
    commission: u8,
) -> (b: ParticipantBundle)
    ensures
        b@ == (BundleModel {
            owner: owner_key@,
            operator: None,
            voter: None,
            host: host@,
            port,
            stake,
            commission,
        }),
        final(store)@ == old(store)@.insert(participant_path(username@), bundle_bytes(b@)),
{
    let b = ParticipantBundle {
        owner: owner_key,
        operator: None,
        voter: None,
        host,
        port,
        stake,
        commission,
    };
    publish(store, username, &b);
    b
}

/// Writes the account balances file: one address/balance pair per entry.
pub fn create_account_balances_file(
    store: &mut CoordinationStore,
    addresses: &Vec<Vec<u8>>,
    balances: &Vec<u64>,
)
    requires
        addresses@.len() == balances@.len(),
    ensures
        final(store)@ == old(store)@.insert(
            balances_file_path(),
            balances_bytes(
                Seq::new(addresses@.len() as nat, |i: int| (addresses@[i]@, balances@[i])),
            ),
        ),
{
    let mut es: Vec<(Vec<u8>, u64)> = Vec::new();
    let mut i: usize = 0;
    while i < addresses.len()
        invariant
            i <= addresses.len(),
            addresses@.len() == balances@.len(),
            es@.len() == i,
            forall|j: int|
                0 <= j < i ==> (#[trigger] es@[j]).0@ == addresses@[j]@ && es@[j].1 == balances@[j],
        decreases addresses.len() - i,
    {
        es.push((copy_bytes(&addresses[i]), balances[i]));
        i = i + 1;
    }
    proof {
        assert(balance_views(es@) =~= Seq::new(
            addresses@.len() as nat,
            |i: int| (addresses@[i]@, balances@[i]),
        ));
    }
    let data = crate::schema::serialize_balances(&es);
    let p = balances_file_path_vec();
    store.write(&p, &data);
}

/// Writes an empty employee vesting file: a valid, common case.
pub fn create_employee_vesting_accounts_file(store: &mut CoordinationStore)
    ensures
        final(store)@ == old(store)@.insert(
            vesting_file_path(),
            vesting_bytes(Seq::<Seq<u8>>::empty()),
        ),
{
    let rs: Vec<Vec<u8>> = Vec::new();
    proof {
        assert(views(rs@) =~= Seq::<Seq<u8>>::empty());
    }
    let data = crate::schema::serialize_vesting(&rs);
    let p = vesting_file_path_vec();
    store.write(&p, &data);
}

/// The generated name of the `i`-th test participant.
pub open spec fn user_name(i: u8) -> Seq<u8> {
    lit("user-") + dec_digits(i as nat)
}

/// Builds the generated name of the `i`-th test participant.
pub fn user_name_vec(i: u8) -> (r: Vec<u8>)
    ensures
        r@ == user_name(i),
{
    let mut r = lit_bytes("user-");
    let d = u64_to_dec(i as u64);
    push_all(&mut r, &d);
    r
}

/// The bundle the `i`-th test participant publishes.
pub open spec fn user_bundle(i: u8) -> BundleModel {
    BundleModel {
        owner: key_material(i),
        operator: None,
        voter: None,
        host: lit("localhost"),
        port: 6180,
        stake: 100000000000000,
        commission: 0,
    }
}

/// The layout the test coordinator writes for `n` generated participants.
pub open spec fn users_layout(n: u8) -> LayoutModel {
    LayoutModel {
        root_key: Some(key_material((n + 1) as u8)),
        chain_id: 4,
        users: Seq::new(n as nat, |i: int| user_name(i as u8)),
        is_test: true,
        balances_ref: None,
        vesting_ref: None,
    }
}

/// The store contents after the first `n` generated participants have
/// published, over a base snapshot.
pub open spec fn users_store(base: Map<Seq<u8>, Seq<u8>>, n: nat) -> Map<Seq<u8>, Seq<u8>>
    decreases n,
{
    if n == 0 {
        base
    } else {
        users_store(base, (n - 1) as nat).insert(
            participant_path(user_name((n - 1) as u8)),
            bundle_bytes(user_bundle((n - 1) as u8)),
        )
    }
}

/// Writes a layout for `num_users` generated participants and publishes a
/// bundle for each, with seeded deterministic key material.
pub fn create_users(store: &mut CoordinationStore, num_users: u8)
    requires
        num_users < 255,
    ensures
        final(store)@ == users_store(
            old(store)@.insert(layout_path(), layout_bytes(users_layout(num_users))),
            num_users as nat,
        ),
{
    let mut names: Vec<Vec<u8>> = Vec::new();
    let mut i: u8 = 0;
    while i < num_users
        invariant
            i <= num_users,
            names@.len() == i as int,
            forall|j: int| 0 <= j < i as int ==> (#[trigger] names@[j])@ == user_name(j as u8),
        decreases num_users - i,
    {
        names.push(user_name_vec(i));
        i = i + 1;
    }
    let root_key = generate_key_material(num_users + 1);
    let layout = LayoutDescriptor {
        root_key: Some(root_key),
        chain_id: 4,
        users: names,
        is_test: true,
        balances_ref: None,
        vesting_ref: None,
    };
    proof {
        assert(layout@.users =~= users_layout(num_users).users);
        assert(layout@ == users_layout(num_users));
    }
    setup_store(store, &layout);
    let ghost base = old(store)@.insert(layout_path(), layout_bytes(users_layout(num_users)));
    let mut i: u8 = 0;
    while i < num_users
        invariant
            i <= num_users,
            store@ == users_store(base, i as nat),
        decreases num_users - i,
    {
        let name = user_name_vec(i);
        let key = generate_key_material(i);
        let host = lit_bytes("localhost");
        let b = set_validator_config(store, &name, key, host, 6180, 100000000000000, 0);
        proof {
            assert(b@ == user_bundle(i));
        }
        i = i + 1;
    }
}

/// Determinism: what aggregation, artifact encoding and waypoint
/// derivation yield is a function of the coordination-store snapshot
/// alone. Two runs over equal snapshots produce byte-identical artifact
/// bodies and waypoint text.
pub proof fn lemma_run_deterministic(s1: Map<Seq<u8>, Seq<u8>>, s2: Map<Seq<u8>, Seq<u8>>)
    requires
        s1 == s2,
    ensures
        spec_pipeline(s1) == spec_pipeline(s2),
{
}

proof fn lemma_first_missing_none_iff(snap: Map<Seq<u8>, Seq<u8>>, names: Seq<Seq<u8>>)
    ensures
        first_missing(snap, names) is None <==> (forall|i: int|
            0 <= i < names.len() ==> snap.contains_key(participant_path(#[trigger] names[i]))),
        first_missing(snap, names) matches Some(nm) ==> names.contains(nm)
            && !snap.contains_key(participant_path(nm)),
    decreases names.len(),
{
    if names.len() == 0 {
    } else if !snap.contains_key(participant_path(names[0])) {
        assert(names.contains(names[0]));
    } else {
        lemma_first_missing_none_iff(snap, names.drop_first());
        if first_missing(snap, names) is None {
            assert forall|i: int| 0 <= i < names.len() implies snap.contains_key(
                participant_path(#[trigger] names[i]),
            ) by {
                if i > 0 {
                    assert(names.drop_first()[i - 1] == names[i]);
                }
            }
        }
        if forall|i: int|
            0 <= i < names.len() ==> snap.contains_key(participant_path(#[trigger] names[i])) {
            assert forall|i: int| 0 <= i < names.drop_first().len() implies snap.contains_key(
                participant_path(#[trigger] names.drop_first()[i]),
            ) by {
                assert(names.drop_first()[i] == names[i + 1]);
            }
        }
        match first_missing(snap, names.drop_first()) {
            Some(nm) => {
                let i = choose|i: int|
                    0 <= i < names.drop_first().len() && names.drop_first()[i] == nm;
                assert(names[i + 1] == nm);
            },
            None => {},
        }
    }
}

/// The completeness gate, both ways: with a well-formed layout whose names
/// are unique, aggregation reports a missing participant exactly when some
/// listed name has no published bundle, and the name it reports is listed
/// and unpublished. Extra unlisted bundles never cause this.
#[verifier::rlimit(100)]
pub proof fn lemma_completeness_gate(snap: Map<Seq<u8>, Seq<u8>>)
    requires
        snap.contains_key(layout_path()),
        parse_layout(snap[layout_path()]) is Some,
        parse_layout(snap[layout_path()])->Some_0.root_key is Some,
        first_dup(parse_layout(snap[layout_path()])->Some_0.users) is None,
    ensures
        (spec_aggregate(snap) matches Err(e) && e is MissingParticipant) <==> (exists|i: int|
            0 <= i < parse_layout(snap[layout_path()])->Some_0.users.len()
                && !snap.contains_key(
                participant_path(#[trigger] parse_layout(snap[layout_path()])->Some_0.users[i]),
            )),
        spec_aggregate(snap) matches Err(AggError::MissingParticipant(nm))
            ==> parse_layout(snap[layout_path()])->Some_0.users.contains(nm)
                && !snap.contains_key(participant_path(nm)),
{
    let lay = parse_layout(snap[layout_path()])->Some_0;
    let sorted = sort_names(lay.users);
    lemma_first_missing_none_iff(snap, sorted);
    if exists|i: int|
        0 <= i < lay.users.len() && !snap.contains_key(
            participant_path(#[trigger] lay.users[i]),
        ) {
        let i = choose|i: int|
            0 <= i < lay.users.len() && !snap.contains_key(participant_path(#[trigger] lay.users[i]));
        assert(lay.users.contains(lay.users[i]));
        lemma_sort_names_contains(lay.users, lay.users[i]);
        let j = choose|j: int| 0 <= j < sorted.len() && sorted[j] == lay.users[i];
        assert(!snap.contains_key(participant_path(sorted[j])));
        assert(first_missing(snap, sorted) is Some);
    }
    match first_missing(snap, sorted) {
        Some(nm) => {
            lemma_sort_names_contains(lay.users, nm);
            let i = choose|i: int| 0 <= i < lay.users.len() && lay.users[i] == nm;
            assert(!snap.contains_key(participant_path(lay.users[i])));
        },
        None => {
            assert(!(spec_aggregate(snap) matches Err(e) && e is MissingParticipant));
        },
    }
}

/// Duplicate names are rejected before any participant bundle is read:
/// the verdict is `DuplicateParticipant`, and writing any participant
/// bundle into the store cannot change it.
pub proof fn lemma_duplicate_rejected_before_reads(
    snap: Map<Seq<u8>, Seq<u8>>,
    n: Seq<u8>,
    v: Seq<u8>,
)
    requires
        snap.contains_key(layout_path()),
        parse_layout(snap[layout_path()]) is Some,
        parse_layout(snap[layout_path()])->Some_0.root_key is Some,
        first_dup(parse_layout(snap[layout_path()])->Some_0.users) is Some,
        participant_path(n) != layout_path(),
    ensures
        spec_aggregate(snap) == Err::<InputSetModel, AggError>(
            AggError::DuplicateParticipant(
                first_dup(parse_layout(snap[layout_path()])->Some_0.users)->Some_0,
            ),
        ),
        spec_aggregate(snap.insert(participant_path(n), v)) == spec_aggregate(snap),
{
    let snap2 = snap.insert(participant_path(n), v);
    assert(snap2.contains_key(layout_path()));
    assert(snap2[layout_path()] == snap[layout_path()]);
}

proof fn lemma_first_missing_agree(
    s1: Map<Seq<u8>, Seq<u8>>,
    s2: Map<Seq<u8>, Seq<u8>>,
    names: Seq<Seq<u8>>,
)
    requires
        forall|i: int|
            0 <= i < names.len() ==> s1.contains_key(participant_path(#[trigger] names[i]))
                == s2.contains_key(participant_path(names[i])),
    ensures
        first_missing(s1, names) == first_missing(s2, names),
    decreases names.len(),
{
    if names.len() > 0 {
        assert forall|i: int| 0 <= i < names.drop_first().len() implies s1.contains_key(
            participant_path(#[trigger] names.drop_first()[i]),
        ) == s2.contains_key(participant_path(names.drop_first()[i])) by {
            assert(names.drop_first()[i] == names[i + 1]);
        }
        lemma_first_missing_agree(s1, s2, names.drop_first());
    }
}

/// Extra store entries are ignored: writing any file whose path is not the
/// layout, the framework, a listed participant's bundle path, or a
/// referenced auxiliary file leaves a successful aggregation unchanged.
#[verifier::rlimit(100)]
pub proof fn lemma_aggregate_ignores_extras(snap: Map<Seq<u8>, Seq<u8>>, p: Seq<u8>, v: Seq<u8>)
    requires
        spec_aggregate(snap) is Ok,
        p != layout_path(),
        p != framework_path(),
        forall|i: int|
            0 <= i < parse_layout(snap[layout_path()])->Some_0.users.len() ==> p
                != participant_path(#[trigger] parse_layout(snap[layout_path()])->Some_0.users[i]),
        parse_layout(snap[layout_path()])->Some_0.balances_ref matches Some(r) ==> p != r,
        parse_layout(snap[layout_path()])->Some_0.vesting_ref matches Some(r) ==> p != r,
    ensures
        spec_aggregate(snap.insert(p, v)) == spec_aggregate(snap),
{
    let snap2 = snap.insert(p, v);
    assert(snap2.contains_key(layout_path()));
    assert(snap2[layout_path()] == snap[layout_path()]);
    let lay = parse_layout(snap[layout_path()])->Some_0;
    let sorted = sort_names(lay.users);
    assert forall|i: int| 0 <= i < sorted.len() implies p != participant_path(
        #[trigger] sorted[i],
    ) by {
        assert(sorted.contains(sorted[i]));
        lemma_sort_names_contains(lay.users, sorted[i]);
        let j = choose|j: int| 0 <= j < lay.users.len() && lay.users[j] == sorted[i];
    }
    assert forall|i: int| 0 <= i < sorted.len() implies snap2.contains_key(
        participant_path(#[trigger] sorted[i]),
    ) == snap.contains_key(participant_path(sorted[i])) && (snap.contains_key(
        participant_path(sorted[i]),
    ) ==> snap2[participant_path(sorted[i])] == snap[participant_path(sorted[i])]) by {
        assert(p != participant_path(sorted[i]));
    }
    lemma_first_missing_agree(snap2, snap, sorted);
    assert(first_missing(snap, sorted) is None);
    assert(read_bundles(snap2, sorted) == read_bundles(snap, sorted)) by {
        assert forall|i: int| 0 <= i < sorted.len() implies snap2[participant_path(
            #[trigger] sorted[i],
        )] == snap[participant_path(sorted[i])] by {}
        if read_bundles(snap, sorted) is Some {
            assert(Seq::new(
                sorted.len(),
                |i: int| parse_bundle(snap2[participant_path(sorted[i])])->Some_0,
            ) =~= Seq::new(
                sorted.len(),
                |i: int| parse_bundle(snap[participant_path(sorted[i])])->Some_0,
            ));
        }
    }
    assert(balances_step(snap2, lay.balances_ref) == balances_step(snap, lay.balances_ref)) by {
        match lay.balances_ref {
            Some(r) => {
                assert(snap2.contains_key(r) == snap.contains_key(r));
                if snap.contains_key(r) {
                    assert(snap2[r] == snap[r]);
                }
            },
            None => {},
        }
    }
    assert(vesting_step(snap2, lay.vesting_ref) == vesting_step(snap, lay.vesting_ref)) by {
        match lay.vesting_ref {
            Some(r) => {
                assert(snap2.contains_key(r) == snap.contains_key(r));
                if snap.contains_key(r) {
                    assert(snap2[r] == snap[r]);
                }
            },
            None => {},
        }
    }
    assert(snap2.contains_key(framework_path()));
    assert(snap2[framework_path()] == snap[framework_path()]);
    assert(spec_aggregate(snap2) == spec_aggregate(snap));
}

/// The completeness gate tolerates extras: a bundle published under a
/// name the layout does not list leaves a successful aggregation
/// unchanged, since listed names can never share its path.
pub proof fn lemma_unlisted_bundle_ignored(snap: Map<Seq<u8>, Seq<u8>>, name: Seq<u8>, v: Seq<u8>)
    requires
        spec_aggregate(snap) is Ok,
        !parse_layout(snap[layout_path()])->Some_0.users.contains(name),
        participant_path(name) != layout_path(),
        participant_path(name) != framework_path(),
        parse_layout(snap[layout_path()])->Some_0.balances_ref matches Some(r) ==> participant_path(
            name,
        ) != r,
        parse_layout(snap[layout_path()])->Some_0.vesting_ref matches Some(r) ==> participant_path(
            name,
        ) != r,
    ensures
        spec_aggregate(snap.insert(participant_path(name), v)) == spec_aggregate(snap),
{
    let lay = parse_layout(snap[layout_path()])->Some_0;
    assert forall|i: int| 0 <= i < lay.users.len() implies participant_path(name)
        != participant_path(#[trigger] lay.users[i]) by {
        if participant_path(name) == participant_path(lay.users[i]) {
            lemma_participant_path_injective(name, lay.users[i]);
            assert(lay.users.contains(name));
        }
    }
    lemma_aggregate_ignores_extras(snap, participant_path(name), v);
}

} // verus!

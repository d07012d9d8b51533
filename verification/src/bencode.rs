//! Bencode: the serialization used by metainfo files, tracker responses
//! and the metadata extension.
//!
//! Values are integers, byte strings, lists and dictionaries keyed by byte
//! strings.  The codec is strict: the decoder accepts exactly the canonical
//! encodings, so every decoded value re-encodes to the original bytes.
//! In particular integers may not carry leading zeros, `i-0e` is rejected
//! rather than normalized, and dictionary keys must appear in strictly
//! increasing lexicographic byte order.

use vstd::prelude::*;

use crate::error::BtError;

verus! {

broadcast use vstd::std_specs::vec::group_vec_axioms;

/// An owned bencode value.
#[derive(Debug)]
pub enum Bencode {
    Int(i64),
    Bytes(Vec<u8>),
    List(Vec<Bencode>),
    Dict(Vec<(Vec<u8>, Bencode)>),
}

/// The mathematical shape of a bencode value: unbounded integers,
/// byte sequences, and sequences of children.
pub enum BencodeView {
    Int(int),
    Bytes(Seq<u8>),
    List(Seq<BencodeView>),
    Dict(Seq<(Seq<u8>, BencodeView)>),
}

pub open spec fn bview(b: Bencode) -> BencodeView
    decreases b, 1int,
{
    match b {
        Bencode::Int(i) => BencodeView::Int(i as int),
        Bencode::Bytes(s) => BencodeView::Bytes(s@),
        Bencode::List(l) => BencodeView::List(bview_seq(l@)),
        Bencode::Dict(d) => BencodeView::Dict(bview_entries(d@)),
    }
}

pub open spec fn bview_seq(l: Seq<Bencode>) -> Seq<BencodeView>
    decreases l, 0int,
{
    if l.len() == 0 {
        Seq::empty()
    } else {
        seq![bview(l[0])] + bview_seq(l.drop_first())
    }
}

pub open spec fn bview_entries(d: Seq<(Vec<u8>, Bencode)>) -> Seq<(Seq<u8>, BencodeView)>
    decreases d, 0int,
{
    if d.len() == 0 {
        Seq::empty()
    } else {
        seq![(d[0].0@, bview(d[0].1))] + bview_entries(d.drop_first())
    }
}

/// Pointwise description of `bview_seq`.
pub proof fn lemma_bview_seq(l: Seq<Bencode>)
    ensures
        bview_seq(l).len() == l.len(),
        forall|i: int| 0 <= i < l.len() ==> bview_seq(l)[i] == bview(#[trigger] l[i]),
    decreases l.len(),
{
    if l.len() > 0 {
        lemma_bview_seq(l.drop_first());
        assert forall|i: int| 0 <= i < l.len() implies bview_seq(l)[i] == bview(
            #[trigger] l[i],
        ) by {
            if i > 0 {
                assert(bview_seq(l)[i] == bview_seq(l.drop_first())[i - 1]);
                assert(l.drop_first()[i - 1] == l[i]);
            }
        }
    }
}

/// Pointwise description of `bview_entries`.
pub proof fn lemma_bview_entries(d: Seq<(Vec<u8>, Bencode)>)
    ensures
        bview_entries(d).len() == d.len(),
        forall|i: int| 0 <= i < d.len() ==> bview_entries(d)[i] == (
            #[trigger] d[i].0@,
            bview(d[i].1),
        ),
    decreases d.len(),
{
    if d.len() > 0 {
        lemma_bview_entries(d.drop_first());
        assert forall|i: int| 0 <= i < d.len() implies bview_entries(d)[i] == (
            #[trigger] d[i].0@,
            bview(d[i].1),
        ) by {
            if i > 0 {
                assert(bview_entries(d)[i] == bview_entries(d.drop_first())[i - 1]);
                assert(d.drop_first()[i - 1] == d[i]);
            }
        }
    }
}

impl View for Bencode {
    type V = BencodeView;

    open spec fn view(&self) -> BencodeView {
        bview(*self)
    }
}

/// The decimal digits of `n`, most significant first, no sign, no
/// leading zeros (`0` itself is the single digit `0`).
pub open spec fn spec_digits(n: nat) -> Seq<u8>
    decreases n,
{
    if n < 10 {
        seq![(48 + n) as u8]
    } else {
        spec_digits(n / 10).push((48 + n % 10) as u8)
    }
}

/// The decimal form of a possibly negative integer: a minus sign for
/// negative values, then the digits of the magnitude.
pub open spec fn spec_int_bytes(i: int) -> Seq<u8> {
    if i < 0 {
        seq![45u8] + spec_digits((-i) as nat)
    } else {
        spec_digits(i as nat)
    }
}

/// The encoding of a byte string: decimal length, a colon, the bytes.
pub open spec fn spec_encode_bytes(s: Seq<u8>) -> Seq<u8> {
    spec_digits(s.len()) + seq![58u8] + s
}

/// The canonical encoding of a value.
pub open spec fn spec_encode(v: BencodeView) -> Seq<u8>
    decreases v, 1int,
{
    match v {
        BencodeView::Int(i) => seq![105u8] + spec_int_bytes(i) + seq![101u8],
        BencodeView::Bytes(s) => spec_encode_bytes(s),
        BencodeView::List(l) => seq![108u8] + spec_encode_items(l) + seq![101u8],
        BencodeView::Dict(d) => seq![100u8] + spec_encode_entries(d) + seq![101u8],
    }
}

pub open spec fn spec_encode_items(l: Seq<BencodeView>) -> Seq<u8>
    decreases l, 0int,
{
    if l.len() == 0 {
        Seq::empty()
    } else {
        spec_encode(l[0]) + spec_encode_items(l.drop_first())
    }
}

pub open spec fn spec_encode_entries(d: Seq<(Seq<u8>, BencodeView)>) -> Seq<u8>
    decreases d, 0int,
{
    if d.len() == 0 {
        Seq::empty()
    } else {
        spec_encode_bytes(d[0].0) + spec_encode(d[0].1) + spec_encode_entries(d.drop_first())
    }
}

/// Strict lexicographic order on byte strings.
pub open spec fn lex_less(a: Seq<u8>, b: Seq<u8>) -> bool
    decreases a.len(),
{
    if b.len() == 0 {
        false
    } else if a.len() == 0 {
        true
    } else if a[0] < b[0] {
        true
    } else if a[0] > b[0] {
        false
    } else {
        lex_less(a.drop_first(), b.drop_first())
    }
}

pub open spec fn entries_sorted(d: Seq<(Seq<u8>, BencodeView)>) -> bool {
    forall|i: int| 0 <= i && i + 1 < d.len() ==> lex_less(d[i].0, #[trigger] d[i + 1].0)
}

/// A value the canonical codec can produce: integers within the signed
/// 64-bit range and dictionaries sorted by key, recursively.
pub open spec fn canonical(v: BencodeView) -> bool
    decreases v,
{
    match v {
        BencodeView::Int(i) => -0x8000_0000_0000_0000 <= i <= 0x7fff_ffff_ffff_ffff,
        BencodeView::Bytes(_) => true,
        BencodeView::List(l) => forall|i: int| 0 <= i < l.len() ==> canonical(#[trigger] l[i]),
        BencodeView::Dict(d) => entries_sorted(d) && forall|i: int|
            0 <= i < d.len() ==> canonical(#[trigger] d[i].1),
    }
}

/// Inserts an entry into a key-sorted run, after every entry whose key
/// is not greater: a stable insertion step.
pub open spec fn insert_entry(
    d: Seq<(Seq<u8>, BencodeView)>,
    e: (Seq<u8>, BencodeView),
) -> Seq<(Seq<u8>, BencodeView)>
    decreases d.len(),
{
    if d.len() == 0 {
        seq![e]
    } else if lex_less(e.0, d[0].0) {
        seq![e] + d
    } else {
        seq![d[0]] + insert_entry(d.drop_first(), e)
    }
}

/// The entries rearranged into lexicographic key order; entries with
/// equal keys keep their relative order.
pub open spec fn sort_entries(d: Seq<(Seq<u8>, BencodeView)>) -> Seq<(Seq<u8>, BencodeView)>
    decreases d.len(),
{
    if d.len() == 0 {
        Seq::empty()
    } else {
        insert_entry(sort_entries(d.drop_last()), d.last())
    }
}

/// The value with every dictionary in it rearranged into key order:
/// what the encoder emits for it.
pub open spec fn normalize(v: BencodeView) -> BencodeView
    decreases v, 1int,
{
    match v {
        BencodeView::Int(_) => v,
        BencodeView::Bytes(_) => v,
        BencodeView::List(l) => BencodeView::List(normalize_seq(l)),
        BencodeView::Dict(d) => BencodeView::Dict(sort_entries(normalize_entries(d))),
    }
}

pub open spec fn normalize_seq(l: Seq<BencodeView>) -> Seq<BencodeView>
    decreases l, 0int,
{
    if l.len() == 0 {
        Seq::empty()
    } else {
        seq![normalize(l[0])] + normalize_seq(l.drop_first())
    }
}

pub open spec fn normalize_entries(d: Seq<(Seq<u8>, BencodeView)>) -> Seq<(Seq<u8>, BencodeView)>
    decreases d, 0int,
{
    if d.len() == 0 {
        Seq::empty()
    } else {
        seq![(d[0].0, normalize(d[0].1))] + normalize_entries(d.drop_first())
    }
}

/// Pointwise description of `normalize_seq`.
proof fn lemma_normalize_seq(l: Seq<BencodeView>)
    ensures
        normalize_seq(l).len() == l.len(),
        forall|i: int| 0 <= i < l.len() ==> normalize_seq(l)[i] == normalize(#[trigger] l[i]),
    decreases l.len(),
{
    if l.len() > 0 {
        lemma_normalize_seq(l.drop_first());
        assert forall|i: int| 0 <= i < l.len() implies normalize_seq(l)[i] == normalize(
            #[trigger] l[i],
        ) by {
            if i > 0 {
                assert(normalize_seq(l)[i] == normalize_seq(l.drop_first())[i - 1]);
                assert(l.drop_first()[i - 1] == l[i]);
            }
        }
    }
}

/// Pointwise description of `normalize_entries`: keys unchanged,
/// values normalized.
proof fn lemma_normalize_entries(d: Seq<(Seq<u8>, BencodeView)>)
    ensures
        normalize_entries(d).len() == d.len(),
        forall|i: int| 0 <= i < d.len() ==> normalize_entries(d)[i] == (
            #[trigger] d[i].0,
            normalize(d[i].1),
        ),
    decreases d.len(),
{
    if d.len() > 0 {
        lemma_normalize_entries(d.drop_first());
        assert forall|i: int| 0 <= i < d.len() implies normalize_entries(d)[i] == (
            #[trigger] d[i].0,
            normalize(d[i].1),
        ) by {
            if i > 0 {
                assert(normalize_entries(d)[i] == normalize_entries(d.drop_first())[i - 1]);
                assert(d.drop_first()[i - 1] == d[i]);
            }
        }
    }
}

/// The lexicographic order is irreflexive-antisymmetric: at most one
/// direction holds.
proof fn lemma_lex_antisym(a: Seq<u8>, b: Seq<u8>)
    ensures
        lex_less(a, b) ==> !lex_less(b, a),
    decreases a.len(),
{
    if a.len() > 0 && b.len() > 0 && a[0] == b[0] {
        lemma_lex_antisym(a.drop_first(), b.drop_first());
    }
}

/// The lexicographic order is transitive.
proof fn lemma_lex_trans(a: Seq<u8>, b: Seq<u8>, c: Seq<u8>)
    requires
        lex_less(a, b),
        lex_less(b, c),
    ensures
        lex_less(a, c),
    decreases a.len(),
{
    if a.len() > 0 && b.len() > 0 && c.len() > 0 && a[0] == b[0] && b[0] == c[0] {
        lemma_lex_trans(a.drop_first(), b.drop_first(), c.drop_first());
    }
}

/// In a sorted run every earlier key is below every later one, not
/// just its neighbour.
proof fn lemma_sorted_pairwise(d: Seq<(Seq<u8>, BencodeView)>)
    requires
        entries_sorted(d),
    ensures
        forall|i: int, j: int| 0 <= i < j < d.len() ==> lex_less(#[trigger] d[i].0, #[trigger] d[j].0),
    decreases d.len(),
{
    if d.len() > 1 {
        assert(forall|i: int|
            0 <= i && i + 1 < d.drop_last().len() ==> lex_less(
                d.drop_last()[i].0,
                #[trigger] d.drop_last()[i + 1].0,
            ));
        lemma_sorted_pairwise(d.drop_last());
        assert forall|i: int, j: int| 0 <= i < j < d.len() implies lex_less(
            #[trigger] d[i].0,
            #[trigger] d[j].0,
        ) by {
            if i + 1 == j {
                assert(lex_less(d[i].0, d[i + 1].0));
            } else if j < d.len() - 1 {
                assert(d.drop_last()[i].0 == d[i].0);
                assert(d.drop_last()[j].0 == d[j].0);
                assert(lex_less(d.drop_last()[i].0, d.drop_last()[j].0));
            } else {
                assert(d.drop_last()[i].0 == d[i].0);
                assert(d.drop_last()[j - 1].0 == d[j - 1].0);
                assert(lex_less(d.drop_last()[i].0, d.drop_last()[j - 1].0));
                assert(lex_less(d[(j - 1) + 1].0, d[j].0) || lex_less(d[j - 1].0, d[j].0));
                assert(lex_less(d[j - 1].0, d[j].0));
                lemma_lex_trans(d[i].0, d[j - 1].0, d[j].0);
            }
        }
    }
}

/// Where the stable insertion lands: at the first position whose key
/// is strictly greater.
proof fn lemma_insert_entry_at(d: Seq<(Seq<u8>, BencodeView)>, e: (Seq<u8>, BencodeView), j: int)
    requires
        0 <= j <= d.len(),
        forall|t: int| 0 <= t < j ==> !lex_less(e.0, #[trigger] d[t].0),
        j == d.len() || lex_less(e.0, d[j].0),
    ensures
        insert_entry(d, e) == d.subrange(0, j) + seq![e] + d.skip(j),
    decreases j,
{
    if j == 0 {
        if d.len() == 0 {
            assert(insert_entry(d, e) =~= d.subrange(0, 0) + seq![e] + d.skip(0));
        } else {
            assert(insert_entry(d, e) == seq![e] + d);
            assert(seq![e] + d =~= d.subrange(0, 0) + seq![e] + d.skip(0));
        }
    } else {
        assert(!lex_less(e.0, d[0].0));
        assert(forall|t: int| 0 <= t < j - 1 ==> !lex_less(e.0, #[trigger] d.drop_first()[t].0));
        if j < d.len() {
            assert(d.drop_first()[j - 1] == d[j]);
        }
        lemma_insert_entry_at(d.drop_first(), e, j - 1);
        assert(d.drop_first().subrange(0, j - 1) =~= d.subrange(1, j));
        assert(d.drop_first().skip(j - 1) =~= d.skip(j));
        assert(seq![d[0]] + (d.subrange(1, j) + seq![e] + d.skip(j)) =~= d.subrange(0, j) + seq![e]
            + d.skip(j));
        assert(insert_entry(d, e) == seq![d[0]] + insert_entry(d.drop_first(), e));
        assert(seq![d[0]] + insert_entry(d.drop_first(), e) =~= seq![d[0]] + (d.subrange(1, j)
            + seq![e] + d.skip(j)));
    }
}

/// Sorting a run that is already strictly sorted leaves it alone.
proof fn lemma_sort_sorted_id(d: Seq<(Seq<u8>, BencodeView)>)
    requires
        entries_sorted(d),
    ensures
        sort_entries(d) == d,
    decreases d.len(),
{
    if d.len() > 0 {
        let p = d.drop_last();
        assert(forall|i: int|
            0 <= i && i + 1 < p.len() ==> lex_less(p[i].0, #[trigger] p[i + 1].0));
        lemma_sort_sorted_id(p);
        lemma_sorted_pairwise(d);
        assert forall|t: int| 0 <= t < p.len() implies !lex_less(d.last().0, #[trigger] p[t].0) by {
            assert(p[t] == d[t]);
            assert(lex_less(d[t].0, d[d.len() - 1].0));
            lemma_lex_antisym(d[t].0, d.last().0);
        }
        lemma_insert_entry_at(p, d.last(), p.len() as int);
        assert(p.subrange(0, p.len() as int) =~= p);
        assert(p.skip(p.len() as int) =~= Seq::<(Seq<u8>, BencodeView)>::empty());
        assert(p + seq![d.last()] + Seq::<(Seq<u8>, BencodeView)>::empty() =~= d);
    }
}

/// Normalizing a canonical value leaves it alone: its dictionaries
/// are already sorted.
pub proof fn lemma_normalize_canonical_id(v: BencodeView)
    requires
        canonical(v),
    ensures
        normalize(v) == v,
    decreases v, 1int,
{
    match v {
        BencodeView::Int(_) => {},
        BencodeView::Bytes(_) => {},
        BencodeView::List(l) => {
            lemma_normalize_seq_id(l);
        },
        BencodeView::Dict(d) => {
            lemma_normalize_entries_id(d);
            lemma_sort_sorted_id(d);
        },
    }
}

proof fn lemma_normalize_seq_id(l: Seq<BencodeView>)
    requires
        forall|i: int| 0 <= i < l.len() ==> canonical(#[trigger] l[i]),
    ensures
        normalize_seq(l) == l,
    decreases l, 0int,
{
    if l.len() > 0 {
        lemma_normalize_canonical_id(l[0]);
        assert(forall|i: int|
            0 <= i < l.drop_first().len() ==> canonical(#[trigger] l.drop_first()[i]));
        lemma_normalize_seq_id(l.drop_first());
        assert(seq![l[0]] + l.drop_first() =~= l);
    }
}

proof fn lemma_normalize_entries_id(d: Seq<(Seq<u8>, BencodeView)>)
    requires
        forall|i: int| 0 <= i < d.len() ==> canonical(#[trigger] d[i].1),
    ensures
        normalize_entries(d) == d,
    decreases d, 0int,
{
    if d.len() > 0 {
        lemma_normalize_canonical_id(d[0].1);
        assert(forall|i: int|
            0 <= i < d.drop_first().len() ==> canonical(#[trigger] d.drop_first()[i].1));
        lemma_normalize_entries_id(d.drop_first());
        assert((d[0].0, d[0].1) == d[0]);
        assert(seq![d[0]] + d.drop_first() =~= d);
    }
}

/// Every value bound in a canonical dictionary is canonical itself.
pub proof fn lemma_lookup_canonical(d: Seq<(Seq<u8>, BencodeView)>, key: Seq<u8>)
    requires
        forall|i: int| 0 <= i < d.len() ==> canonical(#[trigger] d[i].1),
        dict_lookup(d, key) is Some,
    ensures
        canonical(dict_lookup(d, key)->Some_0),
    decreases d.len(),
{
    if d.len() > 0 && d[0].0 != key {
        assert(forall|i: int|
            0 <= i < d.drop_first().len() ==> canonical(#[trigger] d.drop_first()[i].1));
        lemma_lookup_canonical(d.drop_first(), key);
    }
}

/// Appends the decimal digits of `n` to `out`.
pub(crate) fn push_decimal(n: u64, out: &mut Vec<u8>)
    ensures
        final(out)@ == old(out)@ + spec_digits(n as nat),
    decreases n,
{
    if n < 10 {
        out.push(48 + n as u8);
    } else {
        push_decimal(n / 10, out);
        out.push(48 + (n % 10) as u8);
    }
}

/// Appends the canonical encoding of `*v` to `out`: every dictionary
/// in it is emitted with its keys in lexicographic byte order,
/// whatever order it stores them in.
#[verifier::loop_isolation(false)]
#[verifier::rlimit(100)]
fn encode_into(v: &Bencode, out: &mut Vec<u8>)
    ensures
        final(out)@ == old(out)@ + spec_encode(normalize(v@)),
    decreases *v,
{
    match v {
        Bencode::Int(i) => {
            out.push(105);
            if *i < 0 {
                out.push(45);
                let m: u64 = (-(*i as i128)) as u64;
                assert(m as nat == (-(*i as int)) as nat);
                push_decimal(m, out);
            } else {
                push_decimal(*i as u64, out);
            }
            out.push(101);
            assert(out@ =~= old(out)@ + spec_encode(normalize(v@)));
        },
        Bencode::Bytes(s) => {
            push_decimal(s.len() as u64, out);
            out.push(58);
            let mut k: usize = 0;
            while k < s.len()
                invariant
                    k <= s@.len(),
                    out@ == old(out)@ + spec_digits(s@.len() as nat) + seq![58u8]
                        + s@.subrange(0, k as int),
                decreases s@.len() - k,
            {
                out.push(s[k]);
                k = k + 1;
                assert(s@.subrange(0, k as int) =~= s@.subrange(0, k - 1 as int).push(
                    s@[k - 1 as int],
                ));
            }
            assert(s@.subrange(0, s@.len() as int) =~= s@);
            assert(out@ =~= old(out)@ + spec_encode(normalize(v@)));
        },
        Bencode::List(l) => {
            proof {
                lemma_bview_seq(l@);
                lemma_normalize_seq(bview_seq(l@));
            }
            let ghost ns = normalize_seq(bview_seq(l@));
            out.push(108);
            let mut k: usize = 0;
            while k < l.len()
                invariant
                    k <= l@.len(),
                    ns.len() == l@.len(),
                    forall|i: int| 0 <= i < l@.len() ==> ns[i] == normalize(bview(
                        #[trigger] l@[i],
                    )),
                    out@ == old(out)@ + seq![108u8] + spec_encode_items(
                        ns.subrange(0, k as int),
                    ),
                decreases l@.len() - k,
            {
                proof {
                    lemma_encode_items_snoc(ns, k as int);
                    assert(decreases_to!(*v => (*v)->List_0));
                    assert(decreases_to!((*v)->List_0 => (*v)->List_0@));
                    assert(decreases_to!((*v)->List_0@ => (*v)->List_0@[k as int]));
                    assert((*v)->List_0@[k as int] == l@[k as int]);
                }
                encode_into(&l[k], out);
                k = k + 1;
            }
            out.push(101);
            proof {
                assert(ns.subrange(0, l@.len() as int) =~= ns);
            }
            assert(out@ =~= old(out)@ + spec_encode(normalize(v@)));
        },
        Bencode::Dict(d) => {
            proof {
                assert(decreases_to!(*v => (*v)->Dict_0));
                assert((*v)->Dict_0 == *d);
            }
            encode_entries_into(d, out);
            assert(out@ =~= old(out)@ + spec_encode(normalize(v@)));
        },
    }
}

/// The first position in the already-picked run whose key is
/// strictly greater than the key of entry `i`: where a stable
/// insertion of that entry lands.
#[verifier::loop_isolation(false)]
fn find_insert_pos(entries: &Vec<(Vec<u8>, Bencode)>, order: &Vec<usize>, i: usize) -> (j: usize)
    requires
        i < entries@.len(),
        forall|k: int| 0 <= k < order@.len() ==> (#[trigger] order@[k]) < entries@.len(),
    ensures
        ({
            let ne = normalize_entries(bview_entries(entries@));
            let picked = Seq::new(order@.len(), |k: int| ne[order@[k] as int]);
            &&& j <= order@.len()
            &&& (forall|t: int| 0 <= t < j ==> !lex_less(ne[i as int].0, (#[trigger] picked[t]).0))
            &&& (j == order@.len() || lex_less(ne[i as int].0, picked[j as int].0))
        }),
{
    proof {
        lemma_bview_entries(entries@);
        lemma_normalize_entries(bview_entries(entries@));
    }
    let ghost ne = normalize_entries(bview_entries(entries@));
    let ghost picked = Seq::new(order@.len(), |k: int| ne[order@[k] as int]);
    proof {
        assert(ne[i as int] == (
            bview_entries(entries@)[i as int].0,
            normalize(bview_entries(entries@)[i as int].1),
        ));
        assert(bview_entries(entries@)[i as int] == (
            entries@[i as int].0@,
            bview(entries@[i as int].1),
        ));
    }
    let n = order.len();
    let mut j: usize = 0;
    while j < n
        invariant
            j <= n,
            n == order@.len(),
            forall|t: int| 0 <= t < j ==> !lex_less(ne[i as int].0, (#[trigger] picked[t]).0),
        decreases n - j,
    {
        let idx = order[j];
        proof {
            assert(picked[j as int] == ne[order@[j as int] as int]);
            assert(ne[idx as int] == (
                bview_entries(entries@)[idx as int].0,
                normalize(bview_entries(entries@)[idx as int].1),
            ));
            assert(bview_entries(entries@)[idx as int] == (
                entries@[idx as int].0@,
                bview(entries@[idx as int].1),
            ));
        }
        if key_less(&entries[i].0, &entries[idx].0) {
            return j;
        }
        j = j + 1;
    }
    j
}

/// The order in which the entries come when sorted by key: a stable
/// insertion sort of the entry indices, so the picked sequence of
/// normalized entries is exactly `sort_entries` of them.
#[verifier::loop_isolation(false)]
#[verifier::rlimit(100)]
fn sorted_order(entries: &Vec<(Vec<u8>, Bencode)>) -> (r: Vec<usize>)
    ensures
        ({
            let ne = normalize_entries(bview_entries(entries@));
            &&& r@.len() == ne.len()
            &&& (forall|k: int| 0 <= k < r@.len() ==> (#[trigger] r@[k]) < ne.len())
            &&& Seq::new(ne.len(), |k: int| ne[r@[k] as int]) == sort_entries(ne)
        }),
{
    proof {
        lemma_bview_entries(entries@);
        lemma_normalize_entries(bview_entries(entries@));
    }
    let ghost ne = normalize_entries(bview_entries(entries@));
    let n = entries.len();
    let mut order: Vec<usize> = Vec::new();
    let mut i: usize = 0;
    proof {
        assert(Seq::new(0, |k: int| ne[order@[k] as int]) =~= sort_entries(ne.subrange(0, 0)));
    }
    while i < n
        invariant
            i <= n,
            n == ne.len(),
            order@.len() == i,
            forall|k: int| 0 <= k < i ==> (#[trigger] order@[k]) < n,
            Seq::new(i as nat, |k: int| ne[order@[k] as int]) == sort_entries(
                ne.subrange(0, i as int),
            ),
        decreases n - i,
    {
        let ghost picked = Seq::new(i as nat, |k: int| ne[order@[k] as int]);
        proof {
            assert(ne[i as int] == (
                bview_entries(entries@)[i as int].0,
                normalize(bview_entries(entries@)[i as int].1),
            ));
            assert(bview_entries(entries@)[i as int] == (
                entries@[i as int].0@,
                bview(entries@[i as int].1),
            ));
        }
        let j = find_insert_pos(entries, &order, i);
        proof {
            lemma_insert_entry_at(picked, ne[i as int], j as int);
            assert(ne.subrange(0, i + 1).drop_last() =~= ne.subrange(0, i as int));
            assert(ne.subrange(0, i + 1).last() == ne[i as int]);
            assert(sort_entries(ne.subrange(0, i + 1)) == insert_entry(picked, ne[i as int]));
        }
        order.insert(j, i);
        i = i + 1;
        proof {
            assert(Seq::new(i as nat, |k: int| ne[order@[k] as int]) =~= picked.subrange(
                0,
                j as int,
            ) + seq![ne[i - 1]] + picked.skip(j as int));
        }
    }
    proof {
        assert(ne.subrange(0, n as int) =~= ne);
    }
    order
}

/// Appends the dictionary encoding of the entries to `out`, keys in
/// lexicographic byte order whatever order they are stored in.
#[verifier::loop_isolation(false)]
#[verifier::rlimit(100)]
pub(crate) fn encode_entries_into(d: &Vec<(Vec<u8>, Bencode)>, out: &mut Vec<u8>)
    ensures
        final(out)@ == old(out)@ + spec_encode(normalize(BencodeView::Dict(bview_entries(d@)))),
    decreases *d, 0int,
{
    proof {
        lemma_bview_entries(d@);
        lemma_normalize_entries(bview_entries(d@));
    }
    let ghost ne = normalize_entries(bview_entries(d@));
    let ghost sn = sort_entries(ne);
    let order = sorted_order(d);
    out.push(100);
    let mut k: usize = 0;
    while k < order.len()
        invariant
            k <= order@.len(),
            order@.len() == ne.len(),
            ne.len() == d@.len(),
            forall|t: int| 0 <= t < order@.len() ==> (#[trigger] order@[t]) < d@.len(),
            Seq::new(ne.len(), |t: int| ne[order@[t] as int]) == sn,
            out@ == old(out)@ + seq![100u8] + spec_encode_entries(sn.subrange(0, k as int)),
        decreases order@.len() - k,
    {
        let idx = order[k];
        proof {
            lemma_encode_entries_snoc(sn, k as int);
            assert(sn[k as int] == Seq::new(ne.len(), |t: int| ne[order@[t] as int])[k as int]);
            assert(sn[k as int] == ne[idx as int]);
            assert(ne[idx as int] == (
                bview_entries(d@)[idx as int].0,
                normalize(bview_entries(d@)[idx as int].1),
            ));
            assert(bview_entries(d@)[idx as int] == (d@[idx as int].0@, bview(d@[idx as int].1)));
        }
        let entry = &d[idx];
        push_decimal(entry.0.len() as u64, out);
        out.push(58);
        let mut j: usize = 0;
        while j < entry.0.len()
            invariant
                j <= entry.0@.len(),
                entry == &d@[idx as int],
                idx < d@.len(),
                k < order@.len(),
                sn[k as int].0 == entry.0@,
                out@ == old(out)@ + seq![100u8] + spec_encode_entries(
                    sn.subrange(0, k as int),
                ) + spec_digits(entry.0@.len() as nat) + seq![58u8] + entry.0@.subrange(
                    0,
                    j as int,
                ),
            decreases entry.0@.len() - j,
        {
            out.push(entry.0[j]);
            j = j + 1;
            assert(entry.0@.subrange(0, j as int) =~= entry.0@.subrange(0, j - 1 as int).push(
                entry.0@[j - 1 as int],
            ));
        }
        assert(entry.0@.subrange(0, entry.0@.len() as int) =~= entry.0@);
        assert(out@ =~= old(out)@ + seq![100u8] + spec_encode_entries(sn.subrange(0, k as int))
            + spec_encode_bytes(sn[k as int].0));
        proof {
            assert(decreases_to!(*d => (*d)@));
            assert(decreases_to!((*d)@ => (*d)@[idx as int]));
            assert(decreases_to!((*d)@[idx as int] => (*d)@[idx as int].1));
            assert((*d)@[idx as int].1 == d@[idx as int].1);
        }
        encode_into(&entry.1, out);
        k = k + 1;
        assert(out@ =~= old(out)@ + seq![100u8] + spec_encode_entries(sn.subrange(0, k as int)));
    }
    out.push(101);
    proof {
        assert(sn.subrange(0, sn.len() as int) =~= sn);
    }
    assert(out@ =~= old(out)@ + spec_encode(normalize(BencodeView::Dict(bview_entries(d@)))));
}

/// The value bound to the first occurrence of `key`, in entry order.
/// Canonical dictionaries have strictly increasing keys, so the first
/// occurrence is the only one.
pub open spec fn dict_lookup(d: Seq<(Seq<u8>, BencodeView)>, key: Seq<u8>) -> Option<BencodeView>
    decreases d.len(),
{
    if d.len() == 0 {
        None
    } else if d[0].0 == key {
        Some(d[0].1)
    } else {
        dict_lookup(d.drop_first(), key)
    }
}

/// Byte-string equality between a vector and a slice.
#[verifier::loop_isolation(false)]
fn bytes_eq(a: &Vec<u8>, b: &[u8]) -> (r: bool)
    ensures
        r == (a@ == b@),
{
    if a.len() != b.len() {
        proof {
            assert(a@.len() != b@.len());
        }
        return false;
    }
    let mut i: usize = 0;
    while i < a.len()
        invariant
            i <= a@.len(),
            forall|j: int| 0 <= j < i ==> a@[j] == b@[j],
        decreases a@.len() - i,
    {
        if a[i] != b[i] {
            return false;
        }
        i = i + 1;
    }
    proof {
        assert(a@ =~= b@);
    }
    true
}

/// Finds the value bound to `key` among decoded dictionary entries.
#[verifier::loop_isolation(false)]
pub fn dict_get<'a>(entries: &'a Vec<(Vec<u8>, Bencode)>, key: &[u8]) -> (r: Option<&'a Bencode>)
    ensures
        match r {
            Some(v) => dict_lookup(bview_entries(entries@), key@) == Some(v@),
            None => dict_lookup(bview_entries(entries@), key@) is None,
        },
{
    proof {
        lemma_bview_entries(entries@);
    }
    let ghost full = bview_entries(entries@);
    let mut i: usize = 0;
    proof {
        assert(full.skip(0) =~= full);
    }
    while i < entries.len()
        invariant
            i <= entries@.len(),
            dict_lookup(full, key@) == dict_lookup(full.skip(i as int), key@),
        decreases entries@.len() - i,
    {
        proof {
            assert(full.skip(i as int)[0] == full[i as int]);
            assert(full.skip(i as int).drop_first() =~= full.skip(i + 1));
        }
        if bytes_eq(&entries[i].0, key) {
            assert(full[i as int].0 == key@);
            return Some(&entries[i].1);
        }
        assert(full[i as int].0 != key@);
        i = i + 1;
    }
    proof {
        assert(full.skip(entries@.len() as int).len() == 0);
    }
    None
}

/// Serializes a dictionary, given by its entries, into its canonical
/// bencode byte string: keys come out in lexicographic byte order,
/// whatever order they are stored in.
pub fn encode_dict(entries: &Vec<(Vec<u8>, Bencode)>) -> (r: Vec<u8>)
    ensures
        r@ == spec_encode(normalize(BencodeView::Dict(bview_entries(entries@)))),
{
    let mut out: Vec<u8> = Vec::new();
    encode_entries_into(entries, &mut out);
    out
}

/// The prefix of items 0..k+1 encodes as the prefix of items 0..k
/// followed by the encoding of item k.
proof fn lemma_encode_items_snoc(l: Seq<BencodeView>, k: int)
    requires
        0 <= k < l.len(),
    ensures
        spec_encode_items(l.subrange(0, k + 1)) == spec_encode_items(l.subrange(0, k))
            + spec_encode(l[k]),
    decreases k,
{
    if k == 0 {
        assert(l.subrange(0, 1).drop_first() =~= l.subrange(0, 0));
        assert(spec_encode_items(l.subrange(0, 0)) =~= Seq::<u8>::empty());
        assert(l.subrange(0, 1)[0] == l[0]);
        assert(spec_encode_items(l.subrange(0, 1)) =~= spec_encode(l[0]));
    } else {
        lemma_encode_items_snoc(l.drop_first(), k - 1);
        assert(l.subrange(0, k + 1).drop_first() =~= l.drop_first().subrange(0, k));
        assert(l.subrange(0, k).drop_first() =~= l.drop_first().subrange(0, k - 1));
        assert(l.subrange(0, k + 1)[0] == l[0]);
        assert(l.subrange(0, k)[0] == l[0]);
        assert(l.drop_first()[k - 1] == l[k]);
        assert(spec_encode_items(l.subrange(0, k + 1)) =~= spec_encode_items(l.subrange(0, k))
            + spec_encode(l[k]));
    }
}

/// The same step for dictionary entries.
proof fn lemma_encode_entries_snoc(d: Seq<(Seq<u8>, BencodeView)>, k: int)
    requires
        0 <= k < d.len(),
    ensures
        spec_encode_entries(d.subrange(0, k + 1)) == spec_encode_entries(d.subrange(0, k))
            + spec_encode_bytes(d[k].0) + spec_encode(d[k].1),
    decreases k,
{
    if k == 0 {
        assert(d.subrange(0, 1).drop_first() =~= d.subrange(0, 0));
        assert(spec_encode_entries(d.subrange(0, 0)) =~= Seq::<u8>::empty());
        assert(d.subrange(0, 1)[0] == d[0]);
        assert(spec_encode_entries(d.subrange(0, 1)) =~= spec_encode_bytes(d[0].0)
            + spec_encode(d[0].1));
    } else {
        lemma_encode_entries_snoc(d.drop_first(), k - 1);
        assert(d.subrange(0, k + 1).drop_first() =~= d.drop_first().subrange(0, k));
        assert(d.subrange(0, k).drop_first() =~= d.drop_first().subrange(0, k - 1));
        assert(d.subrange(0, k + 1)[0] == d[0]);
        assert(d.subrange(0, k)[0] == d[0]);
        assert(d.drop_first()[k - 1] == d[k]);
        assert(spec_encode_entries(d.subrange(0, k + 1)) =~= spec_encode_entries(
            d.subrange(0, k),
        ) + spec_encode_bytes(d[k].0) + spec_encode(d[k].1));
    }
}

pub open spec fn is_digit(b: u8) -> bool {
    48 <= b <= 57
}

/// The longest all-digit prefix of `s`.
pub open spec fn digits_prefix(s: Seq<u8>) -> Seq<u8>
    decreases s.len(),
{
    if s.len() > 0 && is_digit(s[0]) {
        seq![s[0]] + digits_prefix(s.drop_first())
    } else {
        Seq::empty()
    }
}

/// The number denoted by a digit string, most significant digit first.
pub open spec fn digits_val(d: Seq<u8>) -> nat
    decreases d.len(),
{
    if d.len() == 0 {
        0
    } else {
        digits_val(d.drop_last()) * 10 + (d.last() - 48) as nat
    }
}

/// A digit token the strict grammar accepts: nonempty and without
/// leading zeros, `0` itself excepted.
pub open spec fn digits_ok(d: Seq<u8>) -> bool {
    d.len() > 0 && (d[0] != 48 || d.len() == 1)
}

/// Parses one byte-string token at the head of `s`: decimal length,
/// a colon, then that many bytes.  Returns the bytes and the number of
/// bytes consumed.
pub open spec fn sp_string(s: Seq<u8>) -> Option<(Seq<u8>, nat)> {
    let d = digits_prefix(s);
    let dl = d.len() as int;
    let l = digits_val(d) as int;
    if digits_ok(d) && dl < s.len() && s[dl] == 58 && dl + 1 + l <= s.len() {
        Some((s.subrange(dl + 1, dl + 1 + l), (dl + 1 + l) as nat))
    } else {
        None
    }
}

/// Parses one integer token `i...e` at the head of `s`.  Leading zeros
/// and `-0` are rejected, as is any value outside the signed 64-bit
/// range.
pub open spec fn sp_int(s: Seq<u8>) -> Option<(int, nat)> {
    if s.len() >= 1 && s[0] == 105 {
        let t = s.drop_first();
        if t.len() > 0 && t[0] == 45 {
            let d = digits_prefix(t.drop_first());
            let dl = d.len() as int;
            let v = -(digits_val(d) as int);
            if d.len() > 0 && d[0] != 48 && dl + 1 < t.len() && t[dl + 1] == 101 && v
                >= -0x8000_0000_0000_0000 {
                Some((v, (dl + 3) as nat))
            } else {
                None
            }
        } else {
            let d = digits_prefix(t);
            let dl = d.len() as int;
            let v = digits_val(d) as int;
            if digits_ok(d) && dl < t.len() && t[dl] == 101 && v <= 0x7fff_ffff_ffff_ffff {
                Some((v, (dl + 2) as nat))
            } else {
                None
            }
        }
    } else {
        None
    }
}

/// Parses one value at the head of `s`; the strict grammar of the
/// codec.  Returns the value and the number of bytes consumed.
pub open spec fn sp_value(s: Seq<u8>) -> Option<(BencodeView, nat)>
    decreases s.len(), 0int,
{
    if s.len() == 0 {
        None
    } else if s[0] == 105 {
        match sp_int(s) {
            Some((i, n)) => Some((BencodeView::Int(i), n)),
            None => None,
        }
    } else if is_digit(s[0]) {
        match sp_string(s) {
            Some((b, n)) => Some((BencodeView::Bytes(b), n)),
            None => None,
        }
    } else if s[0] == 108 {
        match sp_items(s.drop_first()) {
            Some((items, n)) => Some((BencodeView::List(items), (n + 1) as nat)),
            None => None,
        }
    } else if s[0] == 100 {
        match sp_entries(s.drop_first()) {
            Some((entries, n)) => if entries_sorted(entries) {
                Some((BencodeView::Dict(entries), (n + 1) as nat))
            } else {
                None
            },
            None => None,
        }
    } else {
        None
    }
}

/// Parses list items up to and including the closing `e`.
pub open spec fn sp_items(s: Seq<u8>) -> Option<(Seq<BencodeView>, nat)>
    decreases s.len(), 1int,
{
    if s.len() == 0 {
        None
    } else if s[0] == 101 {
        Some((Seq::empty(), 1))
    } else {
        match sp_value(s) {
            Some((v, n)) => if 1 <= n <= s.len() {
                match sp_items(s.skip(n as int)) {
                    Some((rest, m)) => Some((seq![v] + rest, (n + m) as nat)),
                    None => None,
                }
            } else {
                None
            },
            None => None,
        }
    }
}

/// Parses dictionary entries up to and including the closing `e`.
/// Key order is checked by `sp_value`, not here.
pub open spec fn sp_entries(s: Seq<u8>) -> Option<(Seq<(Seq<u8>, BencodeView)>, nat)>
    decreases s.len(), 1int,
{
    if s.len() == 0 {
        None
    } else if s[0] == 101 {
        Some((Seq::empty(), 1))
    } else {
        match sp_string(s) {
            Some((k, nk)) => if 1 <= nk <= s.len() {
                match sp_value(s.skip(nk as int)) {
                    Some((v, nv)) => if 1 <= nv && nk + nv <= s.len() {
                        match sp_entries(s.skip((nk + nv) as int)) {
                            Some((rest, m)) => Some(
                                (seq![(k, v)] + rest, (nk + nv + m) as nat),
                            ),
                            None => None,
                        }
                    } else {
                        None
                    },
                    None => None,
                }
            } else {
                None
            },
            None => None,
        }
    }
}

/// The decoding of a whole byte string: one value, nothing after it.
pub open spec fn spec_decode(s: Seq<u8>) -> Option<BencodeView> {
    match sp_value(s) {
        Some((v, n)) => if n == s.len() {
            Some(v)
        } else {
            None
        },
        None => None,
    }
}

/// The all-digit prefix of `s` is exactly its first `k` bytes.
proof fn lemma_digits_prefix_char(s: Seq<u8>, k: int)
    requires
        0 <= k <= s.len(),
        forall|j: int| 0 <= j < k ==> is_digit(#[trigger] s[j]),
        k == s.len() || !is_digit(s[k]),
    ensures
        digits_prefix(s) == s.subrange(0, k),
    decreases k,
{
    if k == 0 {
        assert(digits_prefix(s) =~= s.subrange(0, 0));
    } else {
        assert(forall|j: int| 0 <= j < k - 1 ==> is_digit(#[trigger] s.drop_first()[j]));
        lemma_digits_prefix_char(s.drop_first(), k - 1);
        assert(digits_prefix(s) =~= s.subrange(0, k));
    }
}

/// Reading one more digit multiplies the value by ten and adds it.
proof fn lemma_digits_val_snoc(d: Seq<u8>, c: u8)
    ensures
        digits_val(d.push(c)) == digits_val(d) * 10 + (c - 48) as nat,
{
    assert(d.push(c).drop_last() =~= d);
    assert(d.push(c).last() == c);
}

/// One step of saturating decimal accumulation: multiplies by ten and
/// adds the digit, pinning the sentinel once the value leaves the
/// 64-bit range.
fn acc_step(acc: u128, c: u8, Ghost(dprev): Ghost<nat>) -> (r: u128)
    requires
        48 <= c <= 57,
        acc == if dprev <= u64::MAX as nat {
            dprev as u128
        } else {
            0x1_0000_0000_0000_0000u128
        },
    ensures
        r == if dprev * 10 + (c - 48) as nat <= u64::MAX as nat {
            (dprev * 10 + (c - 48) as nat) as u128
        } else {
            0x1_0000_0000_0000_0000u128
        },
{
    if acc <= u64::MAX as u128 {
        let next = acc * 10 + (c - 48) as u128;
        if next > u64::MAX as u128 {
            0x1_0000_0000_0000_0000u128
        } else {
            next
        }
    } else {
        assert(dprev * 10 + (c - 48) as nat >= dprev);
        acc
    }
}

/// Scans the digit run starting at `pos`.  Returns the position after
/// the run and its value, or a sentinel above `u64::MAX` when the value
/// does not fit in 64 bits.
#[verifier::loop_isolation(false)]
#[verifier::rlimit(60)]
fn scan_digits(s: &[u8], pos: usize) -> (r: (usize, u128))
    requires
        pos <= s@.len(),
    ensures
        pos <= r.0 <= s@.len(),
        digits_prefix(s@.skip(pos as int)) == s@.subrange(pos as int, r.0 as int),
        r.1 == if digits_val(s@.subrange(pos as int, r.0 as int)) <= u64::MAX as nat {
            digits_val(s@.subrange(pos as int, r.0 as int)) as u128
        } else {
            0x1_0000_0000_0000_0000u128
        },
{
    let mut i: usize = pos;
    let mut acc: u128 = 0;
    while i < s.len() && 48 <= s[i] && s[i] <= 57
        invariant
            pos <= i <= s@.len(),
            forall|j: int| pos <= j < i ==> is_digit(#[trigger] s@[j]),
            acc == if digits_val(s@.subrange(pos as int, i as int)) <= u64::MAX as nat {
                digits_val(s@.subrange(pos as int, i as int)) as u128
            } else {
                0x1_0000_0000_0000_0000u128
            },
        decreases s@.len() - i,
    {
        let c = s[i];
        let ghost dprev = digits_val(s@.subrange(pos as int, i as int));
        proof {
            assert(s@.subrange(pos as int, i + 1) =~= s@.subrange(pos as int, i as int).push(
                s@[i as int],
            ));
            lemma_digits_val_snoc(s@.subrange(pos as int, i as int), c);
            assert(digits_val(s@.subrange(pos as int, i + 1)) == dprev * 10 + (c - 48) as nat);
        }
        acc = acc_step(acc, c, Ghost(dprev));
        i = i + 1;
    }
    proof {
        let t = s@.skip(pos as int);
        assert(forall|j: int| 0 <= j < i - pos ==> is_digit(#[trigger] t[j]));
        assert(i - pos == t.len() || !is_digit(t[i - pos]));
        lemma_digits_prefix_char(t, i - pos);
        assert(t.subrange(0, i - pos) =~= s@.subrange(pos as int, i as int));
    }
    (i, acc)
}

/// Parses the byte-string token at `pos`, returning its bytes and the
/// position after it.
#[verifier::loop_isolation(false)]
fn parse_string(s: &[u8], pos: usize) -> (r: Result<(Vec<u8>, usize), BtError>)
    requires
        pos <= s@.len(),
    ensures
        match r {
            Ok(p) => pos < p.1 <= s@.len() && sp_string(s@.skip(pos as int)) == Some(
                (p.0@, (p.1 - pos) as nat),
            ),
            Err(e) => sp_string(s@.skip(pos as int)) is None && e == BtError::Malformed,
        },
{
    let ghost t = s@.skip(pos as int);
    let (dend, acc) = scan_digits(s, pos);
    proof {
        assert(t.subrange(0, dend - pos) =~= s@.subrange(pos as int, dend as int));
        assert(digits_prefix(t) == t.subrange(0, dend - pos));
    }
    if dend == pos {
        return Err(BtError::Malformed);
    }
    if s[pos] == 48 && dend - pos > 1 {
        assert(digits_prefix(t)[0] == 48 && digits_prefix(t).len() > 1);
        return Err(BtError::Malformed);
    }
    if dend >= s.len() {
        return Err(BtError::Malformed);
    }
    if s[dend] != 58 {
        assert(t[dend - pos] == s@[dend as int]);
        return Err(BtError::Malformed);
    }
    let rem = s.len() - dend - 1;
    if acc > rem as u128 {
        return Err(BtError::Malformed);
    }
    let l = acc as usize;
    let content = vstd::slice::slice_to_vec(vstd::slice::slice_subrange(s, dend + 1, dend + 1 + l));
    proof {
        let dl = (dend - pos) as int;
        assert(t[dl] == s@[dend as int]);
        assert(digits_val(digits_prefix(t)) == l as nat);
        assert(t.subrange(dl + 1, dl + 1 + l) =~= s@.subrange(dend + 1, dend + 1 + l));
    }
    Ok((content, dend + 1 + l))
}

/// Parses the integer token `i...e` at `pos`.
#[verifier::loop_isolation(false)]
fn parse_int(s: &[u8], pos: usize) -> (r: Result<(i64, usize), BtError>)
    requires
        pos <= s@.len(),
    ensures
        match r {
            Ok(p) => pos < p.1 <= s@.len() && sp_int(s@.skip(pos as int)) == Some(
                (p.0 as int, (p.1 - pos) as nat),
            ),
            Err(e) => sp_int(s@.skip(pos as int)) is None && e == BtError::Malformed,
        },
{
    let ghost t = s@.skip(pos as int);
    if pos >= s.len() || s[pos] != 105 {
        return Err(BtError::Malformed);
    }
    assert(t[0] == 105);
    if pos + 1 < s.len() && s[pos + 1] == 45 {
        proof {
            assert(t.drop_first()[0] == s@[pos + 1]);
            assert(t.drop_first().drop_first() =~= s@.skip(pos + 2));
        }
        let (dend, acc) = scan_digits(s, pos + 2);
        proof {
            assert(s@.skip(pos + 2).subrange(0, dend - (pos + 2)) =~= s@.subrange(
                pos + 2,
                dend as int,
            ));
        }
        let ghost d = digits_prefix(t.drop_first().drop_first());
        if dend == pos + 2 {
            return Err(BtError::Malformed);
        }
        if s[pos + 2] == 48 {
            assert(d[0] == s@[pos + 2]);
            return Err(BtError::Malformed);
        }
        if dend >= s.len() || s[dend] != 101 {
            proof {
                if dend < s.len() {
                    assert(t.drop_first()[dend - pos - 1] == s@[dend as int]);
                }
            }
            return Err(BtError::Malformed);
        }
        assert(t.drop_first()[dend - pos - 1] == s@[dend as int]);
        if acc > 0x8000_0000_0000_0000u128 {
            return Err(BtError::Malformed);
        }
        let m = acc as u64;
        assert(m as nat == digits_val(d));
        let i: i64 = if m == 0x8000_0000_0000_0000u64 {
            i64::MIN
        } else {
            -(m as i64)
        };
        assert(i as int == -(digits_val(d) as int));
        return Ok((i, dend + 1));
    } else {
        proof {
            assert(t.drop_first() =~= s@.skip(pos + 1));
        }
        let (dend, acc) = scan_digits(s, pos + 1);
        proof {
            assert(s@.skip(pos + 1).subrange(0, dend - (pos + 1)) =~= s@.subrange(
                pos + 1,
                dend as int,
            ));
        }
        let ghost d = digits_prefix(t.drop_first());
        if dend == pos + 1 {
            return Err(BtError::Malformed);
        }
        if s[pos + 1] == 48 && dend - (pos + 1) > 1 {
            assert(d[0] == s@[pos + 1] && d.len() > 1);
            return Err(BtError::Malformed);
        }
        if dend >= s.len() || s[dend] != 101 {
            proof {
                if dend < s.len() {
                    assert(t.drop_first()[dend - pos - 1] == s@[dend as int]);
                }
            }
            return Err(BtError::Malformed);
        }
        assert(t.drop_first()[dend - pos - 1] == s@[dend as int]);
        if acc > 0x7fff_ffff_ffff_ffffu128 {
            return Err(BtError::Malformed);
        }
        let i = acc as u64 as i64;
        assert(i as int == digits_val(d) as int);
        return Ok((i, dend + 1));
    }
}

/// What the digit-run prefix looks like: all digits, and a prefix.
proof fn lemma_digits_prefix_props(s: Seq<u8>)
    ensures
        digits_prefix(s).len() <= s.len(),
        digits_prefix(s) == s.subrange(0, digits_prefix(s).len() as int),
        forall|j: int| 0 <= j < digits_prefix(s).len() ==> is_digit(#[trigger] s[j]),
        digits_prefix(s).len() == s.len() || !is_digit(s[digits_prefix(s).len() as int]),
    decreases s.len(),
{
    if s.len() > 0 && is_digit(s[0]) {
        lemma_digits_prefix_props(s.drop_first());
        let dl = digits_prefix(s).len() as int;
        assert(digits_prefix(s) =~= s.subrange(0, dl));
        assert forall|j: int| 0 <= j < dl implies is_digit(#[trigger] s[j]) by {
            if j > 0 {
                assert(is_digit(s.drop_first()[j - 1]));
            }
        }
        if dl < s.len() {
            assert(!is_digit(s.drop_first()[dl - 1]));
        }
    } else {
        assert(digits_prefix(s) =~= s.subrange(0, 0));
    }
}

/// A digit string with a nonzero leading digit denotes a positive number.
proof fn lemma_digits_val_pos(d: Seq<u8>)
    requires
        d.len() > 0,
        forall|j: int| 0 <= j < d.len() ==> is_digit(#[trigger] d[j]),
        d[0] != 48,
    ensures
        digits_val(d) >= 1,
    decreases d.len(),
{
    if d.len() == 1 {
        assert(d.drop_last() =~= Seq::<u8>::empty());
    } else {
        assert(forall|j: int|
            0 <= j < d.drop_last().len() ==> is_digit(#[trigger] d.drop_last()[j]));
        lemma_digits_val_pos(d.drop_last());
    }
}

/// The decimal digits of the value of a strict digit token are the
/// token itself.
proof fn lemma_spec_digits_of_val(d: Seq<u8>)
    requires
        digits_ok(d),
        forall|j: int| 0 <= j < d.len() ==> is_digit(#[trigger] d[j]),
    ensures
        spec_digits(digits_val(d)) == d,
    decreases d.len(),
{
    if d.len() == 1 {
        assert(is_digit(d[0]));
        assert(d.drop_last() =~= Seq::<u8>::empty());
        assert(digits_val(Seq::<u8>::empty()) == 0);
        assert(d.last() == d[0]);
        assert(digits_val(d) == (d[0] - 48) as nat);
        assert(digits_val(d) < 10);
        assert(spec_digits(digits_val(d)) == seq![(48 + (d[0] - 48) as nat) as u8]);
        assert(spec_digits(digits_val(d)) =~= d);
    } else {
        let d0 = d.drop_last();
        let c = d.last();
        assert(forall|j: int| 0 <= j < d0.len() ==> is_digit(#[trigger] d0[j]));
        assert(d0[0] == d[0]);
        lemma_digits_val_pos(d0);
        lemma_spec_digits_of_val(d0);
        let m = digits_val(d0);
        let r = (c - 48) as nat;
        let n = digits_val(d);
        assert(n == m * 10 + r);
        assert(n >= 10);
        assert(n / 10 == m && n % 10 == r) by (nonlinear_arith)
            requires
                n == m * 10 + r,
                r < 10,
        ;
        assert(spec_digits(n) == spec_digits(m).push((48 + r) as u8));
        assert(spec_digits(m).push((48 + r) as u8) =~= d);
    }
}

/// The value of the decimal digits of `n` is `n`, the digits are
/// digits, and the token is strict: no leading zero unless it is `0`.
pub proof fn lemma_spec_digits_props(n: nat)
    ensures
        spec_digits(n).len() >= 1,
        forall|j: int| 0 <= j < spec_digits(n).len() ==> is_digit(#[trigger] spec_digits(n)[j]),
        digits_ok(spec_digits(n)),
        n == 0 ==> spec_digits(n) == seq![48u8],
        n > 0 ==> spec_digits(n)[0] != 48,
        digits_val(spec_digits(n)) == n,
    decreases n,
{
    if n < 10 {
        let d = spec_digits(n);
        assert(d == seq![(48 + n) as u8]);
        assert(d.drop_last() =~= Seq::<u8>::empty());
        assert(digits_val(Seq::<u8>::empty()) == 0);
        assert(d.last() == (48 + n) as u8);
        assert(digits_val(d) == digits_val(d.drop_last()) * 10 + (d.last() - 48) as nat);
        assert(((48 + n) as u8 - 48) as nat == n);
    } else {
        lemma_spec_digits_props(n / 10);
        let d0 = spec_digits(n / 10);
        let d = spec_digits(n);
        assert(d == d0.push((48 + n % 10) as u8));
        assert(d[0] == d0[0]);
        assert(n / 10 > 0) by (nonlinear_arith)
            requires
                n >= 10,
        ;
        assert(d.drop_last() =~= d0);
        assert(digits_val(d) == digits_val(d0) * 10 + ((48 + n % 10) as u8 - 48) as nat);
        assert(digits_val(d) == (n / 10) * 10 + n % 10);
        assert((n / 10) * 10 + n % 10 == n) by (nonlinear_arith);
        assert(forall|j: int| 0 <= j < d.len() - 1 ==> d[j] == #[trigger] d0[j]);
    }
}

/// Appending an element appends its view.
proof fn lemma_bview_seq_push(l: Seq<Bencode>, v: Bencode)
    ensures
        bview_seq(l.push(v)) == bview_seq(l) + seq![bview(v)],
{
    lemma_bview_seq(l);
    lemma_bview_seq(l.push(v));
    assert forall|j: int| 0 <= j < l.push(v).len() implies bview_seq(l.push(v))[j] == (bview_seq(l)
        + seq![bview(v)])[j] by {
        if j < l.len() {
            assert(l.push(v)[j] == l[j]);
        } else {
            assert(l.push(v)[j] == v);
        }
    }
    assert(bview_seq(l.push(v)) =~= bview_seq(l) + seq![bview(v)]);
}

/// Appending an entry appends its view.
proof fn lemma_bview_entries_push(d: Seq<(Vec<u8>, Bencode)>, k: Vec<u8>, v: Bencode)
    ensures
        bview_entries(d.push((k, v))) == bview_entries(d) + seq![(k@, bview(v))],
{
    lemma_bview_entries(d);
    lemma_bview_entries(d.push((k, v)));
    assert forall|j: int| 0 <= j < d.push((k, v)).len() implies bview_entries(d.push((k, v)))[j]
        == (bview_entries(d) + seq![(k@, bview(v))])[j] by {
        assert(bview_entries(d.push((k, v)))[j] == (
            d.push((k, v))[j].0@,
            bview(d.push((k, v))[j].1),
        ));
        if j < d.len() {
            assert(d.push((k, v))[j] == d[j]);
            assert(bview_entries(d)[j] == (d[j].0@, bview(d[j].1)));
        } else {
            assert(d.push((k, v))[j] == (k, v));
        }
    }
    assert(bview_entries(d.push((k, v))) =~= bview_entries(d) + seq![(k@, bview(v))]);
}

/// A parsed byte-string token re-encodes to exactly the bytes it was
/// parsed from.
proof fn lemma_sound_string(s: Seq<u8>)
    ensures
        sp_string(s) matches Some(p) ==> {
            &&& 1 <= p.1 <= s.len()
            &&& spec_encode_bytes(p.0) == s.subrange(0, p.1 as int)
        },
{
    if sp_string(s) is Some {
        let d = digits_prefix(s);
        lemma_digits_prefix_props(s);
        lemma_spec_digits_of_val(d);
        let (b, n) = sp_string(s)->Some_0;
        assert(b.len() == digits_val(d));
        assert(spec_digits(b.len()) == d);
        assert(spec_encode_bytes(b) =~= s.subrange(0, n as int));
    }
}

/// A parsed integer token re-encodes to exactly the bytes it was
/// parsed from, and its value is within the signed 64-bit range.
proof fn lemma_sound_int(s: Seq<u8>)
    ensures
        sp_int(s) matches Some(p) ==> {
            &&& 2 <= p.1 <= s.len()
            &&& -0x8000_0000_0000_0000 <= p.0 <= 0x7fff_ffff_ffff_ffff
            &&& seq![105u8] + spec_int_bytes(p.0) + seq![101u8] == s.subrange(0, p.1 as int)
        },
{
    if sp_int(s) is Some {
        let (v, n) = sp_int(s)->Some_0;
        let t = s.drop_first();
        if t.len() > 0 && t[0] == 45 {
            let d = digits_prefix(t.drop_first());
            lemma_digits_prefix_props(t.drop_first());
            lemma_spec_digits_of_val(d);
            lemma_digits_val_pos(d);
            assert(v < 0);
            assert((-v) as nat == digits_val(d));
            assert(spec_int_bytes(v) == seq![45u8] + d);
            assert forall|j: int| 0 <= j < d.len() implies d[j] == s[j + 2] by {
                assert(d[j] == t.drop_first()[j]);
                assert(t.drop_first()[j] == t[j + 1]);
                assert(t[j + 1] == s[j + 2]);
            }
            assert(t[(d.len() + 1) as int] == s[(d.len() + 2) as int]);
            assert(t[0] == s[1]);
            assert(seq![105u8] + spec_int_bytes(v) + seq![101u8] =~= s.subrange(0, n as int));
        } else {
            let d = digits_prefix(t);
            lemma_digits_prefix_props(t);
            lemma_spec_digits_of_val(d);
            assert(v >= 0);
            assert(v as nat == digits_val(d));
            assert(spec_int_bytes(v) == d);
            assert forall|j: int| 0 <= j < d.len() implies d[j] == s[j + 1] by {
                assert(d[j] == t[j]);
            }
            assert(t[d.len() as int] == s[(d.len() + 1) as int]);
            assert(seq![105u8] + spec_int_bytes(v) + seq![101u8] =~= s.subrange(0, n as int));
        }
    }
}

/// Every parse result is canonical and re-encodes to exactly the bytes
/// it consumed: the strict decoder inverts the encoder.
pub proof fn lemma_decode_encodes(s: Seq<u8>)
    ensures
        sp_value(s) matches Some(p) ==> {
            &&& 1 <= p.1 <= s.len()
            &&& canonical(p.0)
            &&& spec_encode(p.0) == s.subrange(0, p.1 as int)
        },
    decreases s.len(), 0int,
{
    if sp_value(s) is Some {
        let (v, n) = sp_value(s)->Some_0;
        if s[0] == 105 {
            lemma_sound_int(s);
        } else if is_digit(s[0]) {
            lemma_sound_string(s);
        } else if s[0] == 108 {
            let (items, m) = sp_items(s.drop_first())->Some_0;
            assert(1 <= m);
            lemma_sound_items(s.drop_first());
            let x = spec_encode_items(items);
            assert(x + seq![101u8] == s.drop_first().subrange(0, m as int));
            assert(spec_encode(v) == seq![108u8] + x + seq![101u8]);
            assert(seq![108u8] + x + seq![101u8] =~= seq![108u8] + (x + seq![101u8]));
            assert(s.subrange(0, n as int) =~= seq![s[0]] + s.drop_first().subrange(0, m as int));
            assert(seq![s[0]] =~= seq![108u8]);
            assert(spec_encode(v) == s.subrange(0, n as int));
        } else {
            let (entries, m) = sp_entries(s.drop_first())->Some_0;
            assert(1 <= m);
            lemma_sound_entries(s.drop_first());
            let x = spec_encode_entries(entries);
            assert(x + seq![101u8] == s.drop_first().subrange(0, m as int));
            assert(spec_encode(v) == seq![100u8] + x + seq![101u8]);
            assert(seq![100u8] + x + seq![101u8] =~= seq![100u8] + (x + seq![101u8]));
            assert(s.subrange(0, n as int) =~= seq![s[0]] + s.drop_first().subrange(0, m as int));
            assert(seq![s[0]] =~= seq![100u8]);
            assert(spec_encode(v) == s.subrange(0, n as int));
        }
    }
}

/// Soundness of `sp_items`: canonical elements whose encodings, with
/// the closing `e`, are exactly the consumed bytes.
proof fn lemma_sound_items(s: Seq<u8>)
    ensures
        sp_items(s) matches Some(p) ==> {
            &&& 1 <= p.1 <= s.len()
            &&& (forall|i: int| 0 <= i < p.0.len() ==> canonical(#[trigger] p.0[i]))
            &&& spec_encode_items(p.0) + seq![101u8] == s.subrange(0, p.1 as int)
        },
    decreases s.len(), 1int,
{
    if sp_items(s) is Some {
        if s[0] == 101 {
            assert(spec_encode_items(Seq::<BencodeView>::empty()) + seq![101u8] =~= s.subrange(
                0,
                1,
            ));
        } else {
            let (v, nv) = sp_value(s)->Some_0;
            assert(1 <= nv <= s.len());
            lemma_decode_encodes(s);
            lemma_sound_items(s.skip(nv as int));
            let (rest, m) = sp_items(s.skip(nv as int))->Some_0;
            let items = seq![v] + rest;
            assert(items.drop_first() =~= rest);
            assert(items[0] == v);
            assert(spec_encode_items(items) == spec_encode(v) + spec_encode_items(rest));
            assert(s.skip(nv as int).subrange(0, m as int) =~= s.subrange(
                nv as int,
                (nv + m) as int,
            ));
            assert(spec_encode(v) == s.subrange(0, nv as int));
            assert(spec_encode_items(rest) + seq![101u8] == s.subrange(nv as int, (nv + m) as int));
            assert((spec_encode(v) + spec_encode_items(rest)) + seq![101u8] =~= spec_encode(v) + (
            spec_encode_items(rest) + seq![101u8]));
            assert(s.subrange(0, (nv + m) as int) =~= s.subrange(0, nv as int) + s.subrange(
                nv as int,
                (nv + m) as int,
            ));
            assert(spec_encode_items(items) + seq![101u8] == s.subrange(0, (nv + m) as int));
            assert forall|i: int| 0 <= i < items.len() implies canonical(#[trigger] items[i]) by {
                if i > 0 {
                    assert(items[i] == rest[i - 1]);
                }
            }
        }
    }
}

/// Soundness of `sp_entries`: canonical entry values whose encodings,
/// with the closing `e`, are exactly the consumed bytes.
#[verifier::rlimit(100)]
proof fn lemma_sound_entries(s: Seq<u8>)
    ensures
        sp_entries(s) matches Some(p) ==> {
            &&& 1 <= p.1 <= s.len()
            &&& (forall|i: int| 0 <= i < p.0.len() ==> canonical(#[trigger] p.0[i].1))
            &&& spec_encode_entries(p.0) + seq![101u8] == s.subrange(0, p.1 as int)
        },
    decreases s.len(), 1int,
{
    if sp_entries(s) is Some {
        if s[0] == 101 {
            assert(spec_encode_entries(Seq::<(Seq<u8>, BencodeView)>::empty()) + seq![101u8]
                =~= s.subrange(0, 1));
        } else {
            let (k, nk) = sp_string(s)->Some_0;
            assert(1 <= nk <= s.len());
            lemma_sound_string(s);
            let (v, nv) = sp_value(s.skip(nk as int))->Some_0;
            assert(1 <= nv);
            lemma_decode_encodes(s.skip(nk as int));
            lemma_sound_entries(s.skip((nk + nv) as int));
            let (rest, m) = sp_entries(s.skip((nk + nv) as int))->Some_0;
            let entries = seq![(k, v)] + rest;
            assert(entries.drop_first() =~= rest);
            assert(entries[0] == (k, v));
            assert(spec_encode_entries(entries) == spec_encode_bytes(k) + spec_encode(v)
                + spec_encode_entries(rest));
            assert(s.skip(nk as int).subrange(0, nv as int) =~= s.subrange(
                nk as int,
                (nk + nv) as int,
            ));
            assert(s.skip((nk + nv) as int).subrange(0, m as int) =~= s.subrange(
                (nk + nv) as int,
                (nk + nv + m) as int,
            ));
            assert(spec_encode_bytes(k) == s.subrange(0, nk as int));
            assert(spec_encode(v) == s.subrange(nk as int, (nk + nv) as int));
            assert(spec_encode_entries(rest) + seq![101u8] == s.subrange(
                (nk + nv) as int,
                (nk + nv + m) as int,
            ));
            assert((spec_encode_bytes(k) + spec_encode(v) + spec_encode_entries(rest))
                + seq![101u8] =~= spec_encode_bytes(k) + spec_encode(v) + (spec_encode_entries(
                rest,
            ) + seq![101u8]));
            assert(s.subrange(0, (nk + nv + m) as int) =~= s.subrange(0, nk as int) + s.subrange(
                nk as int,
                (nk + nv) as int,
            ) + s.subrange((nk + nv) as int, (nk + nv + m) as int));
            assert(spec_encode_entries(entries) + seq![101u8] == s.subrange(
                0,
                (nk + nv + m) as int,
            ));
            assert forall|i: int| 0 <= i < entries.len() implies canonical(
                #[trigger] entries[i].1,
            ) by {
                if i > 0 {
                    assert(entries[i] == rest[i - 1]);
                }
            }
        }
    }
}

/// One unfolding step of `sp_items` past a parsed value.
proof fn lemma_sp_items_step(s: Seq<u8>, v: BencodeView, n: nat)
    requires
        s.len() > 0,
        s[0] != 101,
        sp_value(s) == Some((v, n)),
        1 <= n <= s.len(),
    ensures
        sp_items(s.skip(n as int)) matches Some(pm) ==> sp_items(s) == Some(
            ((seq![v] + pm.0), (n + pm.1) as nat),
        ),
        sp_items(s.skip(n as int)) is None ==> sp_items(s) is None,
{
}

/// One unfolding step of `sp_entries` past a parsed key and value.
proof fn lemma_sp_entries_step(s: Seq<u8>, k: Seq<u8>, nk: nat, v: BencodeView, nv: nat)
    requires
        s.len() > 0,
        s[0] != 101,
        sp_string(s) == Some((k, nk)),
        1 <= nk <= s.len(),
        sp_value(s.skip(nk as int)) == Some((v, nv)),
        1 <= nv,
        nk + nv <= s.len(),
    ensures
        sp_entries(s.skip((nk + nv) as int)) matches Some(pm) ==> sp_entries(s) == Some(
            ((seq![(k, v)] + pm.0), (nk + nv + pm.1) as nat),
        ),
        sp_entries(s.skip((nk + nv) as int)) is None ==> sp_entries(s) is None,
{
}

/// The first byte of an encoding identifies the variant, is never the
/// terminator `e`, and every encoding has at least two bytes.
proof fn lemma_encode_first(v: BencodeView)
    ensures
        spec_encode(v).len() >= 2,
        spec_encode(v)[0] != 101,
        v is Int ==> spec_encode(v)[0] == 105,
        v is Bytes ==> is_digit(spec_encode(v)[0]),
        v is List ==> spec_encode(v)[0] == 108,
        v is Dict ==> spec_encode(v)[0] == 100,
{
    match v {
        BencodeView::Int(i) => {
            if i < 0 {
                lemma_spec_digits_props((-i) as nat);
            } else {
                lemma_spec_digits_props(i as nat);
            }
        },
        BencodeView::Bytes(s) => {
            lemma_spec_digits_props(s.len());
            assert(spec_encode(v)[0] == spec_digits(s.len())[0]);
        },
        BencodeView::List(_) => {},
        BencodeView::Dict(_) => {},
    }
}

/// A byte-string encoding, whatever follows it, parses back to the
/// same bytes.
proof fn lemma_complete_string(b: Seq<u8>, rest: Seq<u8>)
    ensures
        sp_string(spec_encode_bytes(b) + rest) == Some((b, spec_encode_bytes(b).len() as nat)),
{
    let d = spec_digits(b.len());
    let s = spec_encode_bytes(b) + rest;
    lemma_spec_digits_props(b.len());
    assert forall|j: int| 0 <= j < d.len() implies is_digit(#[trigger] s[j]) by {
        assert(s[j] == d[j]);
    }
    assert(s[d.len() as int] == 58);
    lemma_digits_prefix_char(s, d.len() as int);
    assert(digits_prefix(s) == s.subrange(0, d.len() as int));
    assert(s.subrange(0, d.len() as int) =~= d);
    assert(s.subrange(d.len() + 1 as int, d.len() + 1 + b.len() as int) =~= b);
}

/// An integer encoding, whatever follows it, parses back to the same
/// value.
proof fn lemma_complete_int(i: int, rest: Seq<u8>)
    requires
        -0x8000_0000_0000_0000 <= i <= 0x7fff_ffff_ffff_ffff,
    ensures
        sp_int(seq![105u8] + spec_int_bytes(i) + seq![101u8] + rest) == Some(
            (i, (spec_int_bytes(i).len() + 2) as nat),
        ),
{
    let s = seq![105u8] + spec_int_bytes(i) + seq![101u8] + rest;
    let t = s.drop_first();
    if i < 0 {
        let d = spec_digits((-i) as nat);
        lemma_spec_digits_props((-i) as nat);
        assert(t[0] == 45);
        let u = t.drop_first();
        assert forall|j: int| 0 <= j < d.len() implies is_digit(#[trigger] u[j]) by {
            assert(u[j] == d[j]);
        }
        assert(u[d.len() as int] == 101);
        lemma_digits_prefix_char(u, d.len() as int);
        assert(u.subrange(0, d.len() as int) =~= d);
        assert(digits_prefix(u) == d);
        assert(t[(d.len() + 1) as int] == 101);
        assert(d[0] != 48);
        assert(digits_val(d) == (-i) as nat);
    } else {
        let d = spec_digits(i as nat);
        lemma_spec_digits_props(i as nat);
        assert(t[0] == d[0]);
        assert(d[0] != 45);
        assert forall|j: int| 0 <= j < d.len() implies is_digit(#[trigger] t[j]) by {
            assert(t[j] == d[j]);
        }
        assert(t[d.len() as int] == 101);
        lemma_digits_prefix_char(t, d.len() as int);
        assert(t.subrange(0, d.len() as int) =~= d);
        assert(digits_prefix(t) == d);
        assert(digits_val(d) == i as nat);
    }
}

/// Completeness of the parser: the encoding of a canonical value,
/// whatever follows it, parses back to that value.
pub proof fn lemma_encode_parses(v: BencodeView, rest: Seq<u8>)
    requires
        canonical(v),
    ensures
        sp_value(spec_encode(v) + rest) == Some((v, spec_encode(v).len() as nat)),
    decreases v, 1int,
{
    let s = spec_encode(v) + rest;
    lemma_encode_first(v);
    assert(s[0] == spec_encode(v)[0]);
    match v {
        BencodeView::Int(i) => {
            assert(s =~= seq![105u8] + spec_int_bytes(i) + seq![101u8] + rest);
            lemma_complete_int(i, rest);
        },
        BencodeView::Bytes(b) => {
            assert(s =~= spec_encode_bytes(b) + rest);
            lemma_complete_string(b, rest);
            assert(!(s[0] == 105));
        },
        BencodeView::List(l) => {
            assert(s.drop_first() =~= spec_encode_items(l) + seq![101u8] + rest);
            lemma_complete_items(l, rest);
            assert(sp_items(s.drop_first()) == Some((l, (spec_encode_items(l).len() + 1) as nat)));
        },
        BencodeView::Dict(d) => {
            assert(s.drop_first() =~= spec_encode_entries(d) + seq![101u8] + rest);
            lemma_complete_entries(d, rest);
            assert(sp_entries(s.drop_first()) == Some(
                (d, (spec_encode_entries(d).len() + 1) as nat),
            ));
            assert(entries_sorted(d));
        },
    }
}

/// Completeness for list bodies: encoded items followed by `e` parse
/// back to the same items.
proof fn lemma_complete_items(l: Seq<BencodeView>, rest: Seq<u8>)
    requires
        forall|i: int| 0 <= i < l.len() ==> canonical(#[trigger] l[i]),
    ensures
        sp_items(spec_encode_items(l) + seq![101u8] + rest) == Some(
            (l, (spec_encode_items(l).len() + 1) as nat),
        ),
    decreases l, 0int,
{
    let s = spec_encode_items(l) + seq![101u8] + rest;
    if l.len() == 0 {
        assert(s =~= seq![101u8] + rest);
        assert(s[0] == 101);
        assert(l =~= Seq::<BencodeView>::empty());
    } else {
        let v0 = l[0];
        let ldf = l.drop_first();
        let tail = spec_encode_items(ldf) + seq![101u8] + rest;
        assert(spec_encode_items(l) == spec_encode(v0) + spec_encode_items(ldf));
        assert(s =~= spec_encode(v0) + tail);
        lemma_encode_parses(v0, tail);
        lemma_encode_first(v0);
        assert(s[0] == spec_encode(v0)[0]);
        assert(s[0] != 101);
        let n0 = spec_encode(v0).len() as nat;
        assert(sp_value(s) == Some((v0, n0)));
        assert(1 <= n0 <= s.len());
        assert(forall|i: int| 0 <= i < ldf.len() ==> canonical(#[trigger] ldf[i]));
        lemma_complete_items(ldf, rest);
        assert(s.skip(n0 as int) =~= tail);
        lemma_sp_items_step(s, v0, n0);
        assert(seq![v0] + ldf =~= l);
    }
}

/// Completeness for dictionary bodies: encoded entries followed by `e`
/// parse back to the same entries.
proof fn lemma_complete_entries(d: Seq<(Seq<u8>, BencodeView)>, rest: Seq<u8>)
    requires
        forall|i: int| 0 <= i < d.len() ==> canonical(#[trigger] d[i].1),
    ensures
        sp_entries(spec_encode_entries(d) + seq![101u8] + rest) == Some(
            (d, (spec_encode_entries(d).len() + 1) as nat),
        ),
    decreases d, 0int,
{
    let s = spec_encode_entries(d) + seq![101u8] + rest;
    if d.len() == 0 {
        assert(s =~= seq![101u8] + rest);
        assert(s[0] == 101);
        assert(d =~= Seq::<(Seq<u8>, BencodeView)>::empty());
    } else {
        let k0 = d[0].0;
        let v0 = d[0].1;
        let ddf = d.drop_first();
        let tail1 = spec_encode(v0) + spec_encode_entries(ddf) + seq![101u8] + rest;
        let tail2 = spec_encode_entries(ddf) + seq![101u8] + rest;
        assert(spec_encode_entries(d) == spec_encode_bytes(k0) + spec_encode(v0)
            + spec_encode_entries(ddf));
        assert(s =~= spec_encode_bytes(k0) + tail1);
        lemma_complete_string(k0, tail1);
        let nk = spec_encode_bytes(k0).len() as nat;
        assert(sp_string(s) == Some((k0, nk)));
        lemma_spec_digits_props(k0.len());
        assert(s[0] == spec_encode_bytes(k0)[0]);
        assert(spec_encode_bytes(k0)[0] == spec_digits(k0.len())[0]);
        assert(s[0] != 101);
        assert(1 <= nk <= s.len());
        assert(s.skip(nk as int) =~= tail1);
        assert(tail1 =~= spec_encode(v0) + tail2);
        lemma_encode_parses(v0, tail2);
        let nv = spec_encode(v0).len() as nat;
        assert(sp_value(s.skip(nk as int)) == Some((v0, nv)));
        lemma_encode_first(v0);
        assert(forall|i: int| 0 <= i < ddf.len() ==> canonical(#[trigger] ddf[i].1));
        lemma_complete_entries(ddf, rest);
        assert(s.skip((nk + nv) as int) =~= tail2);
        lemma_sp_entries_step(s, k0, nk, v0, nv);
        assert(seq![(k0, v0)] + ddf =~= d);
    }
}

/// Round trip, first direction: every canonical value decodes back
/// from its own encoding.
pub proof fn lemma_decode_of_encode(v: BencodeView)
    requires
        canonical(v),
    ensures
        spec_decode(spec_encode(v)) == Some(v),
{
    lemma_encode_parses(v, Seq::<u8>::empty());
    assert(spec_encode(v) + Seq::<u8>::empty() =~= spec_encode(v));
}

/// Round trip, second direction: whatever decodes is canonical and
/// re-encodes byte for byte to the input.
pub proof fn lemma_encode_of_decode(s: Seq<u8>)
    ensures
        spec_decode(s) matches Some(v) ==> canonical(v) && spec_encode(v) == s,
{
    lemma_decode_encodes(s);
    if spec_decode(s) is Some {
        assert(s.subrange(0, s.len() as int) =~= s);
    }
}

/// Compares two byte strings in lexicographic order.
#[verifier::loop_isolation(false)]
fn key_less(a: &Vec<u8>, b: &Vec<u8>) -> (r: bool)
    ensures
        r == lex_less(a@, b@),
{
    let mut k: usize = 0;
    proof {
        assert(a@.skip(0) =~= a@);
        assert(b@.skip(0) =~= b@);
    }
    while k < a.len() && k < b.len()
        invariant
            k <= a@.len(),
            k <= b@.len(),
            lex_less(a@, b@) == lex_less(a@.skip(k as int), b@.skip(k as int)),
        decreases a@.len() - k,
    {
        if a[k] < b[k] {
            return true;
        }
        if a[k] > b[k] {
            return false;
        }
        proof {
            assert(a@.skip(k as int).drop_first() =~= a@.skip(k + 1));
            assert(b@.skip(k as int).drop_first() =~= b@.skip(k + 1));
        }
        k = k + 1;
    }
    k < b.len()
}

/// Checks that the keys of decoded entries are strictly increasing.
#[verifier::loop_isolation(false)]
fn keys_sorted(entries: &Vec<(Vec<u8>, Bencode)>) -> (r: bool)
    ensures
        r == entries_sorted(bview_entries(entries@)),
{
    proof {
        lemma_bview_entries(entries@);
    }
    if entries.len() < 2 {
        return true;
    }
    let mut i: usize = 0;
    while i + 1 < entries.len()
        invariant
            i + 1 <= entries@.len(),
            forall|j: int|
                0 <= j && j < i && j + 1 < entries@.len() ==> lex_less(
                    bview_entries(entries@)[j].0,
                    #[trigger] bview_entries(entries@)[j + 1].0,
                ),
        decreases entries@.len() - i,
    {
        if !key_less(&entries[i].0, &entries[i + 1].0) {
            assert(!lex_less(bview_entries(entries@)[i as int].0, bview_entries(entries@)[i + 1].0));
            return false;
        }
        i = i + 1;
    }
    true
}

/// Parses the value starting at `pos`, returning it and the position
/// after it.
#[verifier::loop_isolation(false)]
fn parse_value(s: &[u8], pos: usize) -> (r: Result<(Bencode, usize), BtError>)
    requires
        pos <= s@.len(),
    ensures
        match r {
            Ok(p) => pos < p.1 <= s@.len() && sp_value(s@.skip(pos as int)) == Some(
                (p.0@, (p.1 - pos) as nat),
            ),
            Err(e) => sp_value(s@.skip(pos as int)) is None && e == BtError::Malformed,
        },
    decreases s@.len() - pos, 0int,
{
    let ghost t = s@.skip(pos as int);
    if pos >= s.len() {
        return Err(BtError::Malformed);
    }
    let c = s[pos];
    assert(t[0] == c);
    if c == 105 {
        match parse_int(s, pos) {
            Ok((i, end)) => Ok((Bencode::Int(i), end)),
            Err(e) => Err(e),
        }
    } else if 48 <= c && c <= 57 {
        match parse_string(s, pos) {
            Ok((b, end)) => Ok((Bencode::Bytes(b), end)),
            Err(e) => Err(e),
        }
    } else if c == 108 {
        proof {
            assert(t.drop_first() =~= s@.skip(pos + 1));
        }
        match parse_items(s, pos + 1) {
            Ok((items, end)) => Ok((Bencode::List(items), end)),
            Err(e) => Err(e),
        }
    } else if c == 100 {
        proof {
            assert(t.drop_first() =~= s@.skip(pos + 1));
        }
        match parse_entries(s, pos + 1) {
            Ok((entries, end)) => {
                if keys_sorted(&entries) {
                    Ok((Bencode::Dict(entries), end))
                } else {
                    Err(BtError::Malformed)
                }
            },
            Err(e) => Err(e),
        }
    } else {
        Err(BtError::Malformed)
    }
}

/// Parses list items from `pos` up to and including the closing `e`.
#[verifier::loop_isolation(false)]
fn parse_items(s: &[u8], pos: usize) -> (r: Result<(Vec<Bencode>, usize), BtError>)
    requires
        pos <= s@.len(),
    ensures
        match r {
            Ok(p) => pos < p.1 <= s@.len() && sp_items(s@.skip(pos as int)) == Some(
                (bview_seq(p.0@), (p.1 - pos) as nat),
            ),
            Err(e) => sp_items(s@.skip(pos as int)) is None && e == BtError::Malformed,
        },
    decreases s@.len() - pos, 1int,
{
    let ghost t = s@.skip(pos as int);
    let mut items: Vec<Bencode> = Vec::new();
    let mut cur: usize = pos;
    proof {
        assert(bview_seq(items@) =~= Seq::<BencodeView>::empty());
    }
    loop
        invariant
            pos <= cur <= s@.len(),
            sp_items(s@.skip(cur as int)) matches Some(pm) ==> sp_items(t) == Some(
                ((bview_seq(items@) + pm.0), ((cur - pos) + pm.1) as nat),
            ),
            sp_items(s@.skip(cur as int)) is None ==> sp_items(t) is None,
        decreases s@.len() - cur,
    {
        let ghost tc = s@.skip(cur as int);
        if cur >= s.len() {
            assert(sp_items(tc) is None);
            return Err(BtError::Malformed);
        }
        if s[cur] == 101 {
            assert(tc[0] == 101);
            assert(sp_items(tc) == Some((Seq::<BencodeView>::empty(), 1nat)));
            proof {
                assert(bview_seq(items@) + Seq::<BencodeView>::empty() =~= bview_seq(items@));
            }
            return Ok((items, cur + 1));
        }
        assert(tc.len() > 0 && tc[0] != 101);
        match parse_value(s, cur) {
            Err(e) => {
                assert(sp_value(tc) is None);
                assert(sp_items(tc) is None);
                return Err(e);
            },
            Ok((v, end)) => {
                proof {
                    assert(sp_value(tc) == Some((v@, (end - cur) as nat)));
                    assert(1 <= (end - cur) as nat <= tc.len());
                    assert(tc.skip(end - cur) =~= s@.skip(end as int));
                    lemma_sp_items_step(tc, v@, (end - cur) as nat);
                    lemma_bview_seq_push(items@, v);
                    if sp_items(s@.skip(end as int)) is Some {
                        let (r2, m2) = sp_items(s@.skip(end as int))->Some_0;
                        assert(sp_items(tc) == Some(
                            ((seq![v@] + r2), (((end - cur) as nat) + m2) as nat),
                        ));
                        assert((bview_seq(items@) + (seq![v@] + r2)) =~= (bview_seq(
                            items@.push(v),
                        ) + r2));
                    } else {
                        assert(sp_items(tc) is None);
                    }
                }
                items.push(v);
                cur = end;
            },
        }
    }
}

/// Parses dictionary entries from `pos` up to and including the closing
/// `e`.  Key order is checked by the caller.
#[verifier::loop_isolation(false)]
fn parse_entries(s: &[u8], pos: usize) -> (r: Result<(Vec<(Vec<u8>, Bencode)>, usize), BtError>)
    requires
        pos <= s@.len(),
    ensures
        match r {
            Ok(p) => pos < p.1 <= s@.len() && sp_entries(s@.skip(pos as int)) == Some(
                (bview_entries(p.0@), (p.1 - pos) as nat),
            ),
            Err(e) => sp_entries(s@.skip(pos as int)) is None && e == BtError::Malformed,
        },
    decreases s@.len() - pos, 1int,
{
    let ghost t = s@.skip(pos as int);
    let mut entries: Vec<(Vec<u8>, Bencode)> = Vec::new();
    let mut cur: usize = pos;
    proof {
        assert(bview_entries(entries@) =~= Seq::<(Seq<u8>, BencodeView)>::empty());
    }
    loop
        invariant
            pos <= cur <= s@.len(),
            sp_entries(s@.skip(cur as int)) matches Some(pm) ==> sp_entries(t) == Some(
                ((bview_entries(entries@) + pm.0), ((cur - pos) + pm.1) as nat),
            ),
            sp_entries(s@.skip(cur as int)) is None ==> sp_entries(t) is None,
        decreases s@.len() - cur,
    {
        let ghost tc = s@.skip(cur as int);
        if cur >= s.len() {
            assert(sp_entries(tc) is None);
            return Err(BtError::Malformed);
        }
        if s[cur] == 101 {
            assert(tc[0] == 101);
            assert(sp_entries(tc) == Some((Seq::<(Seq<u8>, BencodeView)>::empty(), 1nat)));
            proof {
                assert(bview_entries(entries@) + Seq::<(Seq<u8>, BencodeView)>::empty()
                    =~= bview_entries(entries@));
            }
            return Ok((entries, cur + 1));
        }
        assert(tc.len() > 0 && tc[0] != 101);
        let key = match parse_string(s, cur) {
            Err(e) => {
                assert(sp_string(tc) is None);
                assert(sp_entries(tc) is None);
                return Err(e);
            },
            Ok(p) => p,
        };
        let (k, kend) = key;
        assert(sp_string(tc) == Some((k@, (kend - cur) as nat)));
        proof {
            assert(tc.skip(kend - cur) =~= s@.skip(kend as int));
        }
        let val = match parse_value(s, kend) {
            Err(e) => {
                assert(sp_value(tc.skip(kend - cur)) is None);
                assert(sp_entries(tc) is None);
                return Err(e);
            },
            Ok(p) => p,
        };
        let (v, vend) = val;
        proof {
            assert(sp_value(tc.skip(kend - cur)) == Some((v@, (vend - kend) as nat)));
            assert(tc.skip(vend - cur) =~= s@.skip(vend as int));
            lemma_sp_entries_step(
                tc,
                k@,
                (kend - cur) as nat,
                v@,
                (vend - kend) as nat,
            );
            lemma_bview_entries_push(entries@, k, v);
            if sp_entries(s@.skip(vend as int)) is Some {
                let (r2, m2) = sp_entries(s@.skip(vend as int))->Some_0;
                assert(sp_entries(tc) == Some(
                    ((seq![(k@, v@)] + r2), ((vend - cur) + m2) as nat),
                ));
                assert((bview_entries(entries@) + (seq![(k@, v@)] + r2)) =~= (bview_entries(
                    entries@.push((k, v)),
                ) + r2));
            } else {
                assert(sp_entries(tc) is None);
            }
        }
        entries.push((k, v));
        cur = vend;
    }
}

/// Parses the value at the head of `encoded`, returning it and how
/// many bytes it occupied.  Bytes after the value are left alone.
pub fn decode_prefix(encoded: &[u8]) -> (r: Result<(Bencode, usize), BtError>)
    ensures
        match r {
            Ok(p) => 0 < p.1 <= encoded@.len() && sp_value(encoded@) == Some(
                (p.0@, p.1 as nat),
            ),
            Err(e) => sp_value(encoded@) is None && e == BtError::Malformed,
        },
{
    proof {
        assert(encoded@.skip(0) =~= encoded@);
    }
    parse_value(encoded, 0)
}

/// Parses a whole byte string as one bencoded value.  Exactly the
/// canonical encodings are accepted: anything else, including trailing
/// bytes, a `-0` or a leading zero, is `Malformed`.
pub fn decode(encoded: &[u8]) -> (r: Result<Bencode, BtError>)
    ensures
        match r {
            Ok(v) => spec_decode(encoded@) == Some(v@),
            Err(e) => spec_decode(encoded@) is None && e == BtError::Malformed,
        },
{
    match decode_prefix(encoded) {
        Ok((v, n)) => {
            if n == encoded.len() {
                Ok(v)
            } else {
                Err(BtError::Malformed)
            }
        },
        Err(e) => Err(e),
    }
}

/// Serializes a value into its canonical bencode byte string.  Every
/// dictionary is emitted with its keys in lexicographic byte order,
/// whatever order it stores them in; a value that is already
/// canonical encodes as itself (`lemma_normalize_canonical_id`).
pub fn encode(val: &Bencode) -> (r: Vec<u8>)
    ensures
        r@ == spec_encode(normalize(val@)),
{
    let mut out: Vec<u8> = Vec::new();
    encode_into(val, &mut out);
    out
}

} // verus!

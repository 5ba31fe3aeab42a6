//! Canonical fingerprinting of resolved trait-label sets.
//!
//! A combination's visible traits are rendered as `"<layer>-<name>"`
//! label strings.  The labels' UTF-8 byte sequences are sorted ascending
//! in raw-byte lexicographic order, concatenated, and hashed with
//! Keccak-256; the fingerprint is the lower-case hex encoding of the
//! digest.  Sorting makes the fingerprint independent of the order in
//! which layers were visited during sampling.

use vstd::multiset::Multiset;
use vstd::prelude::*;
use vstd::relations::{sorted_by, total_ordering};
use vstd::seq_lib::lemma_sorted_unique;
use vstd::utf8::encode_utf8;

verus! {

/// Plain dictionary order on byte strings: `a <= b` iff `a` is a prefix
/// of `b` or `a` is smaller at the first differing position.
pub open spec fn lex_leq(a: Seq<u8>, b: Seq<u8>) -> bool
    decreases a.len(),
{
    if a.len() == 0 {
        true
    } else if b.len() == 0 {
        false
    } else if a[0] < b[0] {
        true
    } else if a[0] > b[0] {
        false
    } else {
        lex_leq(a.drop_first(), b.drop_first())
    }
}

/// The byte-string order as a relation value, in the form the sorting
/// lemmas of `vstd` expect.
pub open spec fn lex_leq_fn() -> spec_fn(Seq<u8>, Seq<u8>) -> bool {
    |a: Seq<u8>, b: Seq<u8>| lex_leq(a, b)
}

proof fn lemma_lex_refl(a: Seq<u8>)
    ensures
        lex_leq(a, a),
    decreases a.len(),
{
    if a.len() > 0 {
        lemma_lex_refl(a.drop_first());
    }
}

proof fn lemma_lex_antisym(a: Seq<u8>, b: Seq<u8>)
    requires
        lex_leq(a, b),
        lex_leq(b, a),
    ensures
        a == b,
    decreases a.len(),
{
    if a.len() == 0 {
        assert(b.len() == 0);
        assert(a =~= b);
    } else {
        assert(b.len() > 0);
        assert(a[0] == b[0]);
        lemma_lex_antisym(a.drop_first(), b.drop_first());
        assert(a.drop_first() == b.drop_first());
        assert(a =~= b) by {
            assert(a.len() - 1 == a.drop_first().len());
            assert(b.len() - 1 == b.drop_first().len());
            assert(a.len() == b.len());
            assert forall|i: int| 0 <= i < a.len() implies a[i] == b[i] by {
                if i > 0 {
                    assert(a[i] == a.drop_first()[i - 1]);
                    assert(b[i] == b.drop_first()[i - 1]);
                }
            }
        }
    }
}

proof fn lemma_lex_trans(a: Seq<u8>, b: Seq<u8>, c: Seq<u8>)
    requires
        lex_leq(a, b),
        lex_leq(b, c),
    ensures
        lex_leq(a, c),
    decreases a.len(),
{
    if a.len() == 0 {
    } else {
        assert(b.len() > 0);
        assert(c.len() > 0);
        if a[0] == b[0] && b[0] == c[0] {
            lemma_lex_trans(a.drop_first(), b.drop_first(), c.drop_first());
        }
    }
}

proof fn lemma_lex_connected(a: Seq<u8>, b: Seq<u8>)
    ensures
        lex_leq(a, b) || lex_leq(b, a),
    decreases a.len(),
{
    if a.len() > 0 && b.len() > 0 && a[0] == b[0] {
        lemma_lex_connected(a.drop_first(), b.drop_first());
    }
}

/// Raw-byte lexicographic order is a total order, so sorting by it
/// canonicalises a collection of byte strings.
pub proof fn lemma_lex_total_ordering()
    ensures
        total_ordering(lex_leq_fn()),
{
    let r = lex_leq_fn();
    assert forall|x: Seq<u8>| #[trigger] r(x, x) by {
        lemma_lex_refl(x);
    }
    assert forall|x: Seq<u8>, y: Seq<u8>| #[trigger] r(x, y) && #[trigger] r(y, x) implies x == y by {
        lemma_lex_antisym(x, y);
    }
    assert forall|x: Seq<u8>, y: Seq<u8>, z: Seq<u8>| #[trigger] r(x, y) && #[trigger] r(y, z) implies r(x, z) by {
        lemma_lex_trans(x, y, z);
    }
    assert forall|x: Seq<u8>, y: Seq<u8>| #[trigger] r(x, y) || #[trigger] r(y, x) by {
        lemma_lex_connected(x, y);
    }
}

/// The Keccak-256 digest of a byte sequence, a function of the bytes
/// alone; the engine never states what the digest is on given bytes.
pub uninterp spec fn keccak_of(bytes: Seq<u8>) -> Seq<u8>;

/// Relies on `sha3::Keccak256` (through the `digest` traits `new`,
/// `update` and `finalize`): a 32-byte digest determined by the input
/// bytes alone.
#[verifier::external_body]
fn keccak256(bytes: &Vec<u8>) -> (r: Vec<u8>)
    ensures
        r@ == keccak_of(bytes@),
        r@.len() == 32,
{
    let mut hasher = <sha3::Keccak256 as sha3::Digest>::new();
    <sha3::Keccak256 as sha3::Digest>::update(&mut hasher, bytes.as_slice());
    <sha3::Keccak256 as sha3::Digest>::finalize(hasher).to_vec()
}

/// The lower-case hex character for a value below sixteen.
pub open spec fn hex_digit(n: int) -> char {
    if n == 0 { '0' }
    else if n == 1 { '1' }
    else if n == 2 { '2' }
    else if n == 3 { '3' }
    else if n == 4 { '4' }
    else if n == 5 { '5' }
    else if n == 6 { '6' }
    else if n == 7 { '7' }
    else if n == 8 { '8' }
    else if n == 9 { '9' }
    else if n == 10 { 'a' }
    else if n == 11 { 'b' }
    else if n == 12 { 'c' }
    else if n == 13 { 'd' }
    else if n == 14 { 'e' }
    else { 'f' }
}

/// Lower-case hex encoding: two characters for each byte, high nibble
/// first.
pub open spec fn hex_of(bytes: Seq<u8>) -> Seq<char> {
    Seq::new(
        bytes.len() * 2,
        |i: int| if i % 2 == 0 {
            hex_digit(bytes[i / 2] as int / 16)
        } else {
            hex_digit(bytes[i / 2] as int % 16)
        },
    )
}

fn hex_digit_str(d: u8) -> (r: &'static str)
    requires
        d < 16,
    ensures
        r@ == seq![hex_digit(d as int)],
{
    proof {
        reveal_strlit("0");
        reveal_strlit("1");
        reveal_strlit("2");
        reveal_strlit("3");
        reveal_strlit("4");
        reveal_strlit("5");
        reveal_strlit("6");
        reveal_strlit("7");
        reveal_strlit("8");
        reveal_strlit("9");
        reveal_strlit("a");
        reveal_strlit("b");
        reveal_strlit("c");
        reveal_strlit("d");
        reveal_strlit("e");
        reveal_strlit("f");
    }
    let r = match d {
        0 => "0",
        1 => "1",
        2 => "2",
        3 => "3",
        4 => "4",
        5 => "5",
        6 => "6",
        7 => "7",
        8 => "8",
        9 => "9",
        10 => "a",
        11 => "b",
        12 => "c",
        13 => "d",
        14 => "e",
        _ => "f",
    };
    proof {
        assert(r@ =~= seq![hex_digit(d as int)]);
    }
    r
}

/// Hex-encodes a byte string, two lower-case digits for each byte.
pub fn to_hex(bytes: &Vec<u8>) -> (r: String)
    ensures
        r@ == hex_of(bytes@),
{
    let mut r = String::new();
    let mut i: usize = 0;
    while i < bytes.len()
        invariant
            i <= bytes@.len(),
            r@ =~= hex_of(bytes@).subrange(0, 2 * i as int),
        decreases bytes@.len() - i,
    {
        let b = bytes[i];
        assert(b / 16 < 16) by (nonlinear_arith)
            requires b <= 255u8,
        ;
        let hi = hex_digit_str(b / 16);
        let lo = hex_digit_str(b % 16);
        r.append(hi);
        r.append(lo);
        proof {
            let full = hex_of(bytes@);
            assert((2 * i as int) / 2 == i as int);
            assert((2 * i as int + 1) / 2 == i as int);
            assert(full[2 * i as int] == hex_digit(b as int / 16));
            assert(full[2 * i as int + 1] == hex_digit(b as int % 16));
            assert(r@ =~= full.subrange(0, 2 * (i + 1) as int));
        }
        i += 1;
    }
    proof {
        assert(hex_of(bytes@).subrange(0, 2 * i as int) =~= hex_of(bytes@));
    }
    r
}

/// The views of a sequence of byte vectors.
pub open spec fn byte_views(v: Seq<Vec<u8>>) -> Seq<Seq<u8>> {
    v.map_values(|x: Vec<u8>| x@)
}

/// The views of a sequence of label strings.
pub open spec fn label_views(v: Seq<String>) -> Seq<Seq<char>> {
    v.map_values(|s: String| s@)
}

/// The UTF-8 encoding, as a relation value for `map_values`.
pub open spec fn enc_fn() -> spec_fn(Seq<char>) -> Seq<u8> {
    |l: Seq<char>| encode_utf8(l)
}

/// A label collection in canonical order: sorted ascending by raw-byte
/// lexicographic order.
pub open spec fn canonical_order(labels: Seq<Seq<u8>>) -> Seq<Seq<u8>> {
    labels.sort_by(lex_leq_fn())
}

/// The fingerprint of a sequence of labels: the hex-encoded Keccak-256
/// digest of the labels' UTF-8 byte strings, sorted and concatenated.
pub open spec fn fingerprint_of(labels: Seq<Seq<char>>) -> Seq<char> {
    hex_of(keccak_of(canonical_order(labels.map_values(enc_fn())).flatten()))
}

/// Compares two byte strings in raw-byte lexicographic order.
pub fn bytes_leq(a: &Vec<u8>, b: &Vec<u8>) -> (r: bool)
    ensures
        r == lex_leq(a@, b@),
{
    proof {
        assert(a@.skip(0) =~= a@);
        assert(b@.skip(0) =~= b@);
    }
    let mut i: usize = 0;
    loop
        invariant
            i <= a@.len(),
            i <= b@.len(),
            lex_leq(a@, b@) == lex_leq(a@.skip(i as int), b@.skip(i as int)),
        decreases a@.len() - i,
    {
        if i == a.len() {
            assert(a@.skip(i as int).len() == 0);
            return true;
        }
        if i == b.len() {
            assert(a@.skip(i as int).len() > 0);
            assert(b@.skip(i as int).len() == 0);
            return false;
        }
        let x = a[i];
        let y = b[i];
        proof {
            assert(a@.skip(i as int)[0] == a@[i as int]);
            assert(b@.skip(i as int)[0] == b@[i as int]);
            assert(a@.skip(i as int).drop_first() =~= a@.skip(i as int + 1));
            assert(b@.skip(i as int).drop_first() =~= b@.skip(i as int + 1));
        }
        if x < y {
            return true;
        }
        if x > y {
            return false;
        }
        i += 1;
    }
}

proof fn lemma_insert_sorted(s: Seq<Seq<u8>>, p: int, x: Seq<u8>)
    requires
        sorted_by(s, lex_leq_fn()),
        0 <= p <= s.len(),
        forall|k: int| 0 <= k < p ==> lex_leq(#[trigger] s[k], x),
        p < s.len() ==> lex_leq(x, s[p]),
    ensures
        sorted_by(s.insert(p, x), lex_leq_fn()),
{
    let t = s.insert(p, x);
    let r = lex_leq_fn();
    assert forall|i: int, j: int| 0 <= i < j < t.len() implies #[trigger] r(t[i], t[j]) by {
        if j < p {
            assert(t[i] == s[i] && t[j] == s[j]);
        } else if j == p {
            assert(t[i] == s[i]);
            assert(lex_leq(s[i], x));
        } else {
            // j > p
            assert(t[j] == s[j - 1]);
            if i < p {
                assert(t[i] == s[i]);
                assert(lex_leq(x, s[p]));
                if p < j - 1 {
                    assert(r(s[p], s[j - 1]));
                    lemma_lex_trans(x, s[p], s[j - 1]);
                }
                lemma_lex_trans(s[i], x, s[j - 1]);
            } else if i == p {
                assert(t[i] == x);
                assert(lex_leq(x, s[p]));
                if p < j - 1 {
                    assert(r(s[p], s[j - 1]));
                    lemma_lex_trans(x, s[p], s[j - 1]);
                }
            } else {
                assert(t[i] == s[i - 1]);
                assert(r(s[i - 1], s[j - 1]));
            }
        }
    }
}

proof fn lemma_insert_multiset<A>(s: Seq<A>, p: int, x: A)
    requires
        0 <= p <= s.len(),
    ensures
        s.insert(p, x).to_multiset() =~= s.to_multiset().insert(x),
{
    broadcast use vstd::seq_lib::group_to_multiset_ensures;
    broadcast use vstd::multiset::group_multiset_axioms;

    let pre = s.take(p);
    let post = s.skip(p);
    let single = Seq::<A>::empty().push(x);
    assert(s =~= pre + post);
    assert(s.insert(p, x) =~= pre + (single + post));
    vstd::seq_lib::lemma_multiset_commutative(pre, post);
    vstd::seq_lib::lemma_multiset_commutative(pre, single + post);
    vstd::seq_lib::lemma_multiset_commutative(single, post);
    assert(single.to_multiset() =~= Multiset::<A>::empty().insert(x));
    assert(pre.to_multiset().add(Multiset::<A>::empty().insert(x).add(post.to_multiset()))
        =~= pre.to_multiset().add(post.to_multiset()).insert(x));
}

/// Inserts a byte string into a vector kept in canonical order.
fn insert_in_order(out: &mut Vec<Vec<u8>>, x: Vec<u8>)
    requires
        sorted_by(byte_views(old(out)@), lex_leq_fn()),
    ensures
        sorted_by(byte_views(final(out)@), lex_leq_fn()),
        byte_views(final(out)@).to_multiset() =~= byte_views(old(out)@).to_multiset().insert(x@),
{
    let mut p: usize = 0;
    loop
        invariant
            out@ == old(out)@,
            p <= out@.len(),
            forall|k: int| 0 <= k < p ==> lex_leq(#[trigger] byte_views(out@)[k], x@),
        ensures
            out@ == old(out)@,
            p <= out@.len(),
            forall|k: int| 0 <= k < p ==> lex_leq(#[trigger] byte_views(out@)[k], x@),
            p < out@.len() ==> lex_leq(x@, byte_views(out@)[p as int]),
        decreases out@.len() - p,
    {
        if p == out.len() {
            break;
        }
        if bytes_leq(&x, &out[p]) {
            break;
        }
        proof {
            lemma_lex_connected(x@, out@[p as int]@);
        }
        p += 1;
    }
    let ghost pre = out@;
    let ghost xv = x@;
    out.insert(p, x);
    proof {
        assert(byte_views(out@) =~= byte_views(pre).insert(p as int, xv)) by {
            assert(out@ =~= pre.insert(p as int, x));
        }
        lemma_insert_sorted(byte_views(pre), p as int, xv);
        lemma_insert_multiset(byte_views(pre), p as int, xv);
    }
}

/// Derives the canonical fingerprint of a collection of label strings.
///
/// The result depends only on which labels appear (with multiplicity),
/// never on their order.
pub fn hash_dna(traits: &Vec<String>) -> (r: String)
    ensures
        r@ == fingerprint_of(label_views(traits@)),
        r@.len() == 64,
{
    broadcast use vstd::seq_lib::group_to_multiset_ensures;

    let ghost lv = label_views(traits@);
    let ghost mapped = lv.map_values(enc_fn());
    let mut sorted_labels: Vec<Vec<u8>> = Vec::new();
    let mut i: usize = 0;
    proof {
        assert(byte_views(sorted_labels@) =~= Seq::<Seq<u8>>::empty());
        assert(mapped.take(0) =~= Seq::<Seq<u8>>::empty());
    }
    while i < traits.len()
        invariant
            i <= traits@.len(),
            lv == label_views(traits@),
            mapped == lv.map_values(enc_fn()),
            sorted_by(byte_views(sorted_labels@), lex_leq_fn()),
            byte_views(sorted_labels@).to_multiset() =~= mapped.take(i as int).to_multiset(),
        decreases traits@.len() - i,
    {
        let b = traits[i].as_str().as_bytes_vec();
        proof {
            assert(b@ == encode_utf8(traits@[i as int]@));
            assert(mapped[i as int] == enc_fn()(lv[i as int]));
            assert(lv[i as int] == traits@[i as int]@);
        }
        insert_in_order(&mut sorted_labels, b);
        proof {
            assert(mapped.take(i as int + 1) =~= mapped.take(i as int).push(mapped[i as int]));
            vstd::seq_lib::to_multiset_build(mapped.take(i as int), mapped[i as int]);
            assert(mapped.take(i as int).push(mapped[i as int]).to_multiset()
                =~= mapped.take(i as int).to_multiset().insert(mapped[i as int]));
            assert(b@ == mapped[i as int]);
        }
        i += 1;
    }
    proof {
        assert(mapped.take(i as int) =~= mapped);
        lemma_lex_total_ordering();
        mapped.lemma_sort_by_ensures(lex_leq_fn());
        lemma_sorted_unique(byte_views(sorted_labels@), mapped.sort_by(lex_leq_fn()), lex_leq_fn());
        assert(byte_views(sorted_labels@) =~= canonical_order(mapped));
    }
    let ghost ordered = byte_views(sorted_labels@);
    let mut data: Vec<u8> = Vec::new();
    let mut j: usize = 0;
    proof {
        assert(ordered.take(0) =~= Seq::<Seq<u8>>::empty());
        assert(Seq::<Seq<u8>>::empty().flatten() =~= Seq::<u8>::empty());
    }
    while j < sorted_labels.len()
        invariant
            j <= sorted_labels@.len(),
            ordered == byte_views(sorted_labels@),
            data@ =~= ordered.take(j as int).flatten(),
        decreases sorted_labels@.len() - j,
    {
        let ghost before = data@;
        let piece_len = sorted_labels[j].len();
        let mut k: usize = 0;
        while k < piece_len
            invariant
                k <= piece_len,
                j < sorted_labels@.len(),
                piece_len == sorted_labels@[j as int]@.len(),
                ordered == byte_views(sorted_labels@),
                data@ =~= before + ordered[j as int].take(k as int),
            decreases piece_len - k,
        {
            let byte = sorted_labels[j][k];
            data.push(byte);
            proof {
                assert(ordered[j as int].take(k as int + 1)
                    =~= ordered[j as int].take(k as int).push(ordered[j as int][k as int]));
            }
            k += 1;
        }
        proof {
            assert(ordered[j as int].take(piece_len as int) =~= ordered[j as int]);
            assert(ordered.take(j as int + 1) =~= ordered.take(j as int).push(ordered[j as int]));
            broadcast use Seq::lemma_flatten_push;
            assert(data@ =~= ordered.take(j as int + 1).flatten());
        }
        j += 1;
    }
    proof {
        assert(ordered.take(j as int) =~= ordered);
    }
    let digest = keccak256(&data);
    to_hex(&digest)
}

proof fn lemma_map_values_remove<A, B>(s: Seq<A>, f: spec_fn(A) -> B, i: int)
    requires
        0 <= i < s.len(),
    ensures
        s.remove(i).map_values(f) =~= s.map_values(f).remove(i),
{
}

proof fn lemma_map_values_multiset(a: Seq<Seq<char>>, b: Seq<Seq<char>>)
    requires
        a.to_multiset() == b.to_multiset(),
    ensures
        a.map_values(enc_fn()).to_multiset() =~= b.map_values(enc_fn()).to_multiset(),
    decreases a.len(),
{
    broadcast use vstd::seq_lib::group_to_multiset_ensures;
    broadcast use vstd::multiset::group_multiset_axioms;

    let am = a.map_values(enc_fn());
    let bm = b.map_values(enc_fn());
    if a.len() == 0 {
        assert(a.to_multiset().len() == a.len());
        assert(b.to_multiset().len() == b.len());
        assert(b.len() == 0);
        assert(am =~= Seq::<Seq<u8>>::empty());
        assert(bm =~= Seq::<Seq<u8>>::empty());
        assert(am.to_multiset() =~= bm.to_multiset());
    } else {
        let x = a[0];
        assert(a.contains(x));
        assert(b.to_multiset().count(x) > 0);
        assert(b.contains(x));
        let i = choose|i: int| 0 <= i < b.len() && b[i] == x;
        assert(a.remove(0).to_multiset() =~= a.to_multiset().remove(x));
        assert(b.remove(i).to_multiset() =~= b.to_multiset().remove(x));
        lemma_map_values_multiset(a.remove(0), b.remove(i));
        lemma_map_values_remove(a, enc_fn(), 0);
        lemma_map_values_remove(b, enc_fn(), i);
        assert(am.remove(0).to_multiset() =~= am.to_multiset().remove(am[0]));
        assert(bm.remove(i).to_multiset() =~= bm.to_multiset().remove(bm[i]));
        assert(am[0] == bm[i]);
        assert(am.to_multiset().count(am[0]) > 0);
        assert(bm.to_multiset().count(bm[i]) > 0);
        assert(am.to_multiset() =~= am.to_multiset().remove(am[0]).insert(am[0]));
        assert(bm.to_multiset() =~= bm.to_multiset().remove(bm[i]).insert(bm[i]));
        assert(am.to_multiset() =~= bm.to_multiset());
    }
}

/// Order independence of the fingerprint: two label sequences that hold
/// the same labels, each the same number of times, fingerprint
/// identically, whatever order the labels were produced in.
pub proof fn lemma_fingerprint_order_independent(a: Seq<Seq<char>>, b: Seq<Seq<char>>)
    requires
        a.to_multiset() == b.to_multiset(),
    ensures
        fingerprint_of(a) == fingerprint_of(b),
{
    lemma_map_values_multiset(a, b);
    lemma_lex_total_ordering();
    let am = a.map_values(enc_fn());
    let bm = b.map_values(enc_fn());
    am.lemma_sort_by_ensures(lex_leq_fn());
    bm.lemma_sort_by_ensures(lex_leq_fn());
    lemma_sorted_unique(am.sort_by(lex_leq_fn()), bm.sort_by(lex_leq_fn()), lex_leq_fn());
    assert(canonical_order(am) == canonical_order(bm));
}

} // verus!

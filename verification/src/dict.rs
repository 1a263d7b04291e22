//! Canonical dictionary emission for key/value pairs given in any order.
//!
//! An unordered collection of pairs has no emission order of its own, yet the
//! wire format demands ascending raw-key order.  [`AsDict`] wraps a pair
//! list, and its encoding sorts the pairs by key bytes first, so two pair
//! lists holding the same entries encode to the same bytes no matter how
//! they were built up.

use crate::encodable::Encodable;
use crate::encoder::{Error, SingleItemEncoder};
use crate::value::{
    depth_of, dict_enc, encoding, lemma_dict_depth_ge, lemma_dict_depth_le, BValue, TOK_DICT,
};
use vstd::multiset::Multiset;
use vstd::prelude::*;

verus! {

/// Byte-lexicographic order: `a` comes no later than `b`.
pub open spec fn lex_le(a: Seq<u8>, b: Seq<u8>) -> bool
    decreases a.len(),
{
    if a.len() == 0 {
        true
    } else if b.len() == 0 {
        false
    } else if a[0] < b[0] {
        true
    } else if a[0] > b[0] {
        false
    } else {
        lex_le(a.skip(1), b.skip(1))
    }
}

pub proof fn lemma_lex_le_refl(a: Seq<u8>)
    ensures
        lex_le(a, a),
    decreases a.len(),
{
    if a.len() > 0 {
        lemma_lex_le_refl(a.skip(1));
    }
}

pub proof fn lemma_lex_le_total(a: Seq<u8>, b: Seq<u8>)
    ensures
        lex_le(a, b) || lex_le(b, a),
    decreases a.len(),
{
    if a.len() > 0 && b.len() > 0 && a[0] == b[0] {
        lemma_lex_le_total(a.skip(1), b.skip(1));
    }
}

pub proof fn lemma_lex_le_antisym(a: Seq<u8>, b: Seq<u8>)
    requires
        lex_le(a, b),
        lex_le(b, a),
    ensures
        a == b,
    decreases a.len(),
{
    if a.len() == 0 {
        assert(a =~= b);
    } else {
        assert(b.len() > 0);
        assert(a[0] == b[0]);
        lemma_lex_le_antisym(a.skip(1), b.skip(1));
        assert(a.skip(1) == b.skip(1));
        assert(a.len() == b.len());
        assert forall|k: int| 0 <= k < a.len() implies a[k] == b[k] by {
            if k > 0 {
                assert(a[k] == a.skip(1)[k - 1]);
                assert(b[k] == b.skip(1)[k - 1]);
            }
        }
        assert(a =~= b);
    }
}

pub proof fn lemma_lex_le_trans(a: Seq<u8>, b: Seq<u8>, c: Seq<u8>)
    requires
        lex_le(a, b),
        lex_le(b, c),
    ensures
        lex_le(a, c),
    decreases a.len(),
{
    if a.len() > 0 && b.len() > 0 && c.len() > 0 && a[0] == b[0] && b[0] == c[0] {
        lemma_lex_le_trans(a.skip(1), b.skip(1), c.skip(1));
    }
}

/// Byte-lexicographic comparison of two keys.
pub fn le_bytes(a: &Vec<u8>, b: &Vec<u8>) -> (r: bool)
    ensures
        r == lex_le(a@, b@),
{
    let mut i: usize = 0;
    proof {
        assert(a@.skip(0) =~= a@);
        assert(b@.skip(0) =~= b@);
    }
    while i < a.len() && i < b.len()
        invariant
            i <= a.len(),
            i <= b.len(),
            lex_le(a@, b@) == lex_le(a@.skip(i as int), b@.skip(i as int)),
        decreases a.len() - i,
    {
        if a[i] < b[i] {
            return true;
        }
        if a[i] > b[i] {
            return false;
        }
        proof {
            assert(a@.skip(i as int).skip(1) =~= a@.skip(i + 1));
            assert(b@.skip(i as int).skip(1) =~= b@.skip(i + 1));
        }
        i = i + 1;
    }
    i >= a.len()
}

/// Places `p` in front of the first pair whose key is not below `p`'s.
pub open spec fn insert_pair(
    p: (Seq<u8>, BValue),
    s: Seq<(Seq<u8>, BValue)>,
) -> Seq<(Seq<u8>, BValue)>
    decreases s.len(),
{
    if s.len() == 0 {
        seq![p]
    } else if lex_le(p.0, s[0].0) {
        seq![p] + s
    } else {
        seq![s[0]] + insert_pair(p, s.skip(1))
    }
}

/// Insertion sort of the pairs by raw key bytes.
pub open spec fn sort_pairs(s: Seq<(Seq<u8>, BValue)>) -> Seq<(Seq<u8>, BValue)>
    decreases s.len(),
{
    if s.len() == 0 {
        Seq::empty()
    } else {
        insert_pair(s[0], sort_pairs(s.skip(1)))
    }
}

/// The abstract pairs of an owned pair list.
pub open spec fn pair_views<V: Encodable>(s: Seq<(Vec<u8>, V)>) -> Seq<(Seq<u8>, BValue)> {
    s.map_values(|p: (Vec<u8>, V)| (p.0@, p.1.bval()))
}

/// The abstract pairs of a borrowed pair list.
pub open spec fn ref_pair_views<V: Encodable>(s: Seq<(&Vec<u8>, &V)>) -> Seq<(Seq<u8>, BValue)> {
    s.map_values(|p: (&Vec<u8>, &V)| ((*p.0)@, (*p.1).bval()))
}

fn insert_sorted<'a, V: Encodable>(
    p: (&'a Vec<u8>, &'a V),
    s: Vec<(&'a Vec<u8>, &'a V)>,
) -> (r: Vec<(&'a Vec<u8>, &'a V)>)
    ensures
        ref_pair_views(r@) == insert_pair((p.0@, p.1.bval()), ref_pair_views(s@)),
    decreases s@.len(),
{
    let ghost pv = (p.0@, p.1.bval());
    let ghost sv = ref_pair_views(s@);
    let mut s = s;
    if s.len() == 0 {
        s.push(p);
        proof {
            assert(ref_pair_views(s@) =~= seq![pv]);
            assert(insert_pair(pv, sv) == seq![pv]);
        }
        s
    } else {
        let le = le_bytes(p.0, s[0].0);
        if le {
            s.insert(0, p);
            proof {
                assert(ref_pair_views(s@) =~= seq![pv] + sv);
            }
            s
        } else {
            let h = s.remove(0);
            proof {
                assert(ref_pair_views(s@) =~= sv.skip(1));
            }
            let mut r = insert_sorted(p, s);
            r.insert(0, h);
            proof {
                assert(ref_pair_views(r@) =~= seq![sv[0]] + insert_pair(pv, sv.skip(1)));
            }
            r
        }
    }
}

fn sort_pair_refs<'a, V: Encodable>(s: Vec<(&'a Vec<u8>, &'a V)>) -> (r: Vec<
    (&'a Vec<u8>, &'a V),
>)
    ensures
        ref_pair_views(r@) == sort_pairs(ref_pair_views(s@)),
    decreases s@.len(),
{
    let ghost sv = ref_pair_views(s@);
    let mut s = s;
    if s.len() == 0 {
        proof {
            assert(ref_pair_views(s@) =~= Seq::<(Seq<u8>, BValue)>::empty());
        }
        s
    } else {
        let h = s.remove(0);
        proof {
            assert(ref_pair_views(s@) =~= sv.skip(1));
        }
        let sorted = sort_pair_refs(s);
        let r = insert_sorted(h, sorted);
        proof {
            assert((h.0@, h.1.bval()) == sv[0]);
            assert(sort_pairs(sv) == insert_pair(sv[0], sort_pairs(sv.skip(1))));
        }
        r
    }
}

/// Wrapper giving key/value pairs collected in any order a canonical
/// dictionary encoding: the pairs are sorted by raw key bytes before
/// emission, the way an unordered map's entries must be.
pub struct AsDict<V>(pub Vec<(Vec<u8>, V)>);

impl<V: Encodable> Encodable for AsDict<V> {
    open spec fn bval(&self) -> BValue {
        BValue::Dict(sort_pairs(pair_views(self.0@)))
    }

    open spec fn max_depth_spec() -> nat {
        V::max_depth_spec() + 1
    }

    proof fn lemma_depth_bounded(v: &Self) {
        broadcast use vstd::seq_lib::group_to_multiset_ensures;

        let pv = pair_views(v.0@);
        let sorted = sort_pairs(pv);
        lemma_sort_pairs_multiset(pv);
        assert forall|j: int| 0 <= j < sorted.len() implies depth_of(#[trigger] sorted[j].1)
            <= V::max_depth_spec() by {
            assert(sorted.contains(sorted[j]));
            assert(pv.to_multiset().count(sorted[j]) > 0);
            assert(pv.contains(sorted[j]));
            let k = choose|k: int| 0 <= k < pv.len() && pv[k] == sorted[j];
            V::lemma_depth_bounded(&v.0@[k].1);
        }
        lemma_dict_depth_le(sorted, 0, V::max_depth_spec());
    }

    fn max_depth() -> (d: usize) {
        let d = V::max_depth();
        if d == usize::MAX {
            usize::MAX
        } else {
            d + 1
        }
    }

    fn encode(&self, encoder: &mut SingleItemEncoder) -> (r: Result<(), Error>) {
        let ghost sv = sort_pairs(pair_views(self.0@));
        let mut refs: Vec<(&Vec<u8>, &V)> = Vec::new();
        let mut i: usize = 0;
        while i < self.0.len()
            invariant
                i <= self.0.len(),
                ref_pair_views(refs@) == pair_views(self.0@).subrange(0, i as int),
            decreases self.0.len() - i,
        {
            let ghost prev = refs@;
            let pr = &self.0[i];
            refs.push((&pr.0, &pr.1));
            proof {
                assert(refs@ == prev.push((&pr.0, &pr.1)));
                assert(ref_pair_views(prev).len() == prev.len());
                assert(pair_views(self.0@).len() == self.0@.len());
                assert(pair_views(self.0@).subrange(0, i as int).len() == i);
                assert(prev.len() == i);
                assert(refs@.len() == i + 1);
                assert(ref_pair_views(refs@)[i as int] == ((pr.0)@, (pr.1).bval()));
                assert(pair_views(self.0@)[i as int] == ((self.0@[i as int].0)@, (
                self.0@[i as int].1).bval()));
                assert(ref_pair_views(refs@) =~= pair_views(self.0@).subrange(0, i + 1));
            }
            i = i + 1;
        }
        proof {
            assert(pair_views(self.0@).subrange(0, self.0@.len() as int) =~= pair_views(
                self.0@,
            ));
        }
        let sorted = sort_pair_refs(refs);
        let res = encoder.open_dict();
        match res {
            Ok(()) => {},
            Err(e) => {
                return Err(e);
            },
        }
        let mut j: usize = 0;
        while j < sorted.len()
            invariant
                j <= sorted.len(),
                sv == ref_pair_views(sorted@),
                sv == sort_pairs(pair_views(self.0@)),
                encoder.ceiling() == old(encoder).ceiling(),
                encoder.nesting() == old(encoder).nesting() + 1,
                encoder.nesting() <= encoder.ceiling(),
                encoder.bytes() + dict_enc(sv, j as int) == old(encoder).bytes() + seq![TOK_DICT]
                    + dict_enc(sv, 0),
                forall|k: int| 0 <= k < j ==> depth_of(#[trigger] sv[k].1) + old(encoder).nesting()
                    + 1 <= old(encoder).ceiling(),
            decreases sorted.len() - j,
        {
            let entry = sorted[j];
            let res2 = encoder.emit_pair(entry.0.as_slice(), entry.1);
            match res2 {
                Ok(()) => {
                    proof {
                        assert(sv[j as int] == (entry.0@, entry.1.bval()));
                        assert(encoder.bytes() + dict_enc(sv, j + 1) =~= old(encoder).bytes()
                            + seq![TOK_DICT] + dict_enc(sv, 0));
                    }
                },
                Err(e) => {
                    proof {
                        assert(sv[j as int] == (entry.0@, entry.1.bval()));
                        lemma_dict_depth_ge(sv, 0, j as int);
                    }
                    return Err(e);
                },
            }
            j = j + 1;
        }
        proof {
            assert(dict_enc(sv, sv.len() as int) =~= Seq::<u8>::empty());
            assert(encoder.bytes() =~= old(encoder).bytes() + seq![TOK_DICT] + dict_enc(sv, 0));
            if old(encoder).nesting() + 1 <= old(encoder).ceiling() {
                lemma_dict_depth_le(
                    sv,
                    0,
                    (old(encoder).ceiling() - old(encoder).nesting() - 1) as nat,
                );
            }
        }
        encoder.close_dict();
        proof {
            assert(encoder.bytes() =~= old(encoder).bytes() + encoding(self.bval()));
        }
        Ok(())
    }

    fn to_bytes(&self) -> (r: Result<Vec<u8>, Error>) {
        proof {
            Self::lemma_depth_bounded(self);
        }
        let limit = Self::max_depth();
        let mut item = SingleItemEncoder::new(limit);
        let res = self.encode(&mut item);
        match res {
            Ok(()) => {
                proof {
                    assert(item.bytes() =~= encoding(self.bval()));
                }
                Ok(item.into_bytes())
            },
            Err(e) => Err(e),
        }
    }
}

/// Inserting a pair adds exactly it to the pair multiset.
pub proof fn lemma_insert_pair_multiset(p: (Seq<u8>, BValue), s: Seq<(Seq<u8>, BValue)>)
    ensures
        insert_pair(p, s).to_multiset() == s.to_multiset().insert(p),
        insert_pair(p, s).len() == s.len() + 1,
    decreases s.len(),
{
    broadcast use vstd::seq_lib::group_to_multiset_ensures;
    broadcast use vstd::multiset::group_multiset_axioms;

    if s.len() == 0 {
        assert(insert_pair(p, s) =~= Seq::<(Seq<u8>, BValue)>::empty().push(p));
        assert(s.to_multiset() =~= Multiset::<(Seq<u8>, BValue)>::empty());
        assert(insert_pair(p, s).to_multiset() =~= s.to_multiset().insert(p));
    } else if lex_le(p.0, s[0].0) {
        vstd::seq_lib::lemma_multiset_commutative(seq![p], s);
        assert(seq![p].to_multiset() =~= Multiset::<(Seq<u8>, BValue)>::empty().insert(p));
        assert((seq![p] + s).to_multiset() =~= s.to_multiset().insert(p));
    } else {
        lemma_insert_pair_multiset(p, s.skip(1));
        vstd::seq_lib::lemma_multiset_commutative(seq![s[0]], insert_pair(p, s.skip(1)));
        vstd::seq_lib::lemma_multiset_commutative(seq![s[0]], s.skip(1));
        assert(s =~= seq![s[0]] + s.skip(1));
        assert(seq![s[0]].to_multiset() =~= Multiset::<(Seq<u8>, BValue)>::empty().insert(
            s[0],
        ));
        assert((seq![s[0]] + insert_pair(p, s.skip(1))).to_multiset() =~= s.to_multiset().insert(
            p,
        ));
    }
}

/// Sorting rearranges the pairs and loses or invents none.
pub proof fn lemma_sort_pairs_multiset(s: Seq<(Seq<u8>, BValue)>)
    ensures
        sort_pairs(s).to_multiset() == s.to_multiset(),
        sort_pairs(s).len() == s.len(),
    decreases s.len(),
{
    broadcast use vstd::seq_lib::group_to_multiset_ensures;
    broadcast use vstd::multiset::group_multiset_axioms;

    if s.len() == 0 {
        assert(sort_pairs(s).to_multiset() =~= s.to_multiset());
    } else {
        lemma_sort_pairs_multiset(s.skip(1));
        lemma_insert_pair_multiset(s[0], sort_pairs(s.skip(1)));
        vstd::seq_lib::lemma_multiset_commutative(seq![s[0]], s.skip(1));
        assert(s =~= seq![s[0]] + s.skip(1));
        assert(seq![s[0]].to_multiset() =~= Multiset::<(Seq<u8>, BValue)>::empty().insert(
            s[0],
        ));
        assert(sort_pairs(s).to_multiset() =~= s.to_multiset());
    }
}

/// Keys appear in ascending (non-strict) byte-lexicographic order.
pub open spec fn sorted_keys(s: Seq<(Seq<u8>, BValue)>) -> bool {
    forall|i: int, j: int|
        0 <= i < j < s.len() ==> lex_le(#[trigger] s[i].0, #[trigger] s[j].0)
}

/// No key occurs on two pairs.
pub open spec fn distinct_keys(s: Seq<(Seq<u8>, BValue)>) -> bool {
    forall|i: int, j: int| 0 <= i < j < s.len() ==> (#[trigger] s[i].0) != (#[trigger] s[j].0)
}

/// Whether some pair carries the key `k`.
pub open spec fn has_key(s: Seq<(Seq<u8>, BValue)>, k: Seq<u8>) -> bool {
    exists|i: int| 0 <= i < s.len() && (#[trigger] s[i].0) == k
}

/// Inserting a pair adds exactly its key to the keys present.
pub proof fn lemma_insert_pair_has_key(p: (Seq<u8>, BValue), s: Seq<(Seq<u8>, BValue)>, k: Seq<u8>)
    ensures
        has_key(insert_pair(p, s), k) <==> (k == p.0 || has_key(s, k)),
    decreases s.len(),
{
    let r = insert_pair(p, s);
    if s.len() == 0 {
        if has_key(r, k) {
            let i = choose|i: int| 0 <= i < r.len() && r[i].0 == k;
            assert(i == 0);
        }
        if k == p.0 {
            assert(r[0].0 == k);
        }
    } else if lex_le(p.0, s[0].0) {
        assert(r == seq![p] + s);
        if has_key(r, k) {
            let i = choose|i: int| 0 <= i < r.len() && r[i].0 == k;
            if i > 0 {
                assert(s[i - 1].0 == k);
            }
        }
        if k == p.0 {
            assert(r[0].0 == k);
        }
        if has_key(s, k) {
            let i = choose|i: int| 0 <= i < s.len() && s[i].0 == k;
            assert(r[i + 1].0 == k);
        }
    } else {
        lemma_insert_pair_has_key(p, s.skip(1), k);
        let rr = insert_pair(p, s.skip(1));
        assert(r == seq![s[0]] + rr);
        if has_key(r, k) {
            let i = choose|i: int| 0 <= i < r.len() && r[i].0 == k;
            if i == 0 {
                assert(s[0].0 == k);
            } else {
                assert(rr[i - 1].0 == k);
                assert(has_key(rr, k));
                if k != p.0 {
                    let j = choose|j: int| 0 <= j < s.skip(1).len() && s.skip(1)[j].0 == k;
                    assert(s[j + 1].0 == k);
                }
            }
        }
        if k == p.0 {
            assert(has_key(rr, k));
            let j = choose|j: int| 0 <= j < rr.len() && rr[j].0 == k;
            assert(r[j + 1].0 == k);
        }
        if has_key(s, k) {
            let i = choose|i: int| 0 <= i < s.len() && s[i].0 == k;
            if i == 0 {
                assert(r[0].0 == k);
            } else {
                assert(s.skip(1)[i - 1].0 == k);
                assert(has_key(s.skip(1), k));
                let j = choose|j: int| 0 <= j < rr.len() && rr[j].0 == k;
                assert(r[j + 1].0 == k);
            }
        }
    }
}

/// Insertion keeps the keys in order.
pub proof fn lemma_insert_pair_sorted(p: (Seq<u8>, BValue), s: Seq<(Seq<u8>, BValue)>)
    requires
        sorted_keys(s),
    ensures
        sorted_keys(insert_pair(p, s)),
    decreases s.len(),
{
    broadcast use vstd::seq_lib::group_to_multiset_ensures;
    broadcast use vstd::multiset::group_multiset_axioms;

    let r = insert_pair(p, s);
    if s.len() == 0 {
    } else if lex_le(p.0, s[0].0) {
        assert(r == seq![p] + s);
        assert forall|i: int, j: int| 0 <= i < j < r.len() implies lex_le(
            r[i].0,
            r[j].0,
        ) by {
            if i == 0 && j > 1 {
                assert(lex_le(s[0].0, s[j - 1].0));
                lemma_lex_le_trans(p.0, s[0].0, s[j - 1].0);
            }
        }
    } else {
        lemma_lex_le_total(p.0, s[0].0);
        assert forall|i: int, j: int| 0 <= i < j < s.skip(1).len() implies lex_le(
            #[trigger] s.skip(1)[i].0,
            #[trigger] s.skip(1)[j].0,
        ) by {
            assert(s.skip(1)[i] == s[i + 1]);
            assert(s.skip(1)[j] == s[j + 1]);
        }
        lemma_insert_pair_sorted(p, s.skip(1));
        lemma_insert_pair_multiset(p, s.skip(1));
        let rr = insert_pair(p, s.skip(1));
        assert(r == seq![s[0]] + rr);
        assert forall|j: int| 0 <= j < rr.len() implies lex_le(s[0].0, #[trigger] rr[j].0) by {
            assert(rr.contains(rr[j]));
            assert(rr.to_multiset().count(rr[j]) > 0);
            if rr[j] != p {
                assert(s.skip(1).to_multiset().count(rr[j]) > 0);
                assert(s.skip(1).contains(rr[j]));
                let m = choose|m: int| 0 <= m < s.skip(1).len() && s.skip(1)[m] == rr[j];
                assert(s[m + 1] == rr[j]);
                assert(lex_le(s[0].0, s[m + 1].0));
            }
        }
        assert forall|i: int, j: int| 0 <= i < j < r.len() implies lex_le(
            r[i].0,
            r[j].0,
        ) by {
            if i == 0 {
                assert(r[j] == rr[j - 1]);
            } else {
                assert(r[i] == rr[i - 1]);
                assert(r[j] == rr[j - 1]);
                assert(lex_le(rr[i - 1].0, rr[j - 1].0));
            }
        }
    }
}

/// Sorting leaves the keys in ascending order.
pub proof fn lemma_sort_pairs_sorted(s: Seq<(Seq<u8>, BValue)>)
    ensures
        sorted_keys(sort_pairs(s)),
    decreases s.len(),
{
    if s.len() > 0 {
        lemma_sort_pairs_sorted(s.skip(1));
        lemma_insert_pair_sorted(s[0], sort_pairs(s.skip(1)));
    }
}

/// Sorting neither adds nor drops keys.
pub proof fn lemma_sort_pairs_has_key(s: Seq<(Seq<u8>, BValue)>, k: Seq<u8>)
    ensures
        has_key(sort_pairs(s), k) <==> has_key(s, k),
    decreases s.len(),
{
    if s.len() == 0 {
        if has_key(s, k) {
            let i = choose|i: int| 0 <= i < s.len() && s[i].0 == k;
        }
    } else {
        lemma_sort_pairs_has_key(s.skip(1), k);
        lemma_insert_pair_has_key(s[0], sort_pairs(s.skip(1)), k);
        if has_key(s, k) {
            let i = choose|i: int| 0 <= i < s.len() && s[i].0 == k;
            if i == 0 {
                assert(k == s[0].0);
            } else {
                assert(s.skip(1)[i - 1].0 == k);
                assert(has_key(s.skip(1), k));
            }
        }
        if has_key(s.skip(1), k) {
            let j = choose|j: int| 0 <= j < s.skip(1).len() && s.skip(1)[j].0 == k;
            assert(s[j + 1].0 == k);
        }
        if k == s[0].0 {
            assert(s[0].0 == k);
        }
    }
}

/// Insertion of a fresh key keeps the keys duplicate-free.
pub proof fn lemma_insert_pair_distinct(p: (Seq<u8>, BValue), s: Seq<(Seq<u8>, BValue)>)
    requires
        distinct_keys(s),
        !has_key(s, p.0),
    ensures
        distinct_keys(insert_pair(p, s)),
    decreases s.len(),
{
    let r = insert_pair(p, s);
    if s.len() == 0 {
    } else if lex_le(p.0, s[0].0) {
        assert(r == seq![p] + s);
        assert forall|i: int, j: int| 0 <= i < j < r.len() implies (r[i].0) != (r[j].0) by {
            if i == 0 {
                assert(r[j] == s[j - 1]);
                if r[j].0 == p.0 {
                    assert(s[j - 1].0 == p.0);
                    assert(has_key(s, p.0));
                }
            }
        }
    } else {
        assert forall|i: int, j: int| 0 <= i < j < s.skip(1).len() implies (
        #[trigger] s.skip(1)[i].0) != (#[trigger] s.skip(1)[j].0) by {
            assert(s.skip(1)[i] == s[i + 1]);
            assert(s.skip(1)[j] == s[j + 1]);
        }
        if has_key(s.skip(1), p.0) {
            let m = choose|m: int| 0 <= m < s.skip(1).len() && s.skip(1)[m].0 == p.0;
            assert(s[m + 1].0 == p.0);
            assert(has_key(s, p.0));
        }
        lemma_insert_pair_distinct(p, s.skip(1));
        lemma_insert_pair_has_key(p, s.skip(1), s[0].0);
        let rr = insert_pair(p, s.skip(1));
        assert(r == seq![s[0]] + rr);
        assert(s[0].0 != p.0) by {
            if s[0].0 == p.0 {
                assert(has_key(s, p.0));
            }
        }
        assert(!has_key(s.skip(1), s[0].0)) by {
            if has_key(s.skip(1), s[0].0) {
                let m = choose|m: int| 0 <= m < s.skip(1).len() && s.skip(1)[m].0 == s[0].0;
                assert(s[m + 1].0 == s[0].0);
            }
        }
        assert(!has_key(rr, s[0].0));
        assert forall|i: int, j: int| 0 <= i < j < r.len() implies (r[i].0) != (r[j].0) by {
            if i == 0 {
                assert(r[j] == rr[j - 1]);
                if rr[j - 1].0 == s[0].0 {
                    assert(has_key(rr, s[0].0));
                }
            } else {
                assert(r[i] == rr[i - 1]);
                assert(r[j] == rr[j - 1]);
            }
        }
    }
}

/// Sorting keeps the keys duplicate-free.
pub proof fn lemma_sort_pairs_distinct(s: Seq<(Seq<u8>, BValue)>)
    requires
        distinct_keys(s),
    ensures
        distinct_keys(sort_pairs(s)),
    decreases s.len(),
{
    if s.len() > 0 {
        assert forall|i: int, j: int| 0 <= i < j < s.skip(1).len() implies (
        #[trigger] s.skip(1)[i].0) != (#[trigger] s.skip(1)[j].0) by {
            assert(s.skip(1)[i] == s[i + 1]);
            assert(s.skip(1)[j] == s[j + 1]);
        }
        lemma_sort_pairs_distinct(s.skip(1));
        lemma_sort_pairs_has_key(s.skip(1), s[0].0);
        if has_key(s.skip(1), s[0].0) {
            let m = choose|m: int| 0 <= m < s.skip(1).len() && s.skip(1)[m].0 == s[0].0;
            assert(s[m + 1].0 == s[0].0);
        }
        lemma_insert_pair_distinct(s[0], sort_pairs(s.skip(1)));
    }
}

/// Two sequences that are sorted by key, duplicate-free in their keys, and
/// equal as pair multisets are the same sequence.
pub proof fn lemma_sorted_distinct_unique(x: Seq<(Seq<u8>, BValue)>, y: Seq<(Seq<u8>, BValue)>)
    requires
        sorted_keys(x),
        sorted_keys(y),
        distinct_keys(x),
        distinct_keys(y),
        x.to_multiset() == y.to_multiset(),
    ensures
        x == y,
    decreases x.len(),
{
    broadcast use vstd::seq_lib::group_to_multiset_ensures;
    broadcast use vstd::multiset::group_multiset_axioms;

    if x.len() == 0 {
        assert(x.to_multiset().len() == 0);
        assert(y.to_multiset().len() == y.len());
        assert(x =~= y);
    } else {
        assert(x.to_multiset().len() == x.len());
        assert(y.to_multiset().len() == y.len());
        assert(y.len() > 0);
        assert(x.contains(x[0]));
        assert(y.to_multiset().count(x[0]) > 0);
        assert(y.contains(x[0]));
        let j = choose|j: int| 0 <= j < y.len() && y[j] == x[0];
        assert(y.contains(y[0]));
        assert(x.to_multiset().count(y[0]) > 0);
        assert(x.contains(y[0]));
        let i = choose|i: int| 0 <= i < x.len() && x[i] == y[0];
        if i > 0 {
            assert(lex_le(x[0].0, x[i].0));
        } else {
            lemma_lex_le_refl(x[0].0);
        }
        if j > 0 {
            assert(lex_le(y[0].0, y[j].0));
        } else {
            lemma_lex_le_refl(y[0].0);
        }
        lemma_lex_le_antisym(x[0].0, y[0].0);
        assert(x[0].0 == y[0].0);
        if j > 0 {
            assert(y[0].0 != y[j].0);
            assert(y[j].0 == x[0].0);
            assert(false);
        }
        assert(x[0] == y[0]);
        let xr = x.skip(1);
        let yr = y.skip(1);
        assert(x.remove(0) =~= xr);
        assert(y.remove(0) =~= yr);
        assert(x.remove(0).to_multiset() =~= x.to_multiset().remove(x[0]));
        assert(y.remove(0).to_multiset() =~= y.to_multiset().remove(y[0]));
        assert(xr.to_multiset() == yr.to_multiset());
        assert forall|a: int, b: int| 0 <= a < b < xr.len() implies lex_le(
            #[trigger] xr[a].0,
            #[trigger] xr[b].0,
        ) && (xr[a].0) != (xr[b].0) by {
            assert(xr[a] == x[a + 1]);
            assert(xr[b] == x[b + 1]);
        }
        assert forall|a: int, b: int| 0 <= a < b < yr.len() implies lex_le(
            #[trigger] yr[a].0,
            #[trigger] yr[b].0,
        ) && (yr[a].0) != (yr[b].0) by {
            assert(yr[a] == y[a + 1]);
            assert(yr[b] == y[b + 1]);
        }
        lemma_sorted_distinct_unique(xr, yr);
        assert forall|k: int| 0 <= k < x.len() implies x[k] == y[k] by {
            if k > 0 {
                assert(x[k] == xr[k - 1]);
                assert(y[k] == yr[k - 1]);
            }
        }
        assert(x =~= y);
    }
}

/// Determinism of dictionary encoding: two pair lists holding the same
/// entries (equal as multisets, no key repeated) sort to the same pair
/// sequence, so the dictionaries they describe encode byte-identically,
/// whatever order the entries arrived in.
pub proof fn lemma_dict_encoding_deterministic(
    s1: Seq<(Seq<u8>, BValue)>,
    s2: Seq<(Seq<u8>, BValue)>,
)
    requires
        s1.to_multiset() == s2.to_multiset(),
        distinct_keys(s1),
        distinct_keys(s2),
    ensures
        sort_pairs(s1) == sort_pairs(s2),
        encoding(BValue::Dict(sort_pairs(s1))) == encoding(BValue::Dict(sort_pairs(s2))),
{
    lemma_sort_pairs_multiset(s1);
    lemma_sort_pairs_multiset(s2);
    lemma_sort_pairs_sorted(s1);
    lemma_sort_pairs_sorted(s2);
    lemma_sort_pairs_distinct(s1);
    lemma_sort_pairs_distinct(s2);
    lemma_sorted_distinct_unique(sort_pairs(s1), sort_pairs(s2));
}

/// Canonical ordering: the pair sequence a dictionary wrapper actually
/// encodes is in ascending byte-lexicographic key order, and strictly so
/// when no key repeats among the input pairs.
pub proof fn lemma_dict_canonical_ordering(s: Seq<(Seq<u8>, BValue)>)
    ensures
        sorted_keys(sort_pairs(s)),
        distinct_keys(s) ==> distinct_keys(sort_pairs(s)),
{
    lemma_sort_pairs_sorted(s);
    if distinct_keys(s) {
        lemma_sort_pairs_distinct(s);
    }
}

/// An already sorted, duplicate-free pair list passes through the sort
/// unchanged: entries that arrive in their natural ascending order are
/// emitted in exactly that order.
pub proof fn lemma_sort_pairs_of_sorted(s: Seq<(Seq<u8>, BValue)>)
    requires
        sorted_keys(s),
        distinct_keys(s),
    ensures
        sort_pairs(s) == s,
{
    lemma_sort_pairs_multiset(s);
    lemma_sort_pairs_sorted(s);
    lemma_sort_pairs_distinct(s);
    lemma_sorted_distinct_unique(sort_pairs(s), s);
}

/// Determinism restated on the wrapper itself: dictionaries built from the
/// same entries have the same abstract value, hence the same encoding.
pub proof fn lemma_as_dict_deterministic<V: Encodable>(a: &AsDict<V>, b: &AsDict<V>)
    requires
        pair_views(a.0@).to_multiset() == pair_views(b.0@).to_multiset(),
        distinct_keys(pair_views(a.0@)),
        distinct_keys(pair_views(b.0@)),
    ensures
        a.bval() == b.bval(),
        encoding(a.bval()) == encoding(b.bval()),
{
    lemma_dict_encoding_deterministic(pair_views(a.0@), pair_views(b.0@));
}

} // verus!
